//! A $Q-style stroke-gesture recognizer over fixed-point coordinates.
//!
//! A raw stroke (a sequence of sampled points, possibly spanning several
//! pen-down segments) is normalized into a canonical fixed-size point cloud
//! and matched against registered template clouds with a pruned greedy
//! nearest-neighbor distance. All coordinates are integers: one drawing unit
//! is `utils::UNIT` ticks, which keeps the whole pipeline in verifiable
//! integer arithmetic.

pub mod arith;
pub mod error;
pub mod point;
pub mod point_cloud;
pub mod qdollar;
pub mod utils;

pub use error::QDollarError;
pub use point::Point;
pub use point_cloud::PointCloud;
pub use qdollar::QDollarRecognizer;
pub use qdollar::QDollarResult;
