//! The recognizer: the registry of named templates and the best-of-N scan.

use crate::arith::lemma_div_range;
use crate::error::QDollarError;
use crate::point::Point;
use crate::point_cloud::{cloud_wf, raw_gesture_ok, PointCloud};
use crate::utils::LUT_SIZE;
use crate::utils::{
    best_match, lemma_lb_valid_transfer, lemma_lut_lookup_agree, lemma_registry_min_same_points,
    lemma_registry_pruned_same_views, spec_all_lb_valid, spec_centroid_x, spec_centroid_y,
    spec_is_cloud_of, spec_registry_min, spec_registry_pruned,
};
use vstd::prelude::*;

verus! {

/// Fixed-point score scale: a perfect match scores `SCORE_SCALE`.
pub const SCORE_SCALE: u64 = 1_000_000;

/// One squared drawing unit of match distance, in squared ticks: the
/// distance up to which a match scores `SCORE_SCALE`.
pub const UNIT_SQ: u64 = 1_048_576;

/// The score for a best distance `d`: the full `SCORE_SCALE` up to one
/// squared unit, decaying as `SCORE_SCALE * UNIT_SQ / d` beyond it.
pub open spec fn spec_score(d: int) -> int {
    if d <= UNIT_SQ {
        SCORE_SCALE as int
    } else {
        (SCORE_SCALE as int) * (UNIT_SQ as int) / d
    }
}

/// The outcome of a recognition: the winning template's name, a score in
/// `(0, SCORE_SCALE]`, and the elapsed wall-clock milliseconds.
#[derive(Debug)]
pub struct QDollarResult {
    pub name: String,
    pub score: u64,
    pub time: u128,
}

/// The recognizer. It owns the insertion-ordered registry of named template
/// clouds; duplicate names are legal, and the registry is bounded only by
/// the machine's address space.
pub struct QDollarRecognizer {
    point_clouds: Vec<PointCloud>,
}

impl View for QDollarRecognizer {
    type V = Seq<PointCloud>;

    /// The registry, as the sequence of registered template clouds.
    closed spec fn view(&self) -> Seq<PointCloud> {
        self.point_clouds@
    }
}

/// Every registered template is a well-formed cloud.
pub open spec fn registry_wf(r: QDollarRecognizer) -> bool {
    forall|i: int| 0 <= i < r@.len() ==> cloud_wf(#[trigger] r@[i])
}

#[verifier::external_type_specification]
#[verifier::external_body]
pub struct ExInstant(std::time::Instant);

/// Relies on std::time::Instant::now: a reading of the monotonic clock.
/// Nothing is promised of the value.
#[verifier::external_body]
fn instant_now() -> std::time::Instant {
    std::time::Instant::now()
}

/// Relies on std::time::Instant::elapsed and Duration::as_millis: the
/// wall-clock milliseconds since `start`. Nothing is promised of the value.
#[verifier::external_body]
fn elapsed_millis(start: &std::time::Instant) -> u128 {
    start.elapsed().as_millis()
}

/// The score a best match distance earns: `SCORE_SCALE` for anything within
/// one squared unit, `SCORE_SCALE * UNIT_SQ / d` beyond it — closer matches
/// approach the full scale, farther ones decay toward (but never reach)
/// zero.
pub fn score_for_distance(d: u64) -> (s: u64)
    requires
        d <= 17_179_869_184,
    ensures
        s == spec_score(d as int),
        0 < s <= SCORE_SCALE,
{
    if d > UNIT_SQ {
        proof {
            lemma_div_range((SCORE_SCALE as int) * (UNIT_SQ as int), 1, SCORE_SCALE as int, d as int);
        }
        SCORE_SCALE * UNIT_SQ / d
    } else {
        SCORE_SCALE
    }
}

impl QDollarRecognizer {
    /// An empty recognizer: no gestures are registered.
    pub fn new() -> (r: QDollarRecognizer)
        ensures
            r@.len() == 0,
            registry_wf(r),
    {
        QDollarRecognizer { point_clouds: Vec::new() }
    }

    /// Register `points` as a template named `name`; returns the new
    /// template count. The registry keeps insertion order and accepts every
    /// well-formed gesture; the appended template is exactly the cloud the
    /// pipeline builds from `points`.
    pub fn add_gesture(&mut self, name: String, points: Vec<Point>) -> (r: usize)
        requires
            raw_gesture_ok(points@),
            registry_wf(*old(self)),
            old(self)@.len() < usize::MAX,
        ensures
            final(self)@.len() == old(self)@.len() + 1,
            r == final(self)@.len(),
            forall|i: int| 0 <= i < old(self)@.len() ==> final(self)@[i] == old(self)@[i],
            final(self)@.last().name@ == name@,
            cloud_wf(final(self)@.last()),
            spec_is_cloud_of(final(self)@.last(), points@),
            spec_centroid_x(final(self)@.last().points@) == 0,
            spec_centroid_y(final(self)@.last().points@) == 0,
            registry_wf(*final(self)),
    {
        self.point_clouds.push(PointCloud::new(name, points));
        self.point_clouds.len()
    }

    /// Clear the registry; returns the new template count, always zero.
    pub fn delete_user_gestures(&mut self) -> (r: usize)
        ensures
            r == 0,
            final(self)@.len() == 0,
            registry_wf(*final(self)),
    {
        self.point_clouds = Vec::new();
        self.point_clouds.len()
    }

    /// Match `points` against every registered template, in registration
    /// order, pruning each comparison with the best distance so far. Fails
    /// with `NoRegisteredGestures` exactly when the registry is empty.
    /// Otherwise the result is pinned for every input: the score is the
    /// score of the pruned registry scan's final minimum for the candidate
    /// cloud built from `points`, and the name is that of the earliest
    /// template attaining it. Whenever the per-offset estimates are true
    /// lower bounds against every template, that minimum coincides with the
    /// unpruned running registry minimum.
    pub fn recognize(&self, points: &Vec<Point>) -> (r: Result<QDollarResult, QDollarError>)
        requires
            raw_gesture_ok(points@),
            registry_wf(*self),
        ensures
            self@.len() == 0 <==> r is Err,
            r matches Err(e) ==> e == QDollarError::NoRegisteredGestures,
            r matches Ok(res) ==> exists|i: int|
                0 <= i < self@.len() && (#[trigger] self@[i]).name@ == res.name@,
            r matches Ok(res) ==> 0 < res.score <= SCORE_SCALE,
            r matches Ok(res) ==> forall|cand: PointCloud|
                #[trigger] spec_is_cloud_of(cand, points@) ==> ({
                    let best = spec_registry_pruned(cand, self@, self@.len() as int);
                    &&& res.score == spec_score(best)
                    &&& exists|idx: int|
                        0 <= idx < self@.len() && res.name@ == (#[trigger] self@[idx]).name@
                            && spec_registry_pruned(cand, self@, idx + 1) == best && (forall|
                            m: int,
                        |
                            0 <= m <= idx ==> spec_registry_pruned(cand, self@, m) > best)
                }),
            r matches Ok(res) ==> forall|cand: PointCloud|
                #[trigger] spec_is_cloud_of(cand, points@) && spec_all_lb_valid(cand, self@)
                    ==> ({
                    let best = spec_registry_min(cand, self@, self@.len() as int);
                    &&& res.score == spec_score(best)
                    &&& exists|idx: int|
                        0 <= idx < self@.len() && res.name@ == (#[trigger] self@[idx]).name@
                            && spec_registry_min(cand, self@, idx + 1) == best && (forall|m: int|
                            0 <= m <= idx ==> spec_registry_min(cand, self@, m) > best)
                }),
    {
        let start_time = instant_now();
        if self.point_clouds.len() == 0 {
            return Err(QDollarError::NoRegisteredGestures);
        }
        let mut raw: Vec<Point> = Vec::new();
        let mut k: usize = 0;
        while k < points.len()
            invariant
                0 <= k <= points@.len(),
                raw@ == points@.take(k as int),
            decreases points@.len() - k,
        {
            raw.push(points[k]);
            proof {
                assert(points@.take(k + 1 as int) =~= points@.take(k as int).push(
                    points@[k as int],
                ));
            }
            k = k + 1;
        }
        proof {
            assert(points@.take(points@.len() as int) =~= points@);
        }
        let candidate = PointCloud::new(String::new(), raw);
        proof {
            assert(forall|i: int|
                0 <= i < self.point_clouds@.len() ==> cloud_wf(
                    #[trigger] self.point_clouds@[i],
                )) by {
                assert(self.point_clouds@ == self@);
            }
        }
        let (best_template, best_distance) = best_match(&candidate, &self.point_clouds);
        let score: u64 = score_for_distance(best_distance);
        let result = QDollarResult {
            name: self.point_clouds[best_template].name.clone(),
            score,
            time: elapsed_millis(&start_time),
        };
        proof {
            let ts = self@;
            assert forall|cand: PointCloud| #[trigger] spec_is_cloud_of(cand, points@) implies ({
                let best = spec_registry_pruned(cand, ts, ts.len() as int);
                &&& result.score == spec_score(best)
                &&& exists|idx: int|
                    0 <= idx < ts.len() && result.name@ == (#[trigger] ts[idx]).name@
                        && spec_registry_pruned(cand, ts, idx + 1) == best && (forall|m: int|
                        0 <= m <= idx ==> spec_registry_pruned(cand, ts, m) > best)
            }) by {
                assert(ts == self.point_clouds@);
                assert(spec_is_cloud_of(candidate, points@));
                assert(cand.points@ == candidate.points@);
                assert(forall|x: int, y: int|
                    0 <= x < LUT_SIZE && 0 <= y < LUT_SIZE ==> #[trigger] cand.lut@[x]@[y]
                        == candidate.lut@[x]@[y]);
                lemma_lut_lookup_agree(cand, candidate);
                assert forall|ii: int| 0 <= ii <= ts.len() implies spec_registry_pruned(
                    cand,
                    ts,
                    ii,
                ) == #[trigger] spec_registry_pruned(candidate, ts, ii) by {
                    lemma_registry_pruned_same_views(cand, candidate, ts, ii);
                }
                let best = spec_registry_pruned(cand, ts, ts.len() as int);
                assert(best_distance == best);
                assert(result.name@ == ts[best_template as int].name@);
                assert(spec_registry_pruned(cand, ts, best_template + 1) == best);
                assert forall|m: int| 0 <= m <= best_template implies spec_registry_pruned(
                    cand,
                    ts,
                    m,
                ) > best by {
                    assert(spec_registry_pruned(candidate, self.point_clouds@, m) > best_distance);
                    assert(spec_registry_pruned(candidate, ts, m) == spec_registry_pruned(
                        cand,
                        ts,
                        m,
                    ));
                }
                assert(0 <= best_template < ts.len() && result.name@ == ts[
                    best_template as int
                ].name@ && spec_registry_pruned(cand, ts, best_template + 1) == best && (forall|
                    m: int,
                |
                    0 <= m <= best_template ==> spec_registry_pruned(cand, ts, m) > best));
                assert(result.score == spec_score(best));
            }
            assert forall|cand: PointCloud|
                #[trigger] spec_is_cloud_of(cand, points@) && spec_all_lb_valid(cand, ts)
                    implies ({
                let best = spec_registry_min(cand, ts, ts.len() as int);
                &&& result.score == spec_score(best)
                &&& exists|idx: int|
                    0 <= idx < ts.len() && result.name@ == (#[trigger] ts[idx]).name@
                        && spec_registry_min(cand, ts, idx + 1) == best && (forall|m: int|
                        0 <= m <= idx ==> spec_registry_min(cand, ts, m) > best)
            }) by {
                assert(ts == self.point_clouds@);
                assert(spec_is_cloud_of(candidate, points@));
                assert(cand.points@ == candidate.points@);
                assert(forall|x: int, y: int|
                    0 <= x < LUT_SIZE && 0 <= y < LUT_SIZE ==> #[trigger] cand.lut@[x]@[y]
                        == candidate.lut@[x]@[y]);
                lemma_lb_valid_transfer(cand, candidate, ts);
                assert(spec_all_lb_valid(candidate, self.point_clouds@));
                assert forall|ii: int| 0 <= ii <= ts.len() implies spec_registry_min(
                    cand,
                    ts,
                    ii,
                ) == #[trigger] spec_registry_min(candidate, ts, ii) by {
                    lemma_registry_min_same_points(cand, candidate, ts, ii);
                }
                let best = spec_registry_min(cand, ts, ts.len() as int);
                assert(best_distance == best);
                assert(result.name@ == ts[best_template as int].name@);
                assert(spec_registry_min(cand, ts, best_template + 1) == best);
                assert forall|m: int| 0 <= m <= best_template implies spec_registry_min(
                    cand,
                    ts,
                    m,
                ) > best by {
                    assert(spec_registry_min(candidate, self.point_clouds@, m) > best_distance);
                    assert(spec_registry_min(candidate, ts, m) == spec_registry_min(cand, ts, m));
                }
                assert(0 <= best_template < ts.len() && result.name@ == ts[
                    best_template as int
                ].name@ && spec_registry_min(cand, ts, best_template + 1) == best && (forall|m: int|
                    0 <= m <= best_template ==> spec_registry_min(cand, ts, m) > best));
                assert(result.score == spec_score(best));
            }
        }
        Ok(result)
    }
}

} // verus!
