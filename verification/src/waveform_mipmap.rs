//! One mipmap level: a fixed-density min/max peak summary of a sample run.
//!
//! Amplitudes are caller-chosen fixed-point integers; peak times are sample
//! frame indices. The density of a level is recorded as the number of raw
//! samples each point summarizes.

use vstd::prelude::*;

use crate::time_cursor::max_int;
use crate::time_cursor::min_int;

verus! {

/// Largest fixed-point amplitude magnitude the simplifier accepts; keeps
/// its triangle areas inside `i128`. A caller mapping `[-1.0, 1.0]` onto
/// `[-2^24, 2^24]` has ample headroom.
pub const AMPLITUDE_LIMIT: i64 = 0x1_0000_0000;

/// One peak: the amplitude at a sample frame.
#[derive(Clone, Copy, Debug, PartialEq, Eq, Structural)]
pub struct PeakPoint {
    /// Sample frame index; divide by the sample rate for seconds.
    pub frame: u64,
    /// Fixed-point amplitude.
    pub value: i64,
}

/// Index of the first occurrence of the maximum in a non-empty sequence.
pub open spec fn peak_max_index(s: Seq<i64>) -> int
    recommends
        s.len() >= 1,
    decreases s.len(),
{
    if s.len() <= 1 {
        0
    } else {
        let i = peak_max_index(s.drop_last());
        if s.last() > s[i] {
            s.len() - 1
        } else {
            i
        }
    }
}

/// Index of the first occurrence of the minimum in a non-empty sequence.
pub open spec fn peak_min_index(s: Seq<i64>) -> int
    recommends
        s.len() >= 1,
    decreases s.len(),
{
    if s.len() <= 1 {
        0
    } else {
        let i = peak_min_index(s.drop_last());
        if s.last() < s[i] {
            s.len() - 1
        } else {
            i
        }
    }
}

/// The element at `peak_max_index` is a maximum, and the first one.
pub proof fn lemma_peak_max_index(s: Seq<i64>)
    requires
        s.len() >= 1,
    ensures
        0 <= peak_max_index(s) < s.len(),
        forall|j: int| 0 <= j < s.len() ==> #[trigger] s[j] <= s[peak_max_index(s)],
        forall|j: int| 0 <= j < peak_max_index(s) ==> #[trigger] s[j] < s[peak_max_index(s)],
    decreases s.len(),
{
    if s.len() > 1 {
        lemma_peak_max_index(s.drop_last());
        assert(forall|j: int| 0 <= j < s.len() - 1 ==> s.drop_last()[j] == s[j]);
    }
}

/// The element at `peak_min_index` is a minimum, and the first one.
pub proof fn lemma_peak_min_index(s: Seq<i64>)
    requires
        s.len() >= 1,
    ensures
        0 <= peak_min_index(s) < s.len(),
        forall|j: int| 0 <= j < s.len() ==> #[trigger] s[j] >= s[peak_min_index(s)],
        forall|j: int| 0 <= j < peak_min_index(s) ==> #[trigger] s[j] > s[peak_min_index(s)],
    decreases s.len(),
{
    if s.len() > 1 {
        lemma_peak_min_index(s.drop_last());
        assert(forall|j: int| 0 <= j < s.len() - 1 ==> s.drop_last()[j] == s[j]);
    }
}

/// Index of the first point of greatest value in a non-empty point run.
pub open spec fn peak_point_max_index(s: Seq<PeakPoint>) -> int
    recommends
        s.len() >= 1,
    decreases s.len(),
{
    if s.len() <= 1 {
        0
    } else {
        let i = peak_point_max_index(s.drop_last());
        if s.last().value > s[i].value {
            s.len() - 1
        } else {
            i
        }
    }
}

/// Index of the first point of least value in a non-empty point run.
pub open spec fn peak_point_min_index(s: Seq<PeakPoint>) -> int
    recommends
        s.len() >= 1,
    decreases s.len(),
{
    if s.len() <= 1 {
        0
    } else {
        let i = peak_point_min_index(s.drop_last());
        if s.last().value < s[i].value {
            s.len() - 1
        } else {
            i
        }
    }
}

/// The point at `peak_point_max_index` has the greatest value, first.
pub proof fn lemma_peak_point_max_index(s: Seq<PeakPoint>)
    requires
        s.len() >= 1,
    ensures
        0 <= peak_point_max_index(s) < s.len(),
        forall|j: int| 0 <= j < s.len() ==> (#[trigger] s[j]).value <= s[peak_point_max_index(s)].value,
        forall|j: int|
            0 <= j < peak_point_max_index(s) ==> (#[trigger] s[j]).value < s[peak_point_max_index(s)].value,
    decreases s.len(),
{
    if s.len() > 1 {
        lemma_peak_point_max_index(s.drop_last());
        assert(forall|j: int| 0 <= j < s.len() - 1 ==> s.drop_last()[j] == s[j]);
    }
}

/// The point at `peak_point_min_index` has the least value, first.
pub proof fn lemma_peak_point_min_index(s: Seq<PeakPoint>)
    requires
        s.len() >= 1,
    ensures
        0 <= peak_point_min_index(s) < s.len(),
        forall|j: int| 0 <= j < s.len() ==> (#[trigger] s[j]).value >= s[peak_point_min_index(s)].value,
        forall|j: int|
            0 <= j < peak_point_min_index(s) ==> (#[trigger] s[j]).value > s[peak_point_min_index(s)].value,
    decreases s.len(),
{
    if s.len() > 1 {
        lemma_peak_point_min_index(s.drop_last());
        assert(forall|j: int| 0 <= j < s.len() - 1 ==> s.drop_last()[j] == s[j]);
    }
}

/// Frames strictly increase along the sequence.
pub open spec fn frames_increasing(s: Seq<PeakPoint>) -> bool {
    forall|i: int, j: int| 0 <= i < j < s.len() ==> s[i].frame < s[j].frame
}

/// Every value stays within the simplifier's amplitude bound.
pub open spec fn values_bounded(s: Seq<PeakPoint>) -> bool {
    forall|i: int|
        0 <= i < s.len() ==> -AMPLITUDE_LIMIT <= #[trigger] s[i].value <= AMPLITUDE_LIMIT
}

/// Bucket `b` of `data` when grouped into runs of `k` samples (the last
/// bucket may be shorter).
pub open spec fn bucket_of(data: Seq<i64>, k: int, b: int) -> Seq<i64>
    recommends
        k >= 1,
        b >= 0,
{
    data.subrange(b * k, min_int(b * k + k, data.len() as int))
}

/// Run `b` of `points` when grouped into runs of exactly `k` points.
pub open spec fn run_of(points: Seq<PeakPoint>, k: int, b: int) -> Seq<PeakPoint>
    recommends
        k >= 1,
        b >= 0,
        (b + 1) * k <= points.len(),
{
    points.subrange(b * k, b * k + k)
}

/// A query window in sample frames, half-open `[start, end)`.
#[derive(Clone, Copy, Debug, PartialEq, Eq, Structural)]
pub struct FrameRange {
    pub start: u64,
    pub end: u64,
}

/// Index of the first point whose frame is at least `t`; the sequence
/// length when there is none.
pub open spec fn first_idx_geq(s: Seq<PeakPoint>, t: u64) -> int
    decreases s.len(),
{
    if s.len() == 0 {
        0
    } else if s[0].frame >= t {
        0
    } else {
        1 + first_idx_geq(s.drop_first(), t)
    }
}

/// Index of the first point whose frame exceeds `t`; the sequence length
/// when there is none.
pub open spec fn first_idx_gt(s: Seq<PeakPoint>, t: u64) -> int
    decreases s.len(),
{
    if s.len() == 0 {
        0
    } else if s[0].frame > t {
        0
    } else {
        1 + first_idx_gt(s.drop_first(), t)
    }
}

/// Everything before `first_idx_geq` is below `t`, and the point there,
/// if any, is not.
pub proof fn lemma_first_idx_geq(s: Seq<PeakPoint>, t: u64)
    ensures
        0 <= first_idx_geq(s, t) <= s.len(),
        forall|j: int| 0 <= j < first_idx_geq(s, t) ==> (#[trigger] s[j]).frame < t,
        first_idx_geq(s, t) < s.len() ==> s[first_idx_geq(s, t)].frame >= t,
    decreases s.len(),
{
    if s.len() > 0 && s[0].frame < t {
        lemma_first_idx_geq(s.drop_first(), t);
        assert forall|j: int| 0 <= j < first_idx_geq(s, t) implies (#[trigger] s[j]).frame
            < t by {
            if j >= 1 {
                assert(s.drop_first()[j - 1] == s[j]);
            }
        }
    }
}

/// Everything before `first_idx_gt` is at most `t`, and the point there,
/// if any, is above it.
pub proof fn lemma_first_idx_gt(s: Seq<PeakPoint>, t: u64)
    ensures
        0 <= first_idx_gt(s, t) <= s.len(),
        forall|j: int| 0 <= j < first_idx_gt(s, t) ==> (#[trigger] s[j]).frame <= t,
        first_idx_gt(s, t) < s.len() ==> s[first_idx_gt(s, t)].frame > t,
    decreases s.len(),
{
    if s.len() > 0 && s[0].frame <= t {
        lemma_first_idx_gt(s.drop_first(), t);
        assert forall|j: int| 0 <= j < first_idx_gt(s, t) implies (#[trigger] s[j]).frame
            <= t by {
            if j >= 1 {
                assert(s.drop_first()[j - 1] == s[j]);
            }
        }
    }
}

/// First index of the sub-range that a query over an overlapping window
/// returns: one point before the first point inside the window, when
/// there is one.
pub open spec fn span_start(s: Seq<PeakPoint>, range: FrameRange) -> int {
    max_int(first_idx_geq(s, range.start) - 1, 0)
}

/// Last index (inclusive) of the sub-range that a query over an
/// overlapping window returns: the first point past the window's end,
/// when there is one after the span's start, else the last point.
pub open spec fn span_end(s: Seq<PeakPoint>, range: FrameRange) -> int {
    let g = max_int(first_idx_gt(s, range.end), span_start(s, range));
    if g < s.len() {
        g
    } else {
        s.len() - 1
    }
}

/// Whether a query window takes any points from the level: the window
/// must have measure and must start no later than the level's last peak.
/// A level's buckets begin at frame zero, so there is no test against
/// the first peak; a window starting after the last peak may still touch
/// the tail of the last bucket, and conservatively counts as a miss.
pub open spec fn window_overlaps(s: Seq<PeakPoint>, range: FrameRange) -> bool {
    &&& s.len() > 0
    &&& range.start < range.end
    &&& range.start <= s.last().frame
}

/// The sub-sequence a window query returns: empty when the window misses
/// the level, else the points of the window plus at most one point on
/// each side, so a drawn outline reaches the window's edges.
pub open spec fn range_slice(s: Seq<PeakPoint>, range: FrameRange) -> Seq<PeakPoint> {
    if !window_overlaps(s, range) {
        Seq::empty()
    } else {
        s.subrange(span_start(s, range), span_end(s, range) + 1)
    }
}

/// `m` summarizes `data` in buckets of `k` samples: one positive and one
/// negative peak per bucket, each carrying the frame of the first sample
/// that attains the bucket's extreme.
pub open spec fn is_samples_summary(m: WaveformMipmap, data: Seq<i64>, k: int) -> bool {
    &&& m.samples_per_point == k
    &&& m.positive_peaks@.len() == (data.len() + k - 1) / k
    &&& m.negative_peaks@.len() == m.positive_peaks@.len()
    &&& forall|b: int|
        0 <= b < m.positive_peaks@.len() ==> #[trigger] m.positive_peaks@[b] == (PeakPoint {
            frame: (b * k + peak_max_index(bucket_of(data, k, b))) as u64,
            value: bucket_of(data, k, b)[peak_max_index(bucket_of(data, k, b))],
        })
    &&& forall|b: int|
        0 <= b < m.negative_peaks@.len() ==> #[trigger] m.negative_peaks@[b] == (PeakPoint {
            frame: (b * k + peak_min_index(bucket_of(data, k, b))) as u64,
            value: bucket_of(data, k, b)[peak_min_index(bucket_of(data, k, b))],
        })
}

/// `child` reduces `parent` by grouping its points into runs of `k`: each
/// run contributes its first point of greatest (positive side) or least
/// (negative side) value. A trailing run shorter than `k` is dropped.
pub open spec fn is_shrunk(child: WaveformMipmap, parent: WaveformMipmap, k: int) -> bool {
    &&& child.samples_per_point == parent.samples_per_point * k
    &&& child.positive_peaks@.len() == parent.positive_peaks@.len() as int / k
    &&& child.negative_peaks@.len() == parent.negative_peaks@.len() as int / k
    &&& forall|b: int|
        0 <= b < child.positive_peaks@.len() ==> #[trigger] child.positive_peaks@[b] == run_of(
            parent.positive_peaks@,
            k,
            b,
        )[peak_point_max_index(run_of(parent.positive_peaks@, k, b))]
    &&& forall|b: int|
        0 <= b < child.negative_peaks@.len() ==> #[trigger] child.negative_peaks@[b] == run_of(
            parent.negative_peaks@,
            k,
            b,
        )[peak_point_min_index(run_of(parent.negative_peaks@, k, b))]
}

/// A min/max peak summary of a sample run at one density.
#[derive(Clone, Debug)]
pub struct WaveformMipmap {
    /// How many raw samples one point of this level summarizes; the
    /// density in points per second is the sample rate divided by this.
    pub samples_per_point: u64,
    /// Per-bucket maxima, ordered by frame.
    pub positive_peaks: Vec<PeakPoint>,
    /// Per-bucket minima, ordered by frame.
    pub negative_peaks: Vec<PeakPoint>,
}

impl WaveformMipmap {
    /// Both peak sequences are strictly ordered by frame and the density
    /// is meaningful.
    pub open spec fn wf(self) -> bool {
        &&& self.samples_per_point >= 1
        &&& frames_increasing(self.positive_peaks@)
        &&& frames_increasing(self.negative_peaks@)
    }

    /// The two envelopes pair up point for point.
    pub open spec fn len_matched(self) -> bool {
        self.positive_peaks@.len() == self.negative_peaks@.len()
    }

    /// An empty level with room reserved for `len` points.
    pub fn with_capacity(len: usize, samples_per_point: u64) -> (result: Self)
        ensures
            result.samples_per_point == samples_per_point,
            result.positive_peaks@.len() == 0,
            result.negative_peaks@.len() == 0,
    {
        WaveformMipmap {
            samples_per_point,
            negative_peaks: Vec::with_capacity(len),
            positive_peaks: Vec::with_capacity(len),
        }
    }

    /// Number of points in this level.
    pub fn len(&self) -> (r: usize)
        requires
            self.len_matched(),
        ensures
            r == self.positive_peaks@.len(),
    {
        self.positive_peaks.len()
    }

    /// True iff the level has no points.
    pub fn is_empty(&self) -> (r: bool)
        requires
            self.len_matched(),
        ensures
            r == (self.positive_peaks@.len() == 0),
    {
        self.positive_peaks.is_empty()
    }

    /// First index of the greatest sample of a non-empty slice, with that
    /// sample.
    pub(crate) fn positive_peak_in_samples(data: &[i64]) -> (r: (usize, i64))
        requires
            data@.len() >= 1,
        ensures
            r.0 == peak_max_index(data@),
            r.1 == data@[r.0 as int],
    {
        let n = data.len();
        let mut best_idx: usize = 0;
        let mut best: i64 = *vstd::slice::slice_index_get(data, 0);
        let mut i: usize = 1;
        while i < n
            invariant
                data@.len() == n,
                1 <= i <= n,
                best_idx == peak_max_index(data@.subrange(0, i as int)),
                best_idx < i,
                best == data@[best_idx as int],
            decreases n - i,
        {
            let x = *vstd::slice::slice_index_get(data, i);
            proof {
                assert(data@.subrange(0, i + 1).drop_last() =~= data@.subrange(0, i as int));
                assert(data@.subrange(0, i + 1).last() == data@[i as int]);
            }
            if x > best {
                best_idx = i;
                best = x;
            }
            i = i + 1;
        }
        proof {
            assert(data@.subrange(0, n as int) =~= data@);
        }
        (best_idx, best)
    }

    /// First index of the least sample of a non-empty slice, with that
    /// sample.
    pub(crate) fn negative_peak_in_samples(data: &[i64]) -> (r: (usize, i64))
        requires
            data@.len() >= 1,
        ensures
            r.0 == peak_min_index(data@),
            r.1 == data@[r.0 as int],
    {
        let n = data.len();
        let mut best_idx: usize = 0;
        let mut best: i64 = *vstd::slice::slice_index_get(data, 0);
        let mut i: usize = 1;
        while i < n
            invariant
                data@.len() == n,
                1 <= i <= n,
                best_idx == peak_min_index(data@.subrange(0, i as int)),
                best_idx < i,
                best == data@[best_idx as int],
            decreases n - i,
        {
            let x = *vstd::slice::slice_index_get(data, i);
            proof {
                assert(data@.subrange(0, i + 1).drop_last() =~= data@.subrange(0, i as int));
                assert(data@.subrange(0, i + 1).last() == data@[i as int]);
            }
            if x < best {
                best_idx = i;
                best = x;
            }
            i = i + 1;
        }
        proof {
            assert(data@.subrange(0, n as int) =~= data@);
        }
        (best_idx, best)
    }

    /// The first point of greatest value in a non-empty point run.
    pub(crate) fn positive_peak_in_points(data: &[PeakPoint]) -> (r: PeakPoint)
        requires
            data@.len() >= 1,
        ensures
            r == data@[peak_point_max_index(data@)],
    {
        let n = data.len();
        let mut best: PeakPoint = *vstd::slice::slice_index_get(data, 0);
        let mut i: usize = 1;
        while i < n
            invariant
                data@.len() == n,
                1 <= i <= n,
                best == data@[peak_point_max_index(data@.subrange(0, i as int))],
            decreases n - i,
        {
            let x = *vstd::slice::slice_index_get(data, i);
            proof {
                assert(data@.subrange(0, i + 1).drop_last() =~= data@.subrange(0, i as int));
                assert(data@.subrange(0, i + 1).last() == data@[i as int]);
                lemma_peak_point_max_index(data@.subrange(0, i as int));
            }
            if x.value > best.value {
                best = x;
            }
            i = i + 1;
        }
        proof {
            assert(data@.subrange(0, n as int) =~= data@);
        }
        best
    }

    /// The first point of least value in a non-empty point run.
    pub(crate) fn negative_peak_in_points(data: &[PeakPoint]) -> (r: PeakPoint)
        requires
            data@.len() >= 1,
        ensures
            r == data@[peak_point_min_index(data@)],
    {
        let n = data.len();
        let mut best: PeakPoint = *vstd::slice::slice_index_get(data, 0);
        let mut i: usize = 1;
        while i < n
            invariant
                data@.len() == n,
                1 <= i <= n,
                best == data@[peak_point_min_index(data@.subrange(0, i as int))],
            decreases n - i,
        {
            let x = *vstd::slice::slice_index_get(data, i);
            proof {
                assert(data@.subrange(0, i + 1).drop_last() =~= data@.subrange(0, i as int));
                assert(data@.subrange(0, i + 1).last() == data@[i as int]);
                lemma_peak_point_min_index(data@.subrange(0, i as int));
            }
            if x.value < best.value {
                best = x;
            }
            i = i + 1;
        }
        proof {
            assert(data@.subrange(0, n as int) =~= data@);
        }
        best
    }

    /// Reduces both envelopes in place, bounding the visual area error.
    /// `max_cost` is scaled by the level's density, so one knob suits
    /// every level. The negative threshold on the positive envelope and
    /// the positive one on the negative envelope let simplification only
    /// flatten peaks toward the interior, never overstate them. The two
    /// envelopes may afterwards differ in point count.
    pub fn simplify(&mut self, max_cost: i64)
        requires
            old(self).wf(),
            old(self).positive_peaks@.len() > 3,
            old(self).negative_peaks@.len() > 3,
            values_bounded(old(self).positive_peaks@),
            values_bounded(old(self).negative_peaks@),
            0 <= max_cost <= AMPLITUDE_LIMIT,
        ensures
            final(self).wf(),
            final(self).samples_per_point == old(self).samples_per_point,
            final(self).positive_peaks@ == simplified(
                old(self).positive_peaks@,
                -2 * max_cost * old(self).samples_per_point,
            ),
            final(self).negative_peaks@ == simplified(
                old(self).negative_peaks@,
                2 * max_cost * old(self).samples_per_point,
            ),
    {
        proof {
            assert((max_cost as int) * (self.samples_per_point as int) <= AREA_ERROR_LIMIT)
                by (nonlinear_arith)
                requires
                    0 <= max_cost <= AMPLITUDE_LIMIT,
                    0 <= self.samples_per_point <= u64::MAX,
            ;
        }
        let scaled: i128 = (max_cost as i128) * (self.samples_per_point as i128);
        proof {
            let spp = old(self).samples_per_point as int;
            let mc = max_cost as int;
            let sc = scaled as int;
            assert(2 * (-sc) == -2 * mc * spp && 2 * sc == 2 * mc * spp) by (nonlinear_arith)
                requires
                    sc == mc * spp,
            ;
        }
        simplify_path(&mut self.positive_peaks, -scaled);
        simplify_path(&mut self.negative_peaks, scaled);
    }

    /// The two envelope sub-ranges lying under a frame window: positive
    /// peaks first, negative peaks second. Both are empty when the
    /// window has no measure or misses the level entirely.
    pub(crate) fn point_range<'a>(&'a self, range: FrameRange) -> (r: (
        &'a [PeakPoint],
        &'a [PeakPoint],
    ))
        requires
            self.wf(),
        ensures
            r.0@ == range_slice(self.positive_peaks@, range),
            r.1@ == range_slice(self.negative_peaks@, range),
    {
        (
            point_range_helper(self.positive_peaks.as_slice(), range),
            point_range_helper(self.negative_peaks.as_slice(), range),
        )
    }

    /// Builds a level directly from raw samples: one positive and one
    /// negative peak per bucket of `shrink_factor` samples (the last
    /// bucket may be shorter), `ceil(len / shrink_factor)` buckets in all.
    pub fn from_samples(data: &[i64], shrink_factor: usize) -> (result: Self)
        requires
            1 <= shrink_factor < data@.len(),
        ensures
            result.wf(),
            result.len_matched(),
            is_samples_summary(result, data@, shrink_factor as int),
    {
        let n = data.len();
        let k = shrink_factor;
        let mut result = Self::with_capacity(n / k, k as u64);
        let mut i: usize = 0;
        while i < n
            invariant
                data@.len() == n,
                1 <= k < n,
                i <= n,
                result.positive_peaks@.len() * k == i || (i == n && n <= result.positive_peaks@.len()
                    * k < n + k),
                result.samples_per_point == k,
                result.negative_peaks@.len() == result.positive_peaks@.len(),
                forall|b: int|
                    0 <= b < result.positive_peaks@.len()
                        ==> #[trigger] result.positive_peaks@[b] == (PeakPoint {
                        frame: (b * k + peak_max_index(bucket_of(data@, k as int, b))) as u64,
                        value: bucket_of(data@, k as int, b)[peak_max_index(
                            bucket_of(data@, k as int, b),
                        )],
                    }),
                forall|b: int|
                    0 <= b < result.negative_peaks@.len()
                        ==> #[trigger] result.negative_peaks@[b] == (PeakPoint {
                        frame: (b * k + peak_min_index(bucket_of(data@, k as int, b))) as u64,
                        value: bucket_of(data@, k as int, b)[peak_min_index(
                            bucket_of(data@, k as int, b),
                        )],
                    }),
                forall|j: int|
                    0 <= j < result.positive_peaks@.len()
                        ==> #[trigger] result.positive_peaks@[j].frame < i,
                forall|j: int|
                    0 <= j < result.negative_peaks@.len()
                        ==> #[trigger] result.negative_peaks@[j].frame < i,
                frames_increasing(result.positive_peaks@),
                frames_increasing(result.negative_peaks@),
            decreases n - i,
        {
            let ghost b = result.positive_peaks@.len() as int;
            proof {
                assert(b * k == i);
            }
            let end = if n - i > k {
                i + k
            } else {
                n
            };
            let sub = vstd::slice::slice_subrange(data, i, end);
            proof {
                assert(sub@ =~= bucket_of(data@, k as int, b));
                lemma_peak_max_index(sub@);
                lemma_peak_min_index(sub@);
            }
            let (pi, pv) = Self::positive_peak_in_samples(sub);
            let (ni, nv) = Self::negative_peak_in_samples(sub);
            result.positive_peaks.push(PeakPoint { frame: (i + pi) as u64, value: pv });
            result.negative_peaks.push(PeakPoint { frame: (i + ni) as u64, value: nv });
            proof {
                assert((b + 1) * k == b * k + k) by (nonlinear_arith);
            }
            i = end;
        }
        proof {
            let len = result.positive_peaks@.len() as int;
            assert(n <= len * k < n + k);
            assert(len == (n + k - 1) / (k as int)) by (nonlinear_arith)
                requires
                    k >= 1,
                    n <= len * k,
                    len * k < n + k,
            ;
        }
        result
    }

    /// Builds a coarser level from this one: groups the points into runs
    /// of `factor` and keeps each run's extreme point, dropping a trailing
    /// run shorter than `factor`.
    pub fn shrink(&self, factor: usize) -> (result: Self)
        requires
            self.wf(),
            self.len_matched(),
            factor >= 1,
            self.samples_per_point * factor <= u64::MAX,
        ensures
            result.wf(),
            result.len_matched(),
            is_shrunk(result, *self, factor as int),
    {
        let n = self.positive_peaks.len();
        let f = factor;
        let mut result = Self::with_capacity(n / f, self.samples_per_point * (f as u64));
        let mut i: usize = 0;
        while n - i >= f
            invariant
                self.wf(),
                self.len_matched(),
                self.positive_peaks@.len() == n,
                1 <= f,
                i <= n,
                result.samples_per_point == self.samples_per_point * f,
                result.positive_peaks@.len() * f == i,
                result.negative_peaks@.len() == result.positive_peaks@.len(),
                forall|b: int|
                    0 <= b < result.positive_peaks@.len()
                        ==> #[trigger] result.positive_peaks@[b] == run_of(
                        self.positive_peaks@,
                        f as int,
                        b,
                    )[peak_point_max_index(run_of(self.positive_peaks@, f as int, b))],
                forall|b: int|
                    0 <= b < result.negative_peaks@.len()
                        ==> #[trigger] result.negative_peaks@[b] == run_of(
                        self.negative_peaks@,
                        f as int,
                        b,
                    )[peak_point_min_index(run_of(self.negative_peaks@, f as int, b))],
                result.positive_peaks@.len() == 0 || (1 <= i && forall|j: int|
                    0 <= j < result.positive_peaks@.len()
                        ==> (#[trigger] result.positive_peaks@[j]).frame
                        <= self.positive_peaks@[i as int - 1].frame),
                result.negative_peaks@.len() == 0 || (1 <= i && forall|j: int|
                    0 <= j < result.negative_peaks@.len()
                        ==> (#[trigger] result.negative_peaks@[j]).frame
                        <= self.negative_peaks@[i as int - 1].frame),
                frames_increasing(result.positive_peaks@),
                frames_increasing(result.negative_peaks@),
            decreases n - i,
        {
            let ghost b = result.positive_peaks@.len() as int;
            let pos_run = vstd::slice::slice_subrange(self.positive_peaks.as_slice(), i, i + f);
            let neg_run = vstd::slice::slice_subrange(self.negative_peaks.as_slice(), i, i + f);
            proof {
                assert(pos_run@ =~= run_of(self.positive_peaks@, f as int, b));
                assert(neg_run@ =~= run_of(self.negative_peaks@, f as int, b));
                lemma_peak_point_max_index(pos_run@);
                lemma_peak_point_min_index(neg_run@);
            }
            let p = Self::positive_peak_in_points(pos_run);
            let q = Self::negative_peak_in_points(neg_run);
            let ghost old_pos = result.positive_peaks@;
            let ghost old_neg = result.negative_peaks@;
            result.positive_peaks.push(p);
            result.negative_peaks.push(q);
            proof {
                assert((b + 1) * f == b * f + f) by (nonlinear_arith);
                let mi = peak_point_max_index(run_of(self.positive_peaks@, f as int, b));
                let ni = peak_point_min_index(run_of(self.negative_peaks@, f as int, b));
                assert(p == self.positive_peaks@[i + mi]);
                assert(q == self.negative_peaks@[i + ni]);
                assert forall|j: int| 0 <= j < result.positive_peaks@.len() implies (
                #[trigger] result.positive_peaks@[j]).frame <= self.positive_peaks@[
                    i + f - 1
                ].frame by {
                    if j < b {
                        assert(result.positive_peaks@[j] == old_pos[j]);
                        assert(old_pos[j].frame <= self.positive_peaks@[i as int - 1].frame);
                        assert(self.positive_peaks@[i as int - 1].frame <= self.positive_peaks@[
                            i + f - 1
                        ].frame);
                    } else {
                        assert(result.positive_peaks@[j] == self.positive_peaks@[i + mi]);
                        assert(self.positive_peaks@[i + mi].frame <= self.positive_peaks@[
                            i + f - 1
                        ].frame);
                    }
                }
                assert forall|j: int| 0 <= j < result.negative_peaks@.len() implies (
                #[trigger] result.negative_peaks@[j]).frame <= self.negative_peaks@[
                    i + f - 1
                ].frame by {
                    if j < b {
                        assert(result.negative_peaks@[j] == old_neg[j]);
                        assert(old_neg[j].frame <= self.negative_peaks@[i as int - 1].frame);
                        assert(self.negative_peaks@[i as int - 1].frame <= self.negative_peaks@[
                            i + f - 1
                        ].frame);
                    } else {
                        assert(result.negative_peaks@[j] == self.negative_peaks@[i + ni]);
                        assert(self.negative_peaks@[i + ni].frame <= self.negative_peaks@[
                            i + f - 1
                        ].frame);
                    }
                }
                assert(frames_increasing(result.positive_peaks@)) by {
                    assert forall|j1: int, j2: int|
                        0 <= j1 < j2 < result.positive_peaks@.len() implies result.positive_peaks@[
                        j1
                    ].frame < result.positive_peaks@[j2].frame by {
                        if j2 < b {
                            assert(result.positive_peaks@[j1] == old_pos[j1]);
                            assert(result.positive_peaks@[j2] == old_pos[j2]);
                        } else {
                            assert(result.positive_peaks@[j1] == old_pos[j1]);
                            assert(old_pos[j1].frame <= self.positive_peaks@[i as int - 1].frame);
                            assert(self.positive_peaks@[i as int - 1].frame < self.positive_peaks@[
                                i + mi
                            ].frame);
                        }
                    }
                }
                assert(frames_increasing(result.negative_peaks@)) by {
                    assert forall|j1: int, j2: int|
                        0 <= j1 < j2 < result.negative_peaks@.len() implies result.negative_peaks@[
                        j1
                    ].frame < result.negative_peaks@[j2].frame by {
                        if j2 < b {
                            assert(result.negative_peaks@[j1] == old_neg[j1]);
                            assert(result.negative_peaks@[j2] == old_neg[j2]);
                        } else {
                            assert(result.negative_peaks@[j1] == old_neg[j1]);
                            assert(old_neg[j1].frame <= self.negative_peaks@[i as int - 1].frame);
                            assert(self.negative_peaks@[i as int - 1].frame < self.negative_peaks@[
                                i + ni
                            ].frame);
                        }
                    }
                }
            }
            i = i + f;
        }
        proof {
            assert(result.samples_per_point >= 1) by (nonlinear_arith)
                requires
                    result.samples_per_point == self.samples_per_point * f,
                    self.samples_per_point >= 1,
                    f >= 1,
            ;
            assert(result.positive_peaks@.len() == n as int / f as int) by (nonlinear_arith)
                requires
                    f >= 1,
                    result.positive_peaks@.len() * f == i,
                    i <= n,
                    n - i < f,
            ;
        }
        result
    }
}

/// Largest magnitude the simplifier accepts for its area threshold.
pub const AREA_ERROR_LIMIT: i128 = 0x1_0000_0000_0000_0000_0000_0000;

/// Twice the signed area of the triangle `(p, left, right)`, in frame
/// times amplitude units.
pub open spec fn spec_triangle_area_2(p: PeakPoint, left: PeakPoint, right: PeakPoint) -> int {
    (left.frame - p.frame) * (right.value - p.value) - (left.value - p.value) * (right.frame
        - p.frame)
}

/// Whether a simplification pass keeps the interior point `p`, judged by
/// the triangle it spans with the last kept point and its next neighbour.
/// A negative threshold admits only areas above it, a positive one only
/// areas below it; the sign picks the side that may not be overstated. A
/// zero threshold keeps every point: no area magnitude lies below zero.
pub open spec fn keeps_point(last_kept: PeakPoint, p: PeakPoint, next: PeakPoint, t2: int) -> bool {
    if t2 < 0 {
        t2 < spec_triangle_area_2(p, last_kept, next)
    } else if t2 > 0 {
        t2 > spec_triangle_area_2(p, last_kept, next)
    } else {
        true
    }
}

/// The tail of one simplification pass from index `i` on, given the last
/// point already kept; the final point is always kept.
pub open spec fn pass_tail(s: Seq<PeakPoint>, last_kept: PeakPoint, i: int, t2: int) -> Seq<
    PeakPoint,
>
    recommends
        s.len() >= 2,
        1 <= i <= s.len() - 1,
    decreases s.len() - i,
{
    if i >= s.len() - 1 {
        seq![s[s.len() - 1]]
    } else if keeps_point(last_kept, s[i], s[i + 1], t2) {
        seq![s[i]] + pass_tail(s, s[i], i + 1, t2)
    } else {
        pass_tail(s, last_kept, i + 1, t2)
    }
}

/// One full simplification pass: the first point, the kept interior
/// points, the last point.
pub open spec fn simplify_pass(s: Seq<PeakPoint>, t2: int) -> Seq<PeakPoint>
    recommends
        s.len() >= 2,
{
    seq![s[0]] + pass_tail(s, s[0], 1, t2)
}

/// Simplification passes repeated until one removes nothing.
pub open spec fn simplified(s: Seq<PeakPoint>, t2: int) -> Seq<PeakPoint>
    recommends
        s.len() >= 2,
    decreases s.len(),
{
    if s.len() < 2 {
        s
    } else {
        let p = simplify_pass(s, t2);
        if p.len() >= s.len() {
            p
        } else {
            simplified(p, t2)
        }
    }
}

/// Every point of `r` occurs in `s`.
pub open spec fn subset_points(r: Seq<PeakPoint>, s: Seq<PeakPoint>) -> bool {
    forall|j: int| 0 <= j < r.len() ==> s.contains(#[trigger] r[j])
}

/// Point containment carries over a chain of two subsets.
pub proof fn lemma_subset_points_trans(c: Seq<PeakPoint>, b: Seq<PeakPoint>, a: Seq<PeakPoint>)
    requires
        subset_points(c, b),
        subset_points(b, a),
    ensures
        subset_points(c, a),
{
    assert forall|j: int| 0 <= j < c.len() implies a.contains(#[trigger] c[j]) by {
        assert(b.contains(c[j]));
        let m = choose|m: int| 0 <= m < b.len() && b[m] == c[j];
        assert(a.contains(b[m]));
    }
}

/// A subset of a value-bounded sequence is value-bounded.
pub proof fn lemma_subset_values_bounded(r: Seq<PeakPoint>, s: Seq<PeakPoint>)
    requires
        subset_points(r, s),
        values_bounded(s),
    ensures
        values_bounded(r),
{
    assert forall|j: int|
        0 <= j < r.len() implies -AMPLITUDE_LIMIT <= #[trigger] r[j].value
        <= AMPLITUDE_LIMIT by {
        assert(s.contains(r[j]));
        let m = choose|m: int| 0 <= m < s.len() && s[m] == r[j];
        assert(-AMPLITUDE_LIMIT <= s[m].value <= AMPLITUDE_LIMIT);
    }
}

/// Shape of a pass tail: non-empty, no longer than what is left, ends on
/// the input's last point, draws only points from the input at or after
/// `i`, and keeps frames strictly increasing.
pub proof fn lemma_pass_tail_props(s: Seq<PeakPoint>, last_kept: PeakPoint, i: int, t2: int)
    requires
        frames_increasing(s),
        s.len() >= 2,
        1 <= i <= s.len() - 1,
    ensures
        1 <= pass_tail(s, last_kept, i, t2).len() <= s.len() - i,
        pass_tail(s, last_kept, i, t2).last() == s.last(),
        subset_points(pass_tail(s, last_kept, i, t2), s),
        forall|j: int|
            0 <= j < pass_tail(s, last_kept, i, t2).len() ==> (#[trigger] pass_tail(
                s,
                last_kept,
                i,
                t2,
            )[j]).frame >= s[i].frame,
        frames_increasing(pass_tail(s, last_kept, i, t2)),
    decreases s.len() - i,
{
    let r = pass_tail(s, last_kept, i, t2);
    if i >= s.len() - 1 {
        assert(s.contains(s[s.len() - 1]));
    } else if keeps_point(last_kept, s[i], s[i + 1], t2) {
        lemma_pass_tail_props(s, s[i], i + 1, t2);
        let tail = pass_tail(s, s[i], i + 1, t2);
        assert(s.contains(s[i]));
        assert forall|j: int| 0 <= j < r.len() implies (#[trigger] r[j]).frame >= s[i].frame by {
            if j >= 1 {
                assert(r[j] == tail[j - 1]);
                assert(tail[j - 1].frame >= s[i + 1].frame);
            }
        }
        assert forall|j1: int, j2: int| 0 <= j1 < j2 < r.len() implies r[j1].frame < r[
            j2
        ].frame by {
            if j1 >= 1 {
                assert(r[j1] == tail[j1 - 1] && r[j2] == tail[j2 - 1]);
            } else {
                assert(r[j2] == tail[j2 - 1]);
                assert(tail[j2 - 1].frame >= s[i + 1].frame);
                assert(s[i].frame < s[i + 1].frame);
            }
        }
    } else {
        lemma_pass_tail_props(s, last_kept, i + 1, t2);
        assert forall|j: int| 0 <= j < r.len() implies (#[trigger] r[j]).frame >= s[i].frame by {
            assert(r[j].frame >= s[i + 1].frame);
            assert(s[i].frame < s[i + 1].frame);
        }
    }
}

/// Shape of one pass: it keeps the two endpoints, removes only interior
/// points, and preserves the strict frame order.
pub proof fn lemma_simplify_pass_props(s: Seq<PeakPoint>, t2: int)
    requires
        frames_increasing(s),
        s.len() >= 2,
    ensures
        2 <= simplify_pass(s, t2).len() <= s.len(),
        simplify_pass(s, t2)[0] == s[0],
        simplify_pass(s, t2).last() == s.last(),
        subset_points(simplify_pass(s, t2), s),
        frames_increasing(simplify_pass(s, t2)),
{
    lemma_pass_tail_props(s, s[0], 1, t2);
    let tail = pass_tail(s, s[0], 1, t2);
    let p = simplify_pass(s, t2);
    assert(s.contains(s[0]));
    assert forall|j1: int, j2: int| 0 <= j1 < j2 < p.len() implies p[j1].frame < p[j2].frame by {
        if j1 >= 1 {
            assert(p[j1] == tail[j1 - 1] && p[j2] == tail[j2 - 1]);
        } else {
            assert(p[j2] == tail[j2 - 1]);
            assert(tail[j2 - 1].frame >= s[1].frame);
            assert(s[0].frame < s[1].frame);
        }
    }
}

/// Shape of the full simplification: endpoints survive, at least two
/// points remain, only input points appear, and frames stay strictly
/// increasing.
pub proof fn lemma_simplified_props(s: Seq<PeakPoint>, t2: int)
    requires
        frames_increasing(s),
        s.len() >= 2,
    ensures
        2 <= simplified(s, t2).len() <= s.len(),
        simplified(s, t2)[0] == s[0],
        simplified(s, t2).last() == s.last(),
        subset_points(simplified(s, t2), s),
        frames_increasing(simplified(s, t2)),
    decreases s.len(),
{
    let p = simplify_pass(s, t2);
    lemma_simplify_pass_props(s, t2);
    if p.len() < s.len() {
        lemma_simplified_props(p, t2);
        lemma_subset_points_trans(simplified(p, t2), p, s);
    }
}

/// Law: a level built from samples is a tight envelope. Every sample lies
/// at or below the positive peak of its bucket and at or above the
/// negative peak of its bucket.
pub proof fn lemma_summary_envelope(m: WaveformMipmap, data: Seq<i64>, k: int)
    requires
        is_samples_summary(m, data, k),
        1 <= k < data.len(),
    ensures
        forall|j: int|
            0 <= j < data.len() ==> #[trigger] data[j] <= m.positive_peaks@[j / k].value,
        forall|j: int|
            0 <= j < data.len() ==> #[trigger] data[j] >= m.negative_peaks@[j / k].value,
{
    let n = data.len() as int;
    assert forall|j: int| 0 <= j < n implies data[j] <= m.positive_peaks@[j / k].value && data[j]
        >= m.negative_peaks@[j / k].value by {
        let b = j / k;
        assert(0 <= b && b * k <= j < b * k + k) by (nonlinear_arith)
            requires
                k >= 1,
                0 <= j,
                b == j / k,
        ;
        assert(b < (n + k - 1) / k) by (nonlinear_arith)
            requires
                k >= 1,
                0 <= j < n,
                b == j / k,
        ;
        let bucket = bucket_of(data, k, b);
        assert(bucket[j - b * k] == data[j]);
        lemma_peak_max_index(bucket);
        lemma_peak_min_index(bucket);
    }
}

/// Law: the envelope carries across levels. Every parent point in one of
/// the child's runs lies inside the child's envelope at that run.
pub proof fn lemma_shrink_envelope(child: WaveformMipmap, parent: WaveformMipmap, k: int)
    requires
        is_shrunk(child, parent, k),
        k >= 1,
    ensures
        forall|j: int|
            0 <= j < child.positive_peaks@.len() * k ==> (#[trigger] parent.positive_peaks@[j]).value
                <= child.positive_peaks@[j / k].value,
        forall|j: int|
            0 <= j < child.negative_peaks@.len() * k ==> (#[trigger] parent.negative_peaks@[j]).value
                >= child.negative_peaks@[j / k].value,
{
    let pn = parent.positive_peaks@.len() as int;
    let nn = parent.negative_peaks@.len() as int;
    assert(child.positive_peaks@.len() * k <= pn) by (nonlinear_arith)
        requires
            k >= 1,
            pn >= 0,
            child.positive_peaks@.len() == pn / k,
    ;
    assert(child.negative_peaks@.len() * k <= nn) by (nonlinear_arith)
        requires
            k >= 1,
            nn >= 0,
            child.negative_peaks@.len() == nn / k,
    ;
    assert forall|j: int| 0 <= j < child.positive_peaks@.len() * k implies (
    #[trigger] parent.positive_peaks@[j]).value <= child.positive_peaks@[j / k].value by {
        let b = j / k;
        assert(0 <= b && b * k <= j < b * k + k) by (nonlinear_arith)
            requires
                k >= 1,
                0 <= j,
                b == j / k,
        ;
        assert(b < child.positive_peaks@.len()) by (nonlinear_arith)
            requires
                k >= 1,
                0 <= j < child.positive_peaks@.len() * k,
                b == j / k,
        ;
        assert((b + 1) * k == b * k + k) by (nonlinear_arith);
        assert((b + 1) * k <= child.positive_peaks@.len() * k) by (nonlinear_arith)
            requires
                k >= 1,
                b + 1 <= child.positive_peaks@.len(),
        ;
        let run = run_of(parent.positive_peaks@, k, b);
        assert(run.len() == k);
        assert(run[j - b * k] == parent.positive_peaks@[j]);
        lemma_peak_point_max_index(run);
    }
    assert forall|j: int| 0 <= j < child.negative_peaks@.len() * k implies (
    #[trigger] parent.negative_peaks@[j]).value >= child.negative_peaks@[j / k].value by {
        let b = j / k;
        assert(0 <= b && b * k <= j < b * k + k) by (nonlinear_arith)
            requires
                k >= 1,
                0 <= j,
                b == j / k,
        ;
        assert(b < child.negative_peaks@.len()) by (nonlinear_arith)
            requires
                k >= 1,
                0 <= j < child.negative_peaks@.len() * k,
                b == j / k,
        ;
        assert((b + 1) * k == b * k + k) by (nonlinear_arith);
        assert((b + 1) * k <= child.negative_peaks@.len() * k) by (nonlinear_arith)
            requires
                k >= 1,
                b + 1 <= child.negative_peaks@.len(),
        ;
        let run = run_of(parent.negative_peaks@, k, b);
        assert(run.len() == k);
        assert(run[j - b * k] == parent.negative_peaks@[j]);
        lemma_peak_point_min_index(run);
    }
}

/// Law: a window query returns no more points than the level holds, is
/// empty when the window misses the level, and every returned point
/// except the first and the last lies inside the window; the two
/// boundary points may stand just outside it.
pub proof fn lemma_range_slice_window(s: Seq<PeakPoint>, range: FrameRange)
    requires
        frames_increasing(s),
    ensures
        range_slice(s, range).len() <= s.len(),
        !window_overlaps(s, range) ==> range_slice(s, range).len() == 0,
        forall|j: int|
            1 <= j < range_slice(s, range).len() ==> (#[trigger] range_slice(s, range)[j]).frame
                >= range.start,
        forall|j: int|
            0 <= j < range_slice(s, range).len() - 1 ==> (#[trigger] range_slice(s, range)[j]).frame
                <= range.end,
{
    if window_overlaps(s, range) {
        lemma_first_idx_geq(s, range.start);
        lemma_first_idx_gt(s, range.end);
        let fig = first_idx_geq(s, range.start);
        let gt = first_idx_gt(s, range.end);
        let ss = span_start(s, range);
        let se = span_end(s, range);
        let r = range_slice(s, range);
        assert forall|j: int| 1 <= j < r.len() implies (#[trigger] r[j]).frame >= range.start by {
            assert(r[j] == s[ss + j]);
            assert(ss + j >= fig);
            if ss + j > fig {
                assert(s[fig].frame < s[ss + j].frame);
            }
        }
        assert forall|j: int| 0 <= j < r.len() - 1 implies (#[trigger] r[j]).frame
            <= range.end by {
            assert(r[j] == s[ss + j]);
            assert(ss + j < se);
            if gt < s.len() && se > gt {
                assert(s[gt].frame > range.end);
            }
            assert(ss + j < gt);
        }
    }
}

/// Every point lies inside its own bucket's frame span: point `b` of a
/// level summarizing `spp` samples each falls in `[b * spp, (b+1) * spp)`.
pub open spec fn frames_bucketed(s: Seq<PeakPoint>, spp: int) -> bool {
    forall|b: int| 0 <= b < s.len() ==> b * spp <= (#[trigger] s[b]).frame < (b + 1) * spp
}

/// A level built from samples has every peak inside its bucket's frames.
pub proof fn lemma_summary_frames_bucketed(m: WaveformMipmap, data: Seq<i64>, k: int)
    requires
        is_samples_summary(m, data, k),
        1 <= k < data.len(),
        data.len() <= u64::MAX,
    ensures
        frames_bucketed(m.positive_peaks@, k),
        frames_bucketed(m.negative_peaks@, k),
{
    let n = data.len() as int;
    assert forall|b: int|
        0 <= b < m.positive_peaks@.len() implies b * k <= (#[trigger] m.positive_peaks@[b]).frame
        < (b + 1) * k by {
        assert(b * k < n && b * k + k <= n + k) by (nonlinear_arith)
            requires
                k >= 1,
                0 <= b,
                b < (n + k - 1) / k,
        ;
        assert((b + 1) * k == b * k + k) by (nonlinear_arith);
        let bucket = bucket_of(data, k, b);
        lemma_peak_max_index(bucket);
        assert(bucket.len() >= 1 && bucket.len() <= k);
        assert(b * k + peak_max_index(bucket) < b * k + k);
    }
    assert forall|b: int|
        0 <= b < m.negative_peaks@.len() implies b * k <= (#[trigger] m.negative_peaks@[b]).frame
        < (b + 1) * k by {
        assert(b * k < n && b * k + k <= n + k) by (nonlinear_arith)
            requires
                k >= 1,
                0 <= b,
                b < (n + k - 1) / k,
        ;
        assert((b + 1) * k == b * k + k) by (nonlinear_arith);
        let bucket = bucket_of(data, k, b);
        lemma_peak_min_index(bucket);
        assert(bucket.len() >= 1 && bucket.len() <= k);
        assert(b * k + peak_min_index(bucket) < b * k + k);
    }
}

/// Shrinking keeps every peak inside its (now wider) bucket's frames.
pub proof fn lemma_shrunk_frames_bucketed(
    child: WaveformMipmap,
    parent: WaveformMipmap,
    k: int,
    spp: int,
)
    requires
        is_shrunk(child, parent, k),
        k >= 1,
        spp >= 1,
        parent.samples_per_point == spp,
        frames_bucketed(parent.positive_peaks@, spp),
        frames_bucketed(parent.negative_peaks@, spp),
    ensures
        frames_bucketed(child.positive_peaks@, spp * k),
        frames_bucketed(child.negative_peaks@, spp * k),
{
    let pn = parent.positive_peaks@.len() as int;
    let nn = parent.negative_peaks@.len() as int;
    assert(child.positive_peaks@.len() * k <= pn && child.negative_peaks@.len() * k <= nn)
        by (nonlinear_arith)
        requires
            k >= 1,
            pn >= 0,
            nn >= 0,
            child.positive_peaks@.len() == pn / k,
            child.negative_peaks@.len() == nn / k,
    ;
    assert forall|b: int|
        0 <= b < child.positive_peaks@.len() implies b * (spp * k) <= (
    #[trigger] child.positive_peaks@[b]).frame < (b + 1) * (spp * k) by {
        assert((b + 1) * k == b * k + k && (b + 1) * k <= child.positive_peaks@.len() * k)
            by (nonlinear_arith)
            requires
                k >= 1,
                b + 1 <= child.positive_peaks@.len(),
        ;
        let run = run_of(parent.positive_peaks@, k, b);
        lemma_peak_point_max_index(run);
        let mi = peak_point_max_index(run);
        assert(run[mi] == parent.positive_peaks@[b * k + mi]);
        assert((b * k + mi) * spp >= b * (spp * k) && (b * k + mi + 1) * spp <= (b + 1) * (spp
            * k)) by (nonlinear_arith)
            requires
                k >= 1,
                spp >= 1,
                0 <= mi < k,
                b >= 0,
        ;
    }
    assert forall|b: int|
        0 <= b < child.negative_peaks@.len() implies b * (spp * k) <= (
    #[trigger] child.negative_peaks@[b]).frame < (b + 1) * (spp * k) by {
        assert((b + 1) * k == b * k + k && (b + 1) * k <= child.negative_peaks@.len() * k)
            by (nonlinear_arith)
            requires
                k >= 1,
                b + 1 <= child.negative_peaks@.len(),
        ;
        let run = run_of(parent.negative_peaks@, k, b);
        lemma_peak_point_min_index(run);
        let mi = peak_point_min_index(run);
        assert(run[mi] == parent.negative_peaks@[b * k + mi]);
        assert((b * k + mi) * spp >= b * (spp * k) && (b * k + mi + 1) * spp <= (b + 1) * (spp
            * k)) by (nonlinear_arith)
            requires
                k >= 1,
                spp >= 1,
                0 <= mi < k,
                b >= 0,
        ;
    }
}

/// Law: on a level whose peaks sit inside their buckets, a query over a
/// window that overlaps the level returns only points within the window
/// widened by two bucket spans on each side.
pub proof fn lemma_bucketed_query_margin(s: Seq<PeakPoint>, spp: int, range: FrameRange)
    requires
        frames_increasing(s),
        frames_bucketed(s, spp),
        spp >= 1,
        s.len() >= 1,
        range.start <= range.end,
        range.start <= s.last().frame,
        s[0].frame <= range.end,
    ensures
        forall|j: int|
            0 <= j < range_slice(s, range).len() ==> range.start - 2 * spp < (
            #[trigger] range_slice(s, range)[j]).frame < range.end + 2 * spp,
{
    // A window without measure returns nothing, and the claim is empty.
    if range.start < range.end {
        lemma_first_idx_geq(s, range.start);
        lemma_first_idx_gt(s, range.end);
        let fig = first_idx_geq(s, range.start);
        let gt = first_idx_gt(s, range.end);
        let ss = span_start(s, range);
        let se = span_end(s, range);
        let r = range_slice(s, range);
        let n = s.len() as int;
        // The window starts no later than the last point, so some point
        // is at or after it.
        assert(fig < n) by {
            if fig == n {
                assert(s[n - 1].frame < range.start);
            }
        }
        // Everything before the window's end sits before `gt`, so the
        // span's start does too.
        assert(ss < gt) by {
            if fig >= 1 && gt < n && fig - 1 >= gt {
                assert(s[gt].frame > range.end);
                assert(s[fig - 1].frame < range.start);
                assert(s[gt].frame <= s[fig - 1].frame || gt == fig - 1);
            }
        }
        assert(se == if gt < n {
            gt
        } else {
            n - 1
        });
        // Frame lower bound at the span's start.
        assert(range.start - 2 * spp < s[ss].frame) by {
            if fig >= 1 {
                assert(s[fig].frame >= range.start);
                assert(s[fig].frame < (fig + 1) * spp);
                assert((fig - 1) * spp <= s[fig - 1].frame);
                assert((fig - 1) * spp == (fig + 1) * spp - 2 * spp) by (nonlinear_arith);
            }
        }
        // Frame upper bound at the span's end.
        assert(s[se].frame < range.end + 2 * spp) by {
            if gt < n {
                assert(s[gt].frame < (gt + 1) * spp);
                if gt >= 1 {
                    assert(s[gt - 1].frame <= range.end);
                    assert((gt - 1) * spp <= s[gt - 1].frame);
                    assert((gt + 1) * spp == (gt - 1) * spp + 2 * spp) by (nonlinear_arith);
                } else {
                    assert(s[0].frame <= range.end);
                }
            } else {
                assert(s[n - 1].frame <= range.end);
            }
        }
        assert forall|j: int|
            0 <= j < r.len() implies range.start - 2 * spp < (#[trigger] r[j]).frame < range.end
            + 2 * spp by {
            assert(r[j] == s[ss + j]);
            assert(s[ss].frame <= s[ss + j].frame);
            assert(s[ss + j].frame <= s[se].frame);
        }
    }
}

/// Cross product `a.x * b.y - a.y * b.x` of two displacement vectors.
fn cross(ax: i128, ay: i128, bx: i128, by: i128) -> (r: i128)
    requires
        -0x2_0000_0000_0000_0000 <= ax <= 0x2_0000_0000_0000_0000,
        -0x2_0000_0000_0000_0000 <= bx <= 0x2_0000_0000_0000_0000,
        -0x8_0000_0000 <= ay <= 0x8_0000_0000,
        -0x8_0000_0000 <= by <= 0x8_0000_0000,
    ensures
        r == ax * by - ay * bx,
{
    proof {
        assert(-0x10_0000_0000_0000_0000_0000_0000 <= ax * by
            <= 0x10_0000_0000_0000_0000_0000_0000) by (nonlinear_arith)
            requires
                -0x2_0000_0000_0000_0000 <= ax <= 0x2_0000_0000_0000_0000,
                -0x8_0000_0000 <= by <= 0x8_0000_0000,
        ;
        assert(-0x10_0000_0000_0000_0000_0000_0000 <= ay * bx
            <= 0x10_0000_0000_0000_0000_0000_0000) by (nonlinear_arith)
            requires
                -0x2_0000_0000_0000_0000 <= bx <= 0x2_0000_0000_0000_0000,
                -0x8_0000_0000 <= ay <= 0x8_0000_0000,
        ;
    }
    ax * by - ay * bx
}

/// Twice the signed triangle area of `p` against its two kept
/// neighbours.
fn triangle_area_2(p: PeakPoint, left: PeakPoint, right: PeakPoint) -> (r: i128)
    requires
        -AMPLITUDE_LIMIT <= p.value <= AMPLITUDE_LIMIT,
        -AMPLITUDE_LIMIT <= left.value <= AMPLITUDE_LIMIT,
        -AMPLITUDE_LIMIT <= right.value <= AMPLITUDE_LIMIT,
    ensures
        r == spec_triangle_area_2(p, left, right),
{
    cross(
        left.frame as i128 - p.frame as i128,
        left.value as i128 - p.value as i128,
        right.frame as i128 - p.frame as i128,
        right.value as i128 - p.value as i128,
    )
}

/// One simplification pass over `points`, built into a fresh vector.
fn simplify_one_pass(points: &Vec<PeakPoint>, max_cost_2: i128) -> (r: Vec<PeakPoint>)
    requires
        points@.len() >= 2,
        frames_increasing(points@),
        values_bounded(points@),
    ensures
        r@ == simplify_pass(points@, max_cost_2 as int),
{
    let ghost t2 = max_cost_2 as int;
    let n = points.len();
    let mut kept: Vec<PeakPoint> = Vec::new();
    let first = points[0];
    kept.push(first);
    let mut last_kept = first;
    let mut idx: usize = 1;
    while idx < n - 1
        invariant
            points@.len() == n,
            n >= 2,
            frames_increasing(points@),
            values_bounded(points@),
            1 <= idx <= n - 1,
            t2 == max_cost_2 as int,
            -AMPLITUDE_LIMIT <= last_kept.value <= AMPLITUDE_LIMIT,
            kept@ + pass_tail(points@, last_kept, idx as int, t2) == simplify_pass(points@, t2),
        decreases n - idx,
    {
        let p = points[idx];
        let nxt = points[idx + 1];
        let area = triangle_area_2(p, last_kept, nxt);
        let keep = if max_cost_2 < 0 {
            max_cost_2 < area
        } else if max_cost_2 > 0 {
            max_cost_2 > area
        } else {
            true
        };
        proof {
            assert(keep == keeps_point(last_kept, points@[idx as int], points@[idx as int + 1], t2));
            if keep {
                assert(kept@ + (seq![points@[idx as int]] + pass_tail(
                    points@,
                    points@[idx as int],
                    idx as int + 1,
                    t2,
                )) =~= (kept@ + seq![points@[idx as int]]) + pass_tail(
                    points@,
                    points@[idx as int],
                    idx as int + 1,
                    t2,
                ));
            }
        }
        if keep {
            kept.push(p);
            last_kept = p;
        }
        idx = idx + 1;
    }
    let last = points[n - 1];
    kept.push(last);
    proof {
        assert(pass_tail(points@, last_kept, idx as int, t2) =~= seq![points@[n - 1]]);
        assert(kept@ =~= simplify_pass(points@, t2));
    }
    kept
}

/// Reduces `points` in place by Visvalingam-style passes: an interior
/// point is dropped when the doubled area of the triangle it spans with
/// its kept neighbours falls on the wrong side of twice
/// `max_area_error`, and passes repeat until one removes nothing. The
/// first and last points always survive.
pub(crate) fn simplify_path(points: &mut Vec<PeakPoint>, max_area_error: i128)
    requires
        old(points)@.len() > 3,
        frames_increasing(old(points)@),
        values_bounded(old(points)@),
        -AREA_ERROR_LIMIT <= max_area_error <= AREA_ERROR_LIMIT,
    ensures
        final(points)@ == simplified(old(points)@, 2 * max_area_error),
        final(points)@.len() >= 2,
        final(points)@[0] == old(points)@[0],
        final(points)@.last() == old(points)@.last(),
        subset_points(final(points)@, old(points)@),
        frames_increasing(final(points)@),
        values_bounded(final(points)@),
{
    let max_cost_2: i128 = 2 * max_area_error;
    let ghost t2 = max_cost_2 as int;
    let ghost orig = points@;
    let mut done = false;
    while !done
        invariant
            points@.len() >= 2,
            t2 == max_cost_2 as int,
            frames_increasing(points@),
            values_bounded(points@),
            subset_points(points@, orig),
            points@[0] == orig[0],
            points@.last() == orig.last(),
            !done ==> simplified(points@, t2) == simplified(orig, t2),
            done ==> points@ == simplified(orig, t2),
        decreases points@.len() + (if done {
            0int
        } else {
            1int
        }),
    {
        let ghost cur = points@;
        let next = simplify_one_pass(points, max_cost_2);
        proof {
            lemma_simplify_pass_props(cur, t2);
            lemma_subset_points_trans(next@, cur, orig);
        }
        done = next.len() >= points.len();
        *points = next;
    }
    proof {
        lemma_simplified_props(orig, t2);
        lemma_subset_values_bounded(points@, orig);
    }
}

/// The sub-range of `points` lying under the window: empty when the
/// window misses the level, else a binary search for the window's start
/// and a forward scan for its end. Never panics.
pub(crate) fn point_range_helper<'a>(points: &'a [PeakPoint], range: FrameRange) -> (r:
    &'a [PeakPoint])
    requires
        frames_increasing(points@),
    ensures
        r@ == range_slice(points@, range),
{
    let n = points.len();
    if n == 0 || range.start >= range.end || range.start > vstd::slice::slice_index_get(
        points,
        n - 1,
    ).frame {
        let empty = vstd::slice::slice_subrange(points, 0, 0);
        proof {
            assert(!window_overlaps(points@, range));
            assert(empty@ =~= range_slice(points@, range));
        }
        return empty;
    }
    proof {
        assert(window_overlaps(points@, range));
        lemma_first_idx_geq(points@, range.start);
        lemma_first_idx_gt(points@, range.end);
    }
    let ghost fig = first_idx_geq(points@, range.start);
    let mut lo: usize = 0;
    let mut hi: usize = n;
    while lo < hi
        invariant
            points@.len() == n,
            frames_increasing(points@),
            0 <= lo <= hi <= n,
            forall|j: int| 0 <= j < lo ==> (#[trigger] points@[j]).frame < range.start,
            forall|j: int| hi <= j < n ==> (#[trigger] points@[j]).frame >= range.start,
        decreases hi - lo,
    {
        let mid = lo + (hi - lo) / 2;
        if vstd::slice::slice_index_get(points, mid).frame >= range.start {
            proof {
                assert(forall|j: int|
                    mid <= j < n ==> points@[mid as int].frame <= (#[trigger] points@[j]).frame);
            }
            hi = mid;
        } else {
            proof {
                assert(forall|j: int|
                    0 <= j <= mid ==> (#[trigger] points@[j]).frame <= points@[mid as int].frame);
            }
            lo = mid + 1;
        }
    }
    proof {
        if fig < lo {
            assert(points@[fig].frame >= range.start);
            assert(points@[fig].frame < range.start);
        }
        if lo < fig {
            assert(points@[lo as int].frame < range.start);
            assert(points@[lo as int].frame >= range.start);
        }
        assert(lo == fig);
    }
    let start = if lo > 0 {
        lo - 1
    } else {
        0
    };
    proof {
        assert(start == span_start(points@, range));
    }
    let mut j: usize = start;
    while j < n && vstd::slice::slice_index_get(points, j).frame <= range.end
        invariant
            points@.len() == n,
            frames_increasing(points@),
            start <= j <= n,
            start < n,
            forall|m: int| start <= m < j ==> (#[trigger] points@[m]).frame <= range.end,
        decreases n - j,
    {
        j = j + 1;
    }
    let end_idx = if j < n {
        j
    } else {
        n - 1
    };
    proof {
        let gt = first_idx_gt(points@, range.end);
        let ss = span_start(points@, range);
        if j < n {
            assert(points@[j as int].frame > range.end);
            if j < gt {
                assert(points@[j as int].frame <= range.end);
                assert(false);
            }
            if j > start {
                if gt < start {
                    assert(points@[gt].frame > range.end);
                    assert(points@[start as int].frame <= range.end);
                    assert(points@[gt].frame < points@[start as int].frame);
                    assert(false);
                }
                if start <= gt < j {
                    assert(points@[gt].frame <= range.end);
                    assert(points@[gt].frame > range.end);
                    assert(false);
                }
                assert(gt == j);
            }
            assert(j == max_int(gt, ss));
        } else {
            if gt < n {
                if gt < start {
                    assert(points@[gt].frame > range.end);
                    assert(points@[start as int].frame <= range.end);
                    assert(points@[gt].frame < points@[start as int].frame);
                    assert(false);
                } else {
                    assert(points@[gt].frame <= range.end);
                    assert(points@[gt].frame > range.end);
                    assert(false);
                }
            }
            assert(gt == n);
            assert(max_int(gt, ss) == n);
        }
        assert(end_idx == span_end(points@, range));
    }
    vstd::slice::slice_subrange(points, start, end_idx + 1)
}

} // verus!
