//! The peak pyramid: an ordered stack of mipmap levels over one sample
//! buffer, finest first, and the window query that picks a level.

use vstd::prelude::*;

use crate::waveform_mipmap::frames_bucketed;
use crate::waveform_mipmap::is_samples_summary;
use crate::waveform_mipmap::is_shrunk;
use crate::waveform_mipmap::lemma_shrink_envelope;
use crate::waveform_mipmap::lemma_shrunk_frames_bucketed;
use crate::waveform_mipmap::lemma_summary_envelope;
use crate::waveform_mipmap::lemma_summary_frames_bucketed;
use crate::waveform_mipmap::range_slice;
use crate::waveform_mipmap::FrameRange;
use crate::waveform_mipmap::PeakPoint;
use crate::waveform_mipmap::WaveformMipmap;

verus! {

/// Point count below which no coarser level is built: stops the pyramid
/// before a level shrinks to near-nothing.
pub const MIN_TIER_POINTS: usize = 256;

/// A waveform summary: levels from finest to coarsest, built once from a
/// sample buffer and immutable afterwards.
pub struct WaveformData {
    /// Samples per second of the summarized buffer.
    pub sample_rate: usize,
    /// Length of the summarized buffer, in samples.
    pub num_samples: usize,
    /// Mipmap levels, strictly coarsening.
    pub mipmaps: Vec<WaveformMipmap>,
}

impl WaveformData {
    /// At least one level; every level well-formed, matched and
    /// non-empty; density strictly decreasing.
    pub open spec fn wf(self) -> bool {
        &&& self.mipmaps@.len() >= 1
        &&& forall|i: int| 0 <= i < self.mipmaps@.len() ==> (#[trigger] self.mipmaps@[i]).wf()
        &&& forall|i: int|
            0 <= i < self.mipmaps@.len() ==> (#[trigger] self.mipmaps@[i]).len_matched()
        &&& forall|i: int|
            0 <= i < self.mipmaps@.len() ==> (#[trigger] self.mipmaps@[i]).positive_peaks@.len()
                >= 1
        &&& forall|i: int|
            1 <= i < self.mipmaps@.len() ==> (#[trigger] self.mipmaps@[i]).samples_per_point
                > self.mipmaps@[i - 1].samples_per_point
    }

    /// Whether level `i` is still denser than the request asks for:
    /// `desired_points` points spread over the window cover fewer frames
    /// each than one point of the level summarizes.
    pub open spec fn tier_qualifies(self, i: int, desired_points: int, range: FrameRange) -> bool {
        desired_points * self.mipmaps@[i].samples_per_point < range.end - range.start
    }

    /// First level index at or after `i` that no longer qualifies; the
    /// level count when they all do.
    pub open spec fn first_unqualified(self, i: int, desired_points: int, range: FrameRange) -> int
        decreases self.mipmaps@.len() - i,
    {
        if i >= self.mipmaps@.len() || !self.tier_qualifies(i, desired_points, range) {
            i
        } else {
            self.first_unqualified(i + 1, desired_points, range)
        }
    }

    /// The level a query uses: the coarsest level of the leading run that
    /// still qualifies, or the finest level when none qualifies.
    pub open spec fn spec_selected_tier(self, desired_points: int, range: FrameRange) -> int {
        let q = self.first_unqualified(0, desired_points, range);
        if q == 0 {
            0
        } else {
            q - 1
        }
    }

    /// Whether level `i` qualifies for the request.
    fn tier_qualifies_at(&self, i: usize, desired_points: usize, range: FrameRange) -> (r: bool)
        requires
            self.wf(),
            i < self.mipmaps@.len(),
        ensures
            r == self.tier_qualifies(i as int, desired_points as int, range),
    {
        if range.end <= range.start {
            false
        } else {
            let spp = self.mipmaps[i].samples_per_point;
            let span = range.end - range.start;
            proof {
                assert((desired_points as int) * (spp as int) < 0x1_0000_0000_0000_0000_0000_0000_0000_0000)
                    by (nonlinear_arith)
                    requires
                        0 <= desired_points <= 0xFFFF_FFFF_FFFF_FFFFu64,
                        0 <= spp <= 0xFFFF_FFFF_FFFF_FFFFu64,
                ;
            }
            (desired_points as u128) * (spp as u128) < (span as u128)
        }
    }

    /// Index of the level a query for `desired_points` points over
    /// `range` uses.
    pub fn selected_tier_index(&self, desired_points: usize, range: FrameRange) -> (r: usize)
        requires
            self.wf(),
        ensures
            r == self.spec_selected_tier(desired_points as int, range),
            r < self.mipmaps@.len(),
    {
        let len = self.mipmaps.len();
        let mut i: usize = 0;
        while i < len && self.tier_qualifies_at(i, desired_points, range)
            invariant
                self.wf(),
                self.mipmaps@.len() == len,
                0 <= i <= len,
                self.first_unqualified(0, desired_points as int, range) == self.first_unqualified(
                    i as int,
                    desired_points as int,
                    range,
                ),
            decreases len - i,
        {
            i = i + 1;
        }
        if i == 0 {
            0
        } else {
            i - 1
        }
    }

    /// The positive and negative envelope sub-ranges for a window, taken
    /// from the selected level: at most that level's points, covering the
    /// window plus at most one point on each side. A window without
    /// measure, or one that misses the level entirely, yields two empty
    /// slices and is not an error.
    pub fn get_points<'a>(&'a self, desired_points: usize, range: FrameRange) -> (r: (
        &'a [PeakPoint],
        &'a [PeakPoint],
    ))
        requires
            self.wf(),
        ensures
            ({
                let sel = self.spec_selected_tier(desired_points as int, range);
                r.0@ == range_slice(self.mipmaps@[sel].positive_peaks@, range) && r.1@
                    == range_slice(self.mipmaps@[sel].negative_peaks@, range)
            }),
    {
        let idx = self.selected_tier_index(desired_points, range);
        let mip = &self.mipmaps[idx];
        mip.point_range(range)
    }

    /// Builds the pyramid: the finest level from the raw samples with
    /// `first_mipmap_scale`, then coarser levels by `mipmap_scale` until
    /// a level would fall under `MIN_TIER_POINTS` points or shrinking
    /// would no longer at least halve it.
    #[verifier::rlimit(30)]
    pub fn calculate(
        samples: &[i64],
        sample_rate: usize,
        first_mipmap_scale: usize,
        mipmap_scale: usize,
    ) -> (r: Self)
        requires
            1 <= first_mipmap_scale < samples@.len(),
            2 <= mipmap_scale,
        ensures
            r.wf(),
            r.sample_rate == sample_rate,
            r.num_samples == samples@.len(),
            is_pyramid_over(r, samples@, first_mipmap_scale as int, mipmap_scale as int),
            is_samples_summary(r.mipmaps@[0], samples@, first_mipmap_scale as int),
            forall|i: int|
                0 <= i < r.mipmaps@.len() - 1 ==> is_shrunk(
                    #[trigger] r.mipmaps@[i + 1],
                    r.mipmaps@[i],
                    mipmap_scale as int,
                ),
            forall|i: int|
                0 <= i < r.mipmaps@.len() - 1 ==> ((#[trigger] r.mipmaps@[i]).positive_peaks@.len()
                    as int / (mipmap_scale as int) >= MIN_TIER_POINTS
                    && r.mipmaps@[i].positive_peaks@.len() as int / 2 > mipmap_scale),
            (r.mipmaps@.last().positive_peaks@.len() as int / (mipmap_scale as int)
                < MIN_TIER_POINTS) || (r.mipmaps@.last().positive_peaks@.len() as int / 2
                <= mipmap_scale),
    {
        let n = samples.len();
        let k = first_mipmap_scale;
        let s = mipmap_scale;
        let mut mipmaps: Vec<WaveformMipmap> = Vec::new();
        let first = WaveformMipmap::from_samples(samples, k);
        proof {
            let len0 = first.positive_peaks@.len() as int;
            assert(len0 >= 1 && k * len0 <= 2 * n) by (nonlinear_arith)
                requires
                    1 <= k < n,
                    len0 == (n + k - 1) / (k as int),
            ;
        }
        mipmaps.push(first);
        loop
            invariant
                2 <= s,
                mipmaps@.len() >= 1,
                is_samples_summary(mipmaps@[0], samples@, k as int),
                forall|i: int|
                    0 <= i < mipmaps@.len() - 1 ==> is_shrunk(
                        #[trigger] mipmaps@[i + 1],
                        mipmaps@[i],
                        s as int,
                    ),
                forall|i: int|
                    0 <= i < mipmaps@.len() - 1 ==> ((#[trigger] mipmaps@[i]).positive_peaks@.len()
                        as int / (s as int) >= MIN_TIER_POINTS
                        && mipmaps@[i].positive_peaks@.len() as int / 2 > s),
                forall|i: int| 0 <= i < mipmaps@.len() ==> (#[trigger] mipmaps@[i]).wf(),
                forall|i: int| 0 <= i < mipmaps@.len() ==> (#[trigger] mipmaps@[i]).len_matched(),
                forall|i: int|
                    0 <= i < mipmaps@.len() ==> (#[trigger] mipmaps@[i]).positive_peaks@.len() >= 1,
                forall|i: int|
                    1 <= i < mipmaps@.len() ==> (#[trigger] mipmaps@[i]).samples_per_point
                        > mipmaps@[i - 1].samples_per_point,
                samples@.len() <= usize::MAX,
                mipmaps@.last().samples_per_point * mipmaps@.last().positive_peaks@.len() <= 2 * (
                samples@.len() as int),
            ensures
                (mipmaps@.last().positive_peaks@.len() as int / (s as int) < MIN_TIER_POINTS) || (
                mipmaps@.last().positive_peaks@.len() as int / 2 <= s),
            decreases mipmaps@.last().positive_peaks@.len(),
        {
            let last_index = mipmaps.len() - 1;
            let tier_len = mipmaps[last_index].len();
            if tier_len / s < MIN_TIER_POINTS || tier_len / 2 <= s {
                break ;
            }
            proof {
                let spp = mipmaps@.last().samples_per_point as int;
                let ln = tier_len as int;
                let nn = samples@.len() as int;
                assert(ln / (s as int) >= MIN_TIER_POINTS);
                assert(256 * (s as int) <= ln && spp * (s as int) * 256 <= spp * ln)
                    by (nonlinear_arith)
                    requires
                        2 <= s,
                        1 <= spp,
                        ln / (s as int) >= 256,
                        ln >= 0,
                ;
                assert(spp * (s as int) <= u64::MAX) by (nonlinear_arith)
                    requires
                        spp * (s as int) * 256 <= spp * ln,
                        spp * ln <= 2 * nn,
                        nn <= usize::MAX,
                        usize::MAX <= u64::MAX,
                        spp * (s as int) >= 0,
                ;
            }
            let next = mipmaps[last_index].shrink(s);
            proof {
                let spp = mipmaps@.last().samples_per_point as int;
                let ln = tier_len as int;
                let nn = samples@.len() as int;
                assert(next.samples_per_point * next.positive_peaks@.len() <= spp * ln)
                    by (nonlinear_arith)
                    requires
                        2 <= s,
                        1 <= spp,
                        ln >= 0,
                        next.samples_per_point == spp * (s as int),
                        next.positive_peaks@.len() == ln / (s as int),
                ;
                assert(next.positive_peaks@.len() >= MIN_TIER_POINTS);
                assert(spp * (s as int) > spp) by (nonlinear_arith)
                    requires
                        2 <= s,
                        1 <= spp,
                ;
                assert(next.samples_per_point > mipmaps@.last().samples_per_point);
                assert(ln / (s as int) < ln) by (nonlinear_arith)
                    requires
                        2 <= s,
                        ln >= 1,
                ;
                assert(next.positive_peaks@.len() < ln);
            }
            mipmaps.push(next);
        }
        WaveformData { sample_rate, num_samples: n, mipmaps }
    }
}

/// The levels of `r` form a pyramid over `data`: the finest from the
/// samples, each further one shrunk from its predecessor.
pub open spec fn is_pyramid_over(r: WaveformData, data: Seq<i64>, first_scale: int, scale: int) -> bool {
    &&& r.mipmaps@.len() >= 1
    &&& is_samples_summary(r.mipmaps@[0], data, first_scale)
    &&& forall|t: int|
        0 <= t < r.mipmaps@.len() - 1 ==> is_shrunk(
            #[trigger] r.mipmaps@[t + 1],
            r.mipmaps@[t],
            scale,
        )
}

/// Level `i` of a pyramid is an envelope of the raw samples.
proof fn lemma_pyramid_tier_envelope(
    r: WaveformData,
    data: Seq<i64>,
    first_scale: int,
    scale: int,
    i: int,
)
    requires
        is_pyramid_over(r, data, first_scale, scale),
        1 <= first_scale < data.len(),
        2 <= scale,
        0 <= i < r.mipmaps@.len(),
    ensures
        r.mipmaps@[i].samples_per_point >= 1,
        r.mipmaps@[i].negative_peaks@.len() == r.mipmaps@[i].positive_peaks@.len(),
        forall|j: int|
            0 <= j < data.len() && j < r.mipmaps@[i].positive_peaks@.len()
                * r.mipmaps@[i].samples_per_point ==> #[trigger] data[j] <= r.mipmaps@[i].positive_peaks@[j / (
            r.mipmaps@[i].samples_per_point as int)].value && data[j]
                >= r.mipmaps@[i].negative_peaks@[j / (r.mipmaps@[i].samples_per_point as int)].value,
    decreases i,
{
    if i == 0 {
        lemma_summary_envelope(r.mipmaps@[0], data, first_scale);
    } else {
        lemma_pyramid_tier_envelope(r, data, first_scale, scale, i - 1);
        let parent = r.mipmaps@[i - 1];
        let child = r.mipmaps@[i];
        assert(is_shrunk(r.mipmaps@[(i - 1) + 1], r.mipmaps@[i - 1], scale));
        assert(is_shrunk(child, parent, scale));
        lemma_shrink_envelope(child, parent, scale);
        let sp = parent.samples_per_point as int;
        let sc = child.samples_per_point as int;
        let pl = parent.positive_peaks@.len() as int;
        let cl = child.positive_peaks@.len() as int;
        assert(sc >= 1) by (nonlinear_arith)
            requires
                sc == sp * scale,
                sp >= 1,
                scale >= 1,
        ;
        assert forall|j: int| 0 <= j < data.len() && j < cl * sc implies #[trigger] data[j]
            <= child.positive_peaks@[j / sc].value && data[j] >= child.negative_peaks@[j
            / sc].value by {
            let jp = j / sp;
            assert(cl * sc == (cl * scale) * sp) by (nonlinear_arith)
                requires
                    sc == sp * scale,
            ;
            assert(0 <= jp && jp * sp <= j && j < (jp + 1) * sp) by (nonlinear_arith)
                requires
                    sp >= 1,
                    0 <= j,
                    jp == j / sp,
            ;
            assert(jp < cl * scale) by (nonlinear_arith)
                requires
                    sp >= 1,
                    j < (cl * scale) * sp,
                    jp * sp <= j,
                    0 <= jp,
            ;
            assert(cl * scale <= pl) by (nonlinear_arith)
                requires
                    scale >= 1,
                    cl == pl / scale,
                    pl >= 0,
            ;
            assert(j < pl * sp) by (nonlinear_arith)
                requires
                    j < (cl * scale) * sp,
                    cl * scale <= pl,
                    sp >= 0,
            ;
            assert(data[j] <= parent.positive_peaks@[jp].value && data[j]
                >= parent.negative_peaks@[jp].value);
            assert(parent.positive_peaks@[jp].value <= child.positive_peaks@[jp / scale].value);
            assert(parent.negative_peaks@[jp].value >= child.negative_peaks@[jp / scale].value);
            vstd::arithmetic::div_mod::lemma_div_denominator(j, sp, scale);
            assert(j / sc == jp / scale) by {
                assert(sc == sp * scale);
            }
        }
    }
}

/// Law: every level of a pyramid is an envelope of the raw samples. A
/// sample still covered by a level lies at or below that level's
/// positive peak for its bucket and at or above its negative peak, no
/// matter how many shrink steps separate them.
pub proof fn lemma_pyramid_envelope(r: WaveformData, data: Seq<i64>, first_scale: int, scale: int)
    requires
        is_pyramid_over(r, data, first_scale, scale),
        1 <= first_scale < data.len(),
        2 <= scale,
    ensures
        forall|i: int, j: int|
            #![trigger r.mipmaps@[i].positive_peaks@[j / (r.mipmaps@[i].samples_per_point as int)]]
            0 <= i < r.mipmaps@.len() && 0 <= j < data.len() && j
                < r.mipmaps@[i].positive_peaks@.len() * r.mipmaps@[i].samples_per_point ==> data[j]
                <= r.mipmaps@[i].positive_peaks@[j / (r.mipmaps@[i].samples_per_point as int)].value
                && data[j] >= r.mipmaps@[i].negative_peaks@[j / (r.mipmaps@[i].samples_per_point
            as int)].value,
{
    assert forall|i: int, j: int|
        0 <= i < r.mipmaps@.len() && 0 <= j < data.len() && j < r.mipmaps@[i].positive_peaks@.len()
            * r.mipmaps@[i].samples_per_point implies data[j] <= #[trigger] r.mipmaps@[i].positive_peaks@[j / (
    r.mipmaps@[i].samples_per_point as int)].value && data[j] >= r.mipmaps@[i].negative_peaks@[j / (
    r.mipmaps@[i].samples_per_point as int)].value by {
        lemma_pyramid_tier_envelope(r, data, first_scale, scale, i);
        assert(data[j] <= r.mipmaps@[i].positive_peaks@[j / (r.mipmaps@[i].samples_per_point
            as int)].value);
    }
}

/// Level `i` of a pyramid keeps each peak inside its bucket's frames.
proof fn lemma_pyramid_tier_bucketed(
    r: WaveformData,
    data: Seq<i64>,
    first_scale: int,
    scale: int,
    i: int,
)
    requires
        is_pyramid_over(r, data, first_scale, scale),
        1 <= first_scale < data.len(),
        data.len() <= u64::MAX,
        2 <= scale,
        0 <= i < r.mipmaps@.len(),
    ensures
        r.mipmaps@[i].samples_per_point >= 1,
        frames_bucketed(
            r.mipmaps@[i].positive_peaks@,
            r.mipmaps@[i].samples_per_point as int,
        ),
        frames_bucketed(
            r.mipmaps@[i].negative_peaks@,
            r.mipmaps@[i].samples_per_point as int,
        ),
    decreases i,
{
    if i == 0 {
        lemma_summary_frames_bucketed(r.mipmaps@[0], data, first_scale);
    } else {
        lemma_pyramid_tier_bucketed(r, data, first_scale, scale, i - 1);
        let parent = r.mipmaps@[i - 1];
        let child = r.mipmaps@[i];
        assert(is_shrunk(r.mipmaps@[(i - 1) + 1], r.mipmaps@[i - 1], scale));
        let sp = parent.samples_per_point as int;
        lemma_shrunk_frames_bucketed(child, parent, scale, sp);
        assert(child.samples_per_point >= 1) by (nonlinear_arith)
            requires
                child.samples_per_point == sp * scale,
                sp >= 1,
                scale >= 1,
        ;
    }
}

/// Law: in every level of a pyramid, peak `b` keeps the frame of one of
/// the samples of its own bucket: its frame lies in
/// `[b * samples_per_point, (b + 1) * samples_per_point)`. Together with
/// the window law of the query this bounds how far the two boundary
/// points of a query can stand outside the window: less than two bucket
/// spans.
pub proof fn lemma_pyramid_frames_bucketed(
    r: WaveformData,
    data: Seq<i64>,
    first_scale: int,
    scale: int,
)
    requires
        is_pyramid_over(r, data, first_scale, scale),
        1 <= first_scale < data.len(),
        data.len() <= u64::MAX,
        2 <= scale,
    ensures
        forall|i: int|
            0 <= i < r.mipmaps@.len() ==> frames_bucketed(
                (#[trigger] r.mipmaps@[i]).positive_peaks@,
                r.mipmaps@[i].samples_per_point as int,
            ) && frames_bucketed(
                r.mipmaps@[i].negative_peaks@,
                r.mipmaps@[i].samples_per_point as int,
            ),
{
    assert forall|i: int| 0 <= i < r.mipmaps@.len() implies frames_bucketed(
        (#[trigger] r.mipmaps@[i]).positive_peaks@,
        r.mipmaps@[i].samples_per_point as int,
    ) && frames_bucketed(
        r.mipmaps@[i].negative_peaks@,
        r.mipmaps@[i].samples_per_point as int,
    ) by {
        lemma_pyramid_tier_bucketed(r, data, first_scale, scale, i);
    }
}

} // verus!
