//! Viewport cursor: the currently visible time window.
//!
//! Times are integer ticks in a unit chosen by the caller; a natural choice
//! is one tick per sample period at a reference rate of 48 kHz, which makes
//! the default minimum window width one sample period.

use vstd::prelude::*;

verus! {

/// Largest magnitude a stored window bound may take. Keeps every
/// intermediate product of the zoom arithmetic inside `i128`.
pub const TIME_LIMIT: i64 = 0x100_0000_0000_0000;

/// Largest allowed minimum window width.
pub const MIN_SIZE_LIMIT: i64 = 0x1_0000_0000;

/// Zoomed bounds are saturated to this magnitude before the minimum-width
/// floor is applied, so the floored bounds still fit within `TIME_LIMIT`.
pub const ZOOM_SAT_LIMIT: i64 = TIME_LIMIT - MIN_SIZE_LIMIT;

/// Largest allowed numerator or denominator of a zoom factor.
pub const FACTOR_LIMIT: u64 = 0x1_0000_0000;

/// A half-open time interval `[start, end)` in integer ticks.
#[derive(Clone, Copy, Debug, PartialEq, Eq, Structural)]
pub struct TimeRange {
    pub start: i64,
    pub end: i64,
}

impl TimeRange {
    /// Empty means no width at all: `start >= end`.
    pub open spec fn spec_is_empty(&self) -> bool {
        self.start >= self.end
    }

    #[verifier::when_used_as_spec(spec_is_empty)]
    pub fn is_empty(&self) -> (r: bool)
        ensures
            r == self.spec_is_empty(),
    {
        self.start >= self.end
    }

    /// Width of the interval, as a mathematical integer.
    pub open spec fn width(self) -> int {
        self.end - self.start
    }
}

/// `v` clamped into `[lo, hi]`.
pub open spec fn clamped(v: int, lo: int, hi: int) -> int
    recommends
        lo <= hi,
{
    if v < lo {
        lo
    } else if v > hi {
        hi
    } else {
        v
    }
}

fn clamp_i64(v: i64, lo: i64, hi: i64) -> (r: i64)
    requires
        lo <= hi,
    ensures
        r == clamped(v as int, lo as int, hi as int),
{
    if v < lo {
        lo
    } else if v > hi {
        hi
    } else {
        v
    }
}

/// Tracks the visible time window of a waveform view and keeps it a valid,
/// non-collapsed interval under pan and zoom operations.
#[derive(Clone, Copy, Debug)]
pub struct TimeCursor {
    pub time_range: TimeRange,
    pub min_size: i64,
}

impl TimeCursor {
    /// Well-formedness: the window is an ordered interval within the tick
    /// bounds, and the minimum width is positive and bounded.
    pub open spec fn wf(self) -> bool {
        &&& 1 <= self.min_size <= MIN_SIZE_LIMIT
        &&& self.time_range.start <= self.time_range.end
        &&& -TIME_LIMIT <= self.time_range.start
        &&& self.time_range.end <= TIME_LIMIT
    }

    /// Sets the window, but only the first time: once the window is
    /// non-empty, later calls leave it alone.
    pub fn try_initialize(&mut self, range: TimeRange)
        requires
            old(self).wf(),
            range.start <= range.end,
            -TIME_LIMIT <= range.start,
            range.end <= TIME_LIMIT,
        ensures
            final(self).wf(),
            final(self).min_size == old(self).min_size,
            old(self).time_range.spec_is_empty() ==> final(self).time_range == range,
            !old(self).time_range.spec_is_empty() ==> final(self).time_range == old(self).time_range,
    {
        if self.time_range.is_empty() {
            self.time_range = range;
        }
    }

    /// `range` with both bounds clamped into the window (per-bound clamp,
    /// not an emptiness check).
    pub fn clamp(&self, range: TimeRange) -> (r: TimeRange)
        requires
            self.wf(),
        ensures
            r.start == clamped(
                range.start as int,
                self.time_range.start as int,
                self.time_range.end as int,
            ),
            r.end == clamped(
                range.end as int,
                self.time_range.start as int,
                self.time_range.end as int,
            ),
    {
        let start = clamp_i64(range.start, self.time_range.start, self.time_range.end);
        let end = clamp_i64(range.end, self.time_range.start, self.time_range.end);
        TimeRange { start, end }
    }

    /// Clamps `range` shifted by `offset` against the window, then shifts
    /// the result back: maps an item's local time range into window
    /// coordinates before clamping.
    pub fn clamp_with_offset(&self, range: TimeRange, offset: i64) -> (r: TimeRange)
        requires
            self.wf(),
            -TIME_LIMIT <= offset <= TIME_LIMIT,
            i64::MIN <= range.start + offset <= i64::MAX,
            i64::MIN <= range.end + offset <= i64::MAX,
        ensures
            r.start == clamped(
                range.start + offset,
                self.time_range.start as int,
                self.time_range.end as int,
            ) - offset,
            r.end == clamped(
                range.end + offset,
                self.time_range.start as int,
                self.time_range.end as int,
            ) - offset,
    {
        let shifted = TimeRange { start: range.start + offset, end: range.end + offset };
        let c = self.clamp(shifted);
        TimeRange { start: c.start - offset, end: c.end - offset }
    }

    /// True iff `range` and the window intersect with non-zero measure
    /// (half-open semantics).
    pub fn overlaps(&self, range: TimeRange) -> (r: bool)
        ensures
            r == (range.start < self.time_range.end && range.end > self.time_range.start),
    {
        range.start < self.time_range.end && range.end > self.time_range.start
    }

    /// The window as an inclusive pair `(start, end)`.
    pub fn time_range_inclusive(&self) -> (r: (i64, i64))
        ensures
            r.0 == self.time_range.start,
            r.1 == self.time_range.end,
    {
        (self.time_range.start, self.time_range.end)
    }

    /// Translates both bounds by `by`, without clamping.
    pub fn shift(&mut self, by: i64)
        requires
            old(self).wf(),
            -TIME_LIMIT <= old(self).time_range.start + by,
            old(self).time_range.end + by <= TIME_LIMIT,
        ensures
            final(self).wf(),
            final(self).min_size == old(self).min_size,
            final(self).time_range.start == old(self).time_range.start + by,
            final(self).time_range.end == old(self).time_range.end + by,
    {
        self.time_range.start = self.time_range.start + by;
        self.time_range.end = self.time_range.end + by;
    }
}

/// The smaller of two integers.
pub open spec fn min_int(a: int, b: int) -> int {
    if a <= b {
        a
    } else {
        b
    }
}

/// The larger of two integers.
pub open spec fn max_int(a: int, b: int) -> int {
    if a >= b {
        a
    } else {
        b
    }
}

/// Truncating division (rounds toward zero), matching machine division.
pub open spec fn div_trunc(a: int, b: int) -> int
    recommends
        b >= 1,
{
    if a >= 0 {
        a / b
    } else {
        -((-a) / b)
    }
}

/// `v` saturated into the zoom range.
pub open spec fn saturated(v: int) -> int {
    clamped(v, -(ZOOM_SAT_LIMIT as int), ZOOM_SAT_LIMIT as int)
}

/// `v` scaled around the pivot `to` by the factor `num / den`.
pub open spec fn scaled_around(v: int, to: int, num: int, den: int) -> int
    recommends
        num >= 1,
        den >= 1,
{
    to + div_trunc((v - to) * num, den)
}

/// The cursor after zooming around `to` by `num / den`: both bounds are
/// scaled and saturated, then pushed apart as needed so that the window
/// keeps at least its minimum width around the pivot.
pub open spec fn zoomed(c: TimeCursor, to: int, num: int, den: int) -> TimeCursor {
    let m = c.min_size as int;
    let s = saturated(scaled_around(c.time_range.start as int, to, num, den));
    let e = saturated(scaled_around(c.time_range.end as int, to, num, den));
    TimeCursor {
        time_range: TimeRange {
            start: min_int(s, to - m / 2) as i64,
            end: max_int(e, to + (m - m / 2)) as i64,
        },
        min_size: c.min_size,
    }
}

impl TimeCursor {
    /// One window bound scaled around the pivot and saturated.
    fn scale_bound(v: i64, to: i64, num: u64, den: u64) -> (r: i64)
        requires
            -TIME_LIMIT <= v <= TIME_LIMIT,
            -ZOOM_SAT_LIMIT <= to <= ZOOM_SAT_LIMIT,
            1 <= num <= FACTOR_LIMIT,
            1 <= den <= FACTOR_LIMIT,
        ensures
            r == saturated(scaled_around(v as int, to as int, num as int, den as int)),
            -ZOOM_SAT_LIMIT <= r <= ZOOM_SAT_LIMIT,
    {
        let d: i128 = v as i128 - to as i128;
        let mag: u128 = if d >= 0 {
            d as u128
        } else {
            (-d) as u128
        };
        assert(mag * num <= (2 * TIME_LIMIT as u128) * FACTOR_LIMIT as u128) by (nonlinear_arith)
            requires
                mag <= 2 * TIME_LIMIT as u128,
                num <= FACTOR_LIMIT,
        ;
        let q: u128 = mag * (num as u128) / (den as u128);
        assert(q <= mag * num);
        let scaled: i128 = if d >= 0 {
            q as i128
        } else {
            -(q as i128)
        };
        let shifted: i128 = to as i128 + scaled;
        proof {
            let dd = v as int - to as int;
            let n = num as int;
            let de = den as int;
            if dd >= 0 {
                assert(dd * n >= 0) by (nonlinear_arith)
                    requires
                        dd >= 0,
                        n >= 0,
                ;
                assert(scaled == div_trunc(dd * n, de));
            } else {
                assert((-dd) * n == -(dd * n)) by (nonlinear_arith);
                assert(dd * n <= 0) by (nonlinear_arith)
                    requires
                        dd <= 0,
                        n >= 0,
                ;
                assert(scaled == div_trunc(dd * n, de));
            }
        }
        assert(shifted == scaled_around(v as int, to as int, num as int, den as int));
        if shifted < -(ZOOM_SAT_LIMIT as i128) {
            -ZOOM_SAT_LIMIT
        } else if shifted > ZOOM_SAT_LIMIT as i128 {
            ZOOM_SAT_LIMIT
        } else {
            shifted as i64
        }
    }

    /// Scales the window around the pivot `to` by the factor
    /// `factor_num / factor_den` (a factor above one widens the range, one
    /// below narrows it), then pushes whichever bound came too close to the
    /// pivot back out so that the window never collapses below `min_size`.
    pub fn zoom_to(&mut self, to: i64, factor_num: u64, factor_den: u64)
        requires
            old(self).wf(),
            -ZOOM_SAT_LIMIT <= to <= ZOOM_SAT_LIMIT,
            1 <= factor_num <= FACTOR_LIMIT,
            1 <= factor_den <= FACTOR_LIMIT,
        ensures
            final(self).wf(),
            *final(self) == zoomed(
                *old(self),
                to as int,
                factor_num as int,
                factor_den as int,
            ),
            final(self).time_range.end - final(self).time_range.start >= old(self).min_size,
    {
        let m = self.min_size;
        let half: i64 = ((m as u64) / 2) as i64;
        let s = Self::scale_bound(self.time_range.start, to, factor_num, factor_den);
        let e = Self::scale_bound(self.time_range.end, to, factor_num, factor_den);
        let lo_cap: i64 = to - half;
        let hi_cap: i64 = to + (m - half);
        self.time_range.start = if s <= lo_cap {
            s
        } else {
            lo_cap
        };
        self.time_range.end = if e >= hi_cap {
            e
        } else {
            hi_cap
        };
    }

    /// If the window has drifted outside `bounds`, shifts it back inside,
    /// keeping the window width where possible but never exceeding
    /// `bounds` and never dropping below the minimum width.
    pub fn move_into_range(&mut self, bounds: TimeRange)
        requires
            old(self).wf(),
            -TIME_LIMIT <= bounds.start,
            bounds.end <= TIME_LIMIT,
            bounds.start < bounds.end,
            bounds.end - bounds.start >= old(self).min_size,
        ensures
            final(self).wf(),
            final(self).min_size == old(self).min_size,
            ({
                let w = old(self).time_range.width();
                let m = old(self).min_size as int;
                if old(self).time_range.start < bounds.start {
                    final(self).time_range.start == bounds.start
                        && final(self).time_range.end == clamped(
                        bounds.start + w,
                        bounds.start + m,
                        bounds.end as int,
                    )
                } else if old(self).time_range.end > bounds.end {
                    final(self).time_range.end == bounds.end
                        && final(self).time_range.start == clamped(
                        bounds.end - w,
                        bounds.start as int,
                        bounds.end - m,
                    )
                } else {
                    final(self).time_range == old(self).time_range
                }
            }),
            final(self).time_range.start >= bounds.start || final(self).time_range
                == old(self).time_range,
            final(self).time_range.end <= bounds.end || final(self).time_range == old(
                self,
            ).time_range,
    {
        let w: i64 = self.time_range.end - self.time_range.start;
        let m: i64 = self.min_size;
        if self.time_range.start < bounds.start {
            self.time_range.start = bounds.start;
            self.time_range.end = clamp_i64(bounds.start + w, bounds.start + m, bounds.end);
        } else if self.time_range.end > bounds.end {
            self.time_range.end = bounds.end;
            self.time_range.start = clamp_i64(bounds.end - w, bounds.start, bounds.end - m);
        }
    }
}

/// Law: a zoom never collapses the window. For every pivot in the zoom
/// range and every factor, the zoomed window is at least `min_size` wide.
pub proof fn lemma_zoom_never_collapses(c: TimeCursor, to: int, num: int, den: int)
    requires
        c.wf(),
        -ZOOM_SAT_LIMIT <= to <= ZOOM_SAT_LIMIT,
    ensures
        zoomed(c, to, num, den).time_range.end - zoomed(c, to, num, den).time_range.start
            >= c.min_size,
{
}

/// Law: zooming out by an integer factor and back in by the same factor
/// at the same pivot restores the window exactly. This needs the pivot to
/// sit at least half the minimum width inside the window (so the
/// minimum-width floor stays out of play) and the widened window to stay
/// inside the saturation range.
pub proof fn lemma_zoom_round_trip(c: TimeCursor, to: int, k: int)
    requires
        c.wf(),
        1 <= k <= FACTOR_LIMIT,
        -ZOOM_SAT_LIMIT <= to <= ZOOM_SAT_LIMIT,
        c.time_range.start <= to - c.min_size / 2,
        c.time_range.end >= to + (c.min_size - c.min_size / 2),
        -ZOOM_SAT_LIMIT <= to + (c.time_range.start - to) * k,
        to + (c.time_range.end - to) * k <= ZOOM_SAT_LIMIT,
    ensures
        zoomed(zoomed(c, to, k, 1), to, 1, k) == c,
{
    let s = c.time_range.start as int;
    let e = c.time_range.end as int;
    let m = c.min_size as int;
    let h = m / 2;
    let ds = s - to;
    let de = e - to;
    assert(ds * k <= ds) by (nonlinear_arith)
        requires
            ds <= 0,
            k >= 1,
    ;
    assert(de * k >= de) by (nonlinear_arith)
        requires
            de >= 0,
            k >= 1,
    ;
    assert(div_trunc(ds * k, 1) == ds * k && div_trunc(de * k, 1) == de * k) by {
        vstd::arithmetic::div_mod::lemma_div_multiples_vanish(ds * k, 1);
        vstd::arithmetic::div_mod::lemma_div_multiples_vanish(-(ds * k), 1);
        vstd::arithmetic::div_mod::lemma_div_multiples_vanish(de * k, 1);
        assert(1 * (ds * k) == ds * k && 1 * -(ds * k) == -(ds * k) && 1 * (de * k) == de * k)
            by (nonlinear_arith);
    }
    let c1 = zoomed(c, to, k, 1);
    assert(c1.time_range.start == to + ds * k && c1.time_range.end == to + de * k);
    assert(div_trunc(ds * k, k) == ds && div_trunc(de * k, k) == de) by {
        vstd::arithmetic::div_mod::lemma_div_multiples_vanish(ds, k);
        vstd::arithmetic::div_mod::lemma_div_multiples_vanish(-ds, k);
        vstd::arithmetic::div_mod::lemma_div_multiples_vanish(de, k);
        assert(k * ds == ds * k && k * -ds == -(ds * k) && k * de == de * k)
            by (nonlinear_arith);
    }
    let c2 = zoomed(c1, to, 1, k);
    assert(c2.time_range.start == s && c2.time_range.end == e);
}

/// Law: zooming in by an integer factor and back out by the same factor
/// at the same pivot returns the window to within one factor step of its
/// original bounds: narrowing can lose at most the division remainder,
/// so the out-zoom lands at most `k - 1` ticks inward of each bound.
/// This needs `k` times the minimum-width margin around the pivot, so
/// the minimum-width floor stays out of play even on the narrow window.
pub proof fn lemma_zoom_in_out_drift(c: TimeCursor, to: int, k: int)
    requires
        c.wf(),
        1 <= k <= FACTOR_LIMIT,
        -ZOOM_SAT_LIMIT <= to <= ZOOM_SAT_LIMIT,
        -ZOOM_SAT_LIMIT <= c.time_range.start,
        c.time_range.end <= ZOOM_SAT_LIMIT,
        c.time_range.start <= to - (c.min_size / 2) * k,
        c.time_range.end >= to + (c.min_size - c.min_size / 2) * k,
    ensures
        ({
            let c2 = zoomed(zoomed(c, to, 1, k), to, k, 1);
            &&& c2.min_size == c.min_size
            &&& c.time_range.start <= c2.time_range.start < c.time_range.start + k
            &&& c.time_range.end - k < c2.time_range.end <= c.time_range.end
        }),
{
    let s = c.time_range.start as int;
    let e = c.time_range.end as int;
    let m = c.min_size as int;
    let h = m / 2;
    let ds = s - to;
    let de = e - to;
    assert(h >= 0 && m - h >= 1);
    assert(h * k >= h && (m - h) * k >= m - h) by (nonlinear_arith)
        requires
            k >= 1,
            h >= 0,
            m - h >= 1,
    ;
    let qs = div_trunc(ds, k);
    let qe = div_trunc(de, k);
    assert(ds <= qs * k <= ds + (k - 1) && qs <= -h) by (nonlinear_arith)
        requires
            k >= 1,
            ds <= -(h * k),
            h >= 0,
            qs == -((-ds) / k),
    ;
    assert(de - (k - 1) <= qe * k <= de && qe >= m - h) by (nonlinear_arith)
        requires
            k >= 1,
            de >= (m - h) * k,
            m - h >= 1,
            qe == de / k,
    ;
    let c1 = zoomed(c, to, 1, k);
    assert(c1.time_range.start == to + qs && c1.time_range.end == to + qe) by {
        assert(ds * 1 == ds && de * 1 == de);
        assert(qs * k <= 0 && qe * k >= 0) by (nonlinear_arith)
            requires
                qs <= 0,
                qe >= 0,
                k >= 1,
        ;
    }
    assert(div_trunc(qs * k, 1) == qs * k && div_trunc(qe * k, 1) == qe * k) by {
        vstd::arithmetic::div_mod::lemma_div_multiples_vanish(qs * k, 1);
        vstd::arithmetic::div_mod::lemma_div_multiples_vanish(-(qs * k), 1);
        vstd::arithmetic::div_mod::lemma_div_multiples_vanish(qe * k, 1);
        assert(1 * (qs * k) == qs * k && 1 * -(qs * k) == -(qs * k) && 1 * (qe * k) == qe * k)
            by (nonlinear_arith);
    }
    let c2 = zoomed(c1, to, k, 1);
    assert(qs * k <= -h && qe * k >= m - h) by (nonlinear_arith)
        requires
            k >= 1,
            qs <= -h,
            qe >= m - h,
            h >= 0,
            m - h >= 1,
    ;
    assert(c2.time_range.start == to + qs * k && c2.time_range.end == to + qe * k);
}

impl Default for TimeCursor {
    /// An uninitialized cursor: empty window, minimum width of one tick
    /// (one sample period when a tick is one sample at the reference rate).
    fn default() -> (r: Self)
        ensures
            r.wf(),
            r.time_range.start == 0,
            r.time_range.end == 0,
            r.min_size == 1,
    {
        TimeCursor { time_range: TimeRange { start: 0, end: 0 }, min_size: 1 }
    }
}

} // verus!
