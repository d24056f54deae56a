//! The coding interval and its renormalization rules.
//!
//! A [`Range`] owns the current interval `[low, high)` inside
//! `[0, 2^precision)`, together with the half and quarter thresholds fixed
//! at construction.  Scaling a symbol's cumulative interval into the current
//! one uses exact integer arithmetic with 128-bit intermediates, so the
//! bounds are a pure function of the counts and never suffer rounding drift.

use vstd::arithmetic::div_mod::{
    lemma_div_is_ordered, lemma_div_multiples_vanish, lemma_fundamental_div_mod,
};
use vstd::arithmetic::mul::{lemma_mul_inequality, lemma_mul_upper_bound};
use vstd::prelude::*;

use crate::model::cum;
use crate::model::Model;

verus! {

/// The lower bound of symbol slice `c` (a cumulative count out of `total`)
/// scaled into the interval `[low, high)`.
pub open spec fn scaled_bound(low: int, high: int, c: int, total: int) -> int {
    low + (high - low) * c / total
}

/// The current coding interval `[low, high)` at a fixed bit precision,
/// with the half and quarter thresholds derived from that precision.
pub struct Range {
    pub high: u64,
    pub low: u64,
    pub half: u64,
    pub one_quarter: u64,
    pub three_quarter: u64,
}

impl Range {
    /// The lower bound of the interval.
    pub open spec fn low_val(&self) -> u64 {
        self.low
    }

    /// The upper bound of the interval.
    pub open spec fn high_val(&self) -> u64 {
        self.high
    }

    /// The half threshold, `2^precision / 2`.
    pub open spec fn half_val(&self) -> u64 {
        self.half
    }

    /// The quarter threshold, `2^precision / 4`.
    pub open spec fn quarter_val(&self) -> u64 {
        self.one_quarter
    }

    /// The three-quarter threshold, `3 * (2^precision / 4)`.
    pub open spec fn three_quarter_val(&self) -> u64 {
        self.three_quarter
    }

    /// The current width of the interval.
    pub open spec fn width(&self) -> int {
        self.high - self.low
    }

    /// The thresholds agree with a power-of-two capacity `2 * half`, and the
    /// interval is a non-empty sub-range of `[0, 2 * half]`.
    pub open spec fn wf(&self) -> bool {
        &&& self.low < self.high
        &&& self.high <= 2 * self.half
        &&& 1 <= self.half <= 0x4000_0000_0000_0000u64
        &&& (2 * self.one_quarter == self.half || (self.half == 1 && self.one_quarter == 0))
        &&& self.three_quarter == 3 * self.one_quarter
    }

    /// A fresh interval `[0, 2^precision_bits)` with its thresholds.
    pub fn new(precision_bits: u8) -> (r: Self)
        requires
            1 <= precision_bits < 64,
        ensures
            r.wf(),
            r.low_val() == 0,
            r.high_val() == 1u64 << precision_bits,
            r.half_val() == r.high_val() / 2,
            r.quarter_val() == r.high_val() / 4,
            r.three_quarter_val() == 3 * (r.high_val() / 4),
    {
        let high: u64 = 1u64 << precision_bits;
        assert(high >= 2 && high % 2 == 0 && (high == 2 || high % 4 == 0)
            && high <= 0x8000_0000_0000_0000u64) by (bit_vector)
            requires
                high == 1u64 << precision_bits && 1 <= precision_bits < 64,
        ;
        let half: u64 = high / 2;
        let one_quarter: u64 = high / 4;
        let three_quarter: u64 = one_quarter * 3;
        Range { high, low: 0, half, one_quarter, three_quarter }
    }

    /// Rescales out of the upper half: both bounds shifted down by `half`,
    /// then doubled.
    pub fn scale_upper_half(&mut self)
        requires
            old(self).wf(),
            old(self).low_val() > old(self).half_val(),
        ensures
            final(self).wf(),
            final(self).low_val() == 2 * (old(self).low_val() - old(self).half_val()),
            final(self).high_val() == 2 * (old(self).high_val() - old(self).half_val()),
            final(self).half_val() == old(self).half_val(),
            final(self).quarter_val() == old(self).quarter_val(),
            final(self).three_quarter_val() == old(self).three_quarter_val(),
    {
        proof {
            lemma_double((self.low - self.half) as u64);
            lemma_double((self.high - self.half) as u64);
        }
        self.low = (self.low - self.half) << 1u64;
        self.high = (self.high - self.half) << 1u64;
    }

    /// Rescales out of the bottom half: both bounds doubled in place.
    pub fn scale_bottom_half(&mut self)
        requires
            old(self).wf(),
            old(self).high_val() < old(self).half_val(),
        ensures
            final(self).wf(),
            final(self).low_val() == 2 * old(self).low_val(),
            final(self).high_val() == 2 * old(self).high_val(),
            final(self).half_val() == old(self).half_val(),
            final(self).quarter_val() == old(self).quarter_val(),
            final(self).three_quarter_val() == old(self).three_quarter_val(),
    {
        proof {
            lemma_double(self.low);
            lemma_double(self.high);
        }
        self.low = self.low << 1u64;
        self.high = self.high << 1u64;
    }

    /// Rescales out of the middle half: both bounds shifted down by a
    /// quarter, then doubled.
    pub fn scale_middle_half(&mut self)
        requires
            old(self).wf(),
            old(self).low_val() > old(self).quarter_val(),
            old(self).high_val() < old(self).three_quarter_val(),
        ensures
            final(self).wf(),
            final(self).low_val() == 2 * (old(self).low_val() - old(self).quarter_val()),
            final(self).high_val() == 2 * (old(self).high_val() - old(self).quarter_val()),
            final(self).half_val() == old(self).half_val(),
            final(self).quarter_val() == old(self).quarter_val(),
            final(self).three_quarter_val() == old(self).three_quarter_val(),
    {
        proof {
            lemma_double((self.low - self.one_quarter) as u64);
            lemma_double((self.high - self.one_quarter) as u64);
        }
        self.low = (self.low - self.one_quarter) << 1u64;
        self.high = (self.high - self.one_quarter) << 1u64;
    }

    /// The interval lies entirely above the half threshold.
    pub fn in_upper_half(&self) -> (r: bool)
        ensures
            r == (self.low_val() > self.half_val()),
    {
        self.low > self.half
    }

    /// The interval lies entirely below the half threshold.
    pub fn in_bottom_half(&self) -> (r: bool)
        ensures
            r == (self.high_val() < self.half_val()),
    {
        self.high < self.half
    }

    /// The interval straddles the half threshold but lies strictly inside
    /// the middle two quarters.
    pub fn in_middle_half(&self) -> (r: bool)
        ensures
            r == (self.low_val() > self.quarter_val() && self.high_val()
                < self.three_quarter_val()),
    {
        self.low > self.one_quarter && self.high < self.three_quarter
    }

    /// The lower bound sits at or below the quarter threshold.
    pub fn in_bottom_quarter(&self) -> (r: bool)
        ensures
            r == (self.low_val() <= self.quarter_val()),
    {
        self.low <= self.one_quarter
    }

    /// Scales `symbol`'s cumulative interval into the current one, without
    /// committing it: the bounds are `low + width * cum / total`, computed
    /// exactly.  The result sits inside the current interval, and is
    /// non-empty whenever the model's total fits in the current width.
    pub fn calculate_range(&self, symbol: u32, model: &Model) -> (r: (u64, u64))
        requires
            self.wf(),
            model.wf(),
            (symbol as int) < model.num_symbols(),
        ensures
            r.0 as int == scaled_bound(
                self.low_val() as int,
                self.high_val() as int,
                cum(model.counts(), symbol as int),
                model.total_val() as int,
            ),
            r.1 as int == scaled_bound(
                self.low_val() as int,
                self.high_val() as int,
                cum(model.counts(), symbol as int + 1),
                model.total_val() as int,
            ),
            self.low_val() <= r.0 <= r.1 <= self.high_val(),
            model.total_val() as int <= self.width() ==> r.0 < r.1,
    {
        let current_width: u64 = self.high - self.low;
        let low_high = model.prob(symbol);
        let total: u64 = model.total();
        proof {
            lemma_mul_upper_bound(
                current_width as int,
                u64::MAX as int,
                low_high.0 as int,
                u64::MAX as int,
            );
            lemma_mul_upper_bound(
                current_width as int,
                u64::MAX as int,
                low_high.1 as int,
                u64::MAX as int,
            );
            lemma_mul_div_le(current_width as int, low_high.0 as int, total as int);
            lemma_mul_div_le(current_width as int, low_high.1 as int, total as int);
            lemma_mul_div_ordered(
                current_width as int,
                low_high.0 as int,
                low_high.1 as int,
                total as int,
            );
            if total as int <= self.width() {
                lemma_scaled_strict(
                    current_width as int,
                    low_high.0 as int,
                    low_high.1 as int,
                    total as int,
                );
            }
        }
        let low_off: u64 = ((current_width as u128 * low_high.0 as u128) / total as u128) as u64;
        let high_off: u64 = ((current_width as u128 * low_high.1 as u128) / total as u128) as u64;
        (self.low + low_off, self.low + high_off)
    }

    /// Commits probed bounds as the new interval.
    pub fn update_range(&mut self, low_high: (u64, u64))
        requires
            old(self).wf(),
            low_high.0 < low_high.1,
            low_high.1 <= 2 * old(self).half_val(),
        ensures
            final(self).wf(),
            final(self).low_val() == low_high.0,
            final(self).high_val() == low_high.1,
            final(self).half_val() == old(self).half_val(),
            final(self).quarter_val() == old(self).quarter_val(),
            final(self).three_quarter_val() == old(self).three_quarter_val(),
    {
        self.low = low_high.0;
        self.high = low_high.1;
    }

    /// The half threshold.
    pub fn half(&self) -> (r: u64)
        ensures
            r == self.half_val(),
    {
        self.half
    }

    /// The quarter threshold.
    pub fn quarter(&self) -> (r: u64)
        ensures
            r == self.quarter_val(),
    {
        self.one_quarter
    }
}

/// Shifting left by one doubles a value that has headroom.
proof fn lemma_double(x: u64)
    by (bit_vector)
    requires
        x <= 0x4000_0000_0000_0000u64,
    ensures
        x << 1u64 == 2 * x,
{
}

/// `0 <= w * c / t <= w` whenever `0 <= c <= t`.
proof fn lemma_mul_div_le(w: int, c: int, t: int)
    requires
        0 <= w,
        0 <= c <= t,
        1 <= t,
    ensures
        0 <= w * c / t <= w,
{
    lemma_mul_upper_bound(w, w, c, t);
    lemma_div_is_ordered(w * c, w * t, t);
    lemma_div_multiples_vanish(w, t);
    assert(w * t == t * w) by (nonlinear_arith);
    assert(0 <= w * c) by (nonlinear_arith)
        requires
            0 <= w && 0 <= c,
    ;
    lemma_div_is_ordered(0, w * c, t);
}

/// Scaling preserves the order of cumulative counts.
proof fn lemma_mul_div_ordered(w: int, c1: int, c2: int, t: int)
    requires
        0 <= w,
        0 <= c1 <= c2,
        1 <= t,
    ensures
        w * c1 / t <= w * c2 / t,
{
    lemma_mul_inequality(c1, c2, w);
    assert(c1 * w == w * c1 && c2 * w == w * c2) by (nonlinear_arith);
    lemma_div_is_ordered(w * c1, w * c2, t);
}

/// Scaled bounds are monotone in the cumulative count.
pub proof fn lemma_scaled_mono(low: int, high: int, c1: int, c2: int, total: int)
    requires
        low <= high,
        0 <= c1 <= c2,
        1 <= total,
    ensures
        scaled_bound(low, high, c1, total) <= scaled_bound(low, high, c2, total),
{
    lemma_mul_div_ordered(high - low, c1, c2, total);
}

/// When the width is at least the total, distinct cumulative counts scale to
/// distinct bounds, so no symbol's slice collapses to nothing.
pub proof fn lemma_scaled_strict(w: int, c1: int, c2: int, t: int)
    requires
        1 <= t <= w,
        0 <= c1 < c2 <= t,
    ensures
        w * c1 / t < w * c2 / t,
{
    let q = w * c1 / t;
    lemma_fundamental_div_mod(w * c1, t);
    let r = w * c1 % t;
    assert(w * c2 >= w * c1 + w) by (nonlinear_arith)
        requires
            c1 < c2 && 0 <= w,
    ;
    assert(w * c1 + t == (q + 1) * t + r) by (nonlinear_arith)
        requires
            w * c1 == q * t + r,
    ;
    assert((q + 1) * t <= w * c2);
    lemma_div_is_ordered((q + 1) * t, w * c2, t);
    lemma_div_multiples_vanish(q + 1, t);
    assert((q + 1) * t == t * (q + 1)) by (nonlinear_arith);
}

} // verus!
