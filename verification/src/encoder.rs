//! The arithmetic encoder.
//!
//! Each encoded symbol narrows the coding interval to the symbol's slice of
//! it, then renormalizes: while the interval sits in the bottom or upper
//! half it is doubled and the determined bit is emitted, and while it
//! straddles the middle it is doubled around the midpoint with the bit
//! deferred (the pending-bit technique, which resolves carries the moment a
//! bottom/upper bit disambiguates them).  The functions [`renorm_emit`] and
//! [`renorm_defer`] state those two loops exactly, so the contracts below
//! pin both the final interval and the emitted bits.

use vstd::arithmetic::power2::{lemma2_to64, lemma2_to64_rest, lemma_pow2_strictly_increases, lemma_pow2_unfold, pow2};
use vstd::prelude::*;

use crate::bits::BitSink;
use crate::model::cum;
use crate::model::Model;
use crate::range::scaled_bound;
use crate::range::Range;

verus! {

/// One emitted bit followed by the deferred pending bits, each the opposite
/// of the emitted one.
pub open spec fn bit_run(bit: bool, pending: nat) -> Seq<bool> {
    seq![bit] + Seq::new(pending, |i: int| !bit)
}

/// The bottom/upper renormalization loop: while the interval sits in the
/// bottom half emit `0` and double it, while it sits in the upper half emit
/// `1` and rescale around the midpoint; every emitted bit flushes the
/// pending run.  Returns the final bounds, the final pending count, and the
/// bits emitted.
pub open spec fn renorm_emit(low: int, high: int, half: int, pending: nat) -> (
    int,
    int,
    nat,
    Seq<bool>,
)
    decreases 4 * half - (high - low),
        when 0 <= low < high <= 2 * half
{
    if high < half {
        let rest = renorm_emit(2 * low, 2 * high, half, 0);
        (rest.0, rest.1, rest.2, bit_run(false, pending) + rest.3)
    } else if low > half {
        let rest = renorm_emit(2 * (low - half), 2 * (high - half), half, 0);
        (rest.0, rest.1, rest.2, bit_run(true, pending) + rest.3)
    } else {
        (low, high, pending, Seq::<bool>::empty())
    }
}

/// The middle renormalization loop: while the interval straddles the middle
/// strictly inside the second and third quarters, rescale it around the
/// midpoint and defer one more bit.  Returns the final bounds and pending
/// count; nothing is emitted here.
pub open spec fn renorm_defer(
    low: int,
    high: int,
    half: int,
    quarter: int,
    three_quarter: int,
    pending: nat,
) -> (int, int, nat)
    decreases 4 * half - (high - low),
        when 0 <= low < high <= 2 * half && (low > quarter && high < three_quarter ==> 2 * quarter
            == half && three_quarter == 3 * quarter)
{
    if low > quarter && high < three_quarter {
        renorm_defer(
            2 * (low - quarter),
            2 * (high - quarter),
            half,
            quarter,
            three_quarter,
            (pending + 1) as nat,
        )
    } else {
        (low, high, pending)
    }
}

/// The arithmetic encoder: the coding interval plus the deferred-bit
/// counter.
pub struct Encoder {
    pub pending_bits: u64,
    pub range: Range,
}

impl Encoder {
    /// The coding interval.
    pub open spec fn interval(&self) -> Range {
        self.range
    }

    /// The number of deferred bits.
    pub open spec fn pending(&self) -> u64 {
        self.pending_bits
    }

    /// Between calls the interval is fully renormalized: it straddles the
    /// midpoint and is at least a quarter wide.
    pub open spec fn wf(&self) -> bool {
        &&& self.range.wf()
        &&& self.range.low_val() <= self.range.half_val() <= self.range.high_val()
        &&& self.range.width() >= self.range.quarter_val()
    }

    /// A fresh encoder over the interval `[0, 2^precision)` with no pending
    /// bits.
    pub fn new(precision: u8) -> (r: Self)
        requires
            1 <= precision < 64,
        ensures
            r.wf(),
            r.pending() == 0,
            r.interval().low_val() == 0,
            r.interval().high_val() == 1u64 << precision,
            r.interval().half_val() == r.interval().high_val() / 2,
            r.interval().quarter_val() == r.interval().high_val() / 4,
            r.interval().three_quarter_val() == 3 * (r.interval().high_val() / 4),
    {
        Encoder { pending_bits: 0, range: Range::new(precision) }
    }

    /// Narrows the interval to `symbol`'s slice and renormalizes, sending
    /// the determined bits to `output`: the new state and the emitted bits
    /// are exactly what [`renorm_emit`] followed by [`renorm_defer`] yield
    /// from the scaled bounds.
    pub fn encode(&mut self, symbol: u32, model: &Model, output: &mut BitSink)
        requires
            old(self).wf(),
            model.wf(),
            (symbol as int) < model.num_symbols(),
            model.total_val() as int <= old(self).interval().width(),
            old(self).pending_bits <= u64::MAX - 64,
        ensures
            final(self).wf(),
            final(self).interval().half_val() == old(self).interval().half_val(),
            final(self).interval().quarter_val() == old(self).interval().quarter_val(),
            final(self).interval().three_quarter_val() == old(self).interval().three_quarter_val(),
            final(self).pending_bits <= old(self).pending_bits + 64,
            ({
                let l0 = scaled_bound(
                    old(self).interval().low_val() as int,
                    old(self).interval().high_val() as int,
                    cum(model.counts(), symbol as int),
                    model.total_val() as int,
                );
                let h0 = scaled_bound(
                    old(self).interval().low_val() as int,
                    old(self).interval().high_val() as int,
                    cum(model.counts(), symbol as int + 1),
                    model.total_val() as int,
                );
                let half = old(self).interval().half_val() as int;
                let quarter = old(self).interval().quarter_val() as int;
                let three_quarter = old(self).interval().three_quarter_val() as int;
                let st1 = renorm_emit(l0, h0, half, old(self).pending_bits as nat);
                let st2 = renorm_defer(st1.0, st1.1, half, quarter, three_quarter, st1.2);
                &&& final(self).interval().low_val() == st2.0
                &&& final(self).interval().high_val() == st2.1
                &&& final(self).pending_bits == st2.2
                &&& final(output)@ == old(output)@ + st1.3
            }),
    {
        let ghost half = self.range.half_val() as int;
        let ghost quarter = self.range.quarter_val() as int;
        let ghost three_quarter = self.range.three_quarter_val() as int;
        let ghost base = old(output)@;
        let low_high = self.range.calculate_range(symbol, model);
        self.range.update_range(low_high);
        let ghost l0 = self.range.low_val() as int;
        let ghost h0 = self.range.high_val() as int;
        let ghost p0 = self.pending_bits as nat;
        proof {
            assert(output@.subrange(0, base.len() as int) =~= base);
            assert(output@.subrange(base.len() as int, output@.len() as int)
                =~= Seq::<bool>::empty());
        }

        while self.range.in_upper_half() || self.range.in_bottom_half()
            invariant
                self.range.wf(),
                self.range.half_val() as int == half,
                self.range.quarter_val() as int == quarter,
                self.range.three_quarter_val() as int == three_quarter,
                self.pending_bits as nat <= p0,
                output@.len() >= base.len(),
                output@.subrange(0, base.len() as int) == base,
                renorm_emit(l0, h0, half, p0) == ({
                    let cur = renorm_emit(
                        self.range.low_val() as int,
                        self.range.high_val() as int,
                        half,
                        self.pending_bits as nat,
                    );
                    (cur.0, cur.1, cur.2, output@.subrange(base.len() as int, output@.len() as int)
                        + cur.3)
                }),
            decreases 4 * half - self.range.width(),
        {
            let ghost emitted_pre = output@.subrange(base.len() as int, output@.len() as int);
            let ghost pending_pre = self.pending_bits as nat;
            let ghost pre = output@;
            if self.range.in_upper_half() {
                self.range.scale_upper_half();
                self.write(true, output);
                proof {
                    lemma_emitted_grows(base, pre, output@, true, pending_pre);
                    let rest = renorm_emit(
                        self.range.low_val() as int,
                        self.range.high_val() as int,
                        half,
                        0,
                    );
                    assert(emitted_pre + (bit_run(true, pending_pre) + rest.3) =~= (emitted_pre
                        + bit_run(true, pending_pre)) + rest.3);
                }
            } else {
                self.range.scale_bottom_half();
                self.write(false, output);
                proof {
                    lemma_emitted_grows(base, pre, output@, false, pending_pre);
                    let rest = renorm_emit(
                        self.range.low_val() as int,
                        self.range.high_val() as int,
                        half,
                        0,
                    );
                    assert(emitted_pre + (bit_run(false, pending_pre) + rest.3) =~= (emitted_pre
                        + bit_run(false, pending_pre)) + rest.3);
                }
            }
        }

        let ghost l1 = self.range.low_val() as int;
        let ghost h1 = self.range.high_val() as int;
        let ghost p1 = self.pending_bits as nat;
        let ghost w1 = self.range.width();
        proof {
            lemma2_to64();
            assert(pow2(0) == 1);
            assert((self.pending_bits as nat - p1) as nat == 0);
            assert(pow2((self.pending_bits as nat - p1) as nat) * w1 == w1) by (nonlinear_arith)
                requires
                    pow2((self.pending_bits as nat - p1) as nat) == 1,
            ;
            assert(renorm_emit(l0, h0, half, p0).3 == output@.subrange(
                base.len() as int,
                output@.len() as int,
            ) + Seq::<bool>::empty());
            assert(output@.subrange(base.len() as int, output@.len() as int)
                + Seq::<bool>::empty() =~= output@.subrange(base.len() as int, output@.len() as int));
            assert(output@ =~= base + output@.subrange(base.len() as int, output@.len() as int));
        }

        while self.range.in_middle_half()
            invariant
                self.range.wf(),
                self.range.half_val() as int == half,
                self.range.quarter_val() as int == quarter,
                self.range.three_quarter_val() as int == three_quarter,
                self.range.low_val() <= self.range.half_val() <= self.range.high_val(),
                p1 <= self.pending_bits as nat,
                p1 <= p0 <= u64::MAX - 64,
                w1 >= 1,
                pow2((self.pending_bits as nat - p1) as nat) * w1 <= self.range.width(),
                renorm_defer(l1, h1, half, quarter, three_quarter, p1) == renorm_defer(
                    self.range.low_val() as int,
                    self.range.high_val() as int,
                    half,
                    quarter,
                    three_quarter,
                    self.pending_bits as nat,
                ),
            decreases 4 * half - self.range.width(),
        {
            let ghost k = (self.pending_bits as nat - p1) as nat;
            proof {
                lemma_pending_growth_bound(k, w1, self.range.width(), half);
                lemma_pow2_unfold((k + 1) as nat);
                assert((2 * pow2(k)) * w1 == 2 * (pow2(k) * w1)) by (nonlinear_arith);
            }
            self.pending_bits = self.pending_bits + 1;
            self.range.scale_middle_half();
        }
        proof {
            if self.pending_bits as nat > p1 + 63 {
                lemma_pending_growth_bound(
                    (self.pending_bits as nat - p1) as nat,
                    w1,
                    self.range.width(),
                    half,
                );
            }
        }
    }

    /// Emits `bit`, then the deferred pending bits as its opposite, leaving
    /// no pending bits: exactly [`bit_run`]`(bit, pending)` is appended.
    pub fn write(&mut self, bit: bool, output: &mut BitSink)
        ensures
            final(self).pending_bits == 0,
            final(self).range == old(self).range,
            final(output)@ == old(output)@ + bit_run(bit, old(self).pending_bits as nat),
    {
        output.write_bit(bit);
        let ghost p0 = self.pending_bits as nat;
        let ghost mid = output@;
        proof {
            assert(output@ =~= mid + Seq::new(0, |i: int| !bit));
        }
        while self.pending_bits > 0
            invariant
                self.pending_bits as nat <= p0,
                self.range == old(self).range,
                mid == old(output)@.push(bit),
                output@ == mid + Seq::new((p0 - self.pending_bits as nat) as nat, |i: int| !bit),
            decreases self.pending_bits,
        {
            output.write_bit(!bit);
            self.pending_bits = self.pending_bits - 1;
            proof {
                assert(output@ =~= mid + Seq::new(
                    (p0 - self.pending_bits as nat) as nat,
                    |i: int| !bit,
                ));
            }
        }
        proof {
            assert(output@ =~= old(output)@ + bit_run(bit, p0));
        }
    }

    /// Terminates the stream: defers one more bit, then emits `0` if the
    /// interval's low bound is at or below the quarter threshold, else `1`,
    /// flushing the pending run.
    pub fn flush(&mut self, output: &mut BitSink)
        requires
            old(self).pending_bits < u64::MAX,
        ensures
            final(self).pending_bits == 0,
            final(self).range == old(self).range,
            final(output)@ == old(output)@ + bit_run(
                !(old(self).interval().low_val() <= old(self).interval().quarter_val()),
                (old(self).pending_bits + 1) as nat,
            ),
    {
        self.pending_bits = self.pending_bits + 1;
        if self.range.in_bottom_quarter() {
            self.write(false, output);
        } else {
            self.write(true, output);
        }
    }
}

/// After appending a run to the sink, what the sink gained since `base` is
/// what it had gained before, followed by the run.
proof fn lemma_emitted_grows(base: Seq<bool>, pre: Seq<bool>, out: Seq<bool>, bit: bool, pending: nat)
    requires
        pre.len() >= base.len(),
        pre.subrange(0, base.len() as int) == base,
        out == pre + bit_run(bit, pending),
    ensures
        out.subrange(0, base.len() as int) == base,
        out.subrange(base.len() as int, out.len() as int) == pre.subrange(
            base.len() as int,
            pre.len() as int,
        ) + bit_run(bit, pending),
{
    assert(out.subrange(0, base.len() as int) =~= base);
    assert(out.subrange(base.len() as int, out.len() as int) =~= pre.subrange(
        base.len() as int,
        pre.len() as int,
    ) + bit_run(bit, pending));
}

/// The middle loop can defer at most 63 bits in one call: each deferred bit
/// doubles the width, which never exceeds the interval's capacity.
proof fn lemma_pending_growth_bound(k: nat, w_start: int, width: int, half: int)
    requires
        w_start >= 1,
        pow2(k) * w_start <= width,
        width <= 2 * half,
        half <= 0x4000_0000_0000_0000,
    ensures
        k <= 63,
{
    if k > 63 {
        lemma2_to64();
        lemma2_to64_rest();
        lemma_pow2_strictly_increases(63, k);
        let p = pow2(k) as int;
        assert(p * 1 <= p * w_start) by (nonlinear_arith)
            requires
                w_start >= 1 && p >= 0,
        ;
        assert(pow2(63) == 0x8000_0000_0000_0000);
        assert(p > 0x8000_0000_0000_0000);
        assert(false);
    }
}

} // verus!
