//! The arithmetic decoder.
//!
//! The decoder mirrors the encoder step for step: it primes an input buffer
//! with `precision` bits, binary-searches the model's cumulative
//! distribution for the symbol whose scaled slice contains the buffer, and
//! then renormalizes exactly as the encoder does, shifting one freshly read
//! bit into the buffer per doubling.  When the physical input runs out it
//! substitutes `0` bits, up to `precision` of them (the bits still in
//! flight from the encoder's look-ahead); one more substitution than that
//! fails the decode.  The function [`spec_decode`] states the whole effect
//! of one call, including every read, substitution and failure.

use vstd::arithmetic::power2::{lemma2_to64, lemma2_to64_rest, lemma_pow2_strictly_increases,
    lemma_pow2_unfold, pow2};
use vstd::arithmetic::div_mod::lemma_div_multiples_vanish;
use vstd::bits::{lemma_u64_pow2_no_overflow, lemma_u64_shl_is_mul};
use vstd::prelude::*;

use crate::bits::BitSource;
use crate::model::cum;
use crate::model::lemma_cum_monotone;
use crate::model::lemma_cum_nonneg;
use crate::model::lemma_probability_partition;
use crate::model::Model;
use crate::range::lemma_scaled_mono;
use crate::range::scaled_bound;
use crate::range::Range;

verus! {

/// Why decoding failed.
#[derive(Clone, Copy, Debug, PartialEq, Eq, Structural)]
pub enum DecodeError {
    /// The input was exhausted, `precision` zero bits were substituted, and
    /// the EOF symbol still was not decoded (was it encoded at all?).
    UnexpectedEof,
}

/// 1 for a set bit, 0 for a clear one.
pub open spec fn bint(b: bool) -> int {
    if b {
        1
    } else {
        0
    }
}

/// One read under the exhaustion policy: inside the stream the next bit is
/// handed out; past its end a `0` bit is substituted while the budget
/// lasts; with the budget spent the read fails.  Returns the bit, the new
/// position and the new budget.
pub open spec fn spec_read(src: Seq<bool>, pos: int, budget: int) -> Option<(bool, int, int)> {
    if pos < src.len() {
        Some((src[pos], pos + 1, budget))
    } else if budget > 0 {
        Some((false, pos, budget - 1))
    } else {
        None
    }
}

/// Priming: `k` reads accumulated onto `buf`, most significant bit first.
/// Returns the buffer, position and budget after them.
pub open spec fn spec_prime(src: Seq<bool>, pos: int, budget: int, k: nat, buf: int) -> Option<
    (int, int, int),
>
    decreases k,
{
    if k == 0 {
        Some((buf, pos, budget))
    } else {
        match spec_read(src, pos, budget) {
            Option::None => Option::None,
            Option::Some(t) => spec_prime(src, t.1, t.2, (k - 1) as nat, 2 * buf + bint(t.0)),
        }
    }
}

/// The decoder's bottom/upper renormalization loop: the interval doubles
/// exactly as on the encoder side, and each doubling shifts one read bit
/// into the buffer.  State: low, high, buffer, position, budget.
pub open spec fn spec_scale_reads(
    low: int,
    high: int,
    half: int,
    buf: int,
    src: Seq<bool>,
    pos: int,
    budget: int,
) -> Option<(int, int, int, int, int)>
    decreases 4 * half - (high - low),
        when 0 <= low < high <= 2 * half
{
    if high < half {
        match spec_read(src, pos, budget) {
            Option::None => Option::None,
            Option::Some(t) => spec_scale_reads(
                2 * low,
                2 * high,
                half,
                2 * buf + bint(t.0),
                src,
                t.1,
                t.2,
            ),
        }
    } else if low > half {
        match spec_read(src, pos, budget) {
            Option::None => Option::None,
            Option::Some(t) => spec_scale_reads(
                2 * (low - half),
                2 * (high - half),
                half,
                2 * (buf - half) + bint(t.0),
                src,
                t.1,
                t.2,
            ),
        }
    } else {
        Option::Some((low, high, buf, pos, budget))
    }
}

/// The decoder's middle renormalization loop, mirroring the encoder's
/// pending-bit loop with one read per doubling.
pub open spec fn spec_middle_reads(
    low: int,
    high: int,
    half: int,
    quarter: int,
    three_quarter: int,
    buf: int,
    src: Seq<bool>,
    pos: int,
    budget: int,
) -> Option<(int, int, int, int, int)>
    decreases 4 * half - (high - low),
        when 0 <= low < high <= 2 * half && (low > quarter && high < three_quarter ==> 2 * quarter
            == half && three_quarter == 3 * quarter)
{
    if low > quarter && high < three_quarter {
        match spec_read(src, pos, budget) {
            Option::None => Option::None,
            Option::Some(t) => spec_middle_reads(
                2 * (low - quarter),
                2 * (high - quarter),
                half,
                quarter,
                three_quarter,
                2 * (buf - quarter) + bint(t.0),
                src,
                t.1,
                t.2,
            ),
        }
    } else {
        Option::Some((low, high, buf, pos, budget))
    }
}

/// Symbol `s`'s scaled slice of `[low, high)` contains the buffer value.
pub open spec fn contains_buf(
    low: int,
    high: int,
    counts: Seq<u64>,
    total: int,
    s: int,
    buf: int,
) -> bool {
    scaled_bound(low, high, cum(counts, s), total) <= buf && buf < scaled_bound(
        low,
        high,
        cum(counts, s + 1),
        total,
    )
}

/// The symbol whose slice contains the buffer; unique, because the
/// cumulative distribution is monotone.
pub open spec fn found_symbol(low: int, high: int, counts: Seq<u64>, total: int, buf: int) -> int {
    choose|s: int| 0 <= s < counts.len() && contains_buf(low, high, counts, total, s, buf)
}

/// The complete effect of one decode call on a decoder whose interval is
/// `[low, high)` with the given thresholds: prime the buffer on the first
/// call, pick the containing symbol, and for a non-EOF symbol commit its
/// slice and renormalize.  Returns the symbol and the new low, high,
/// buffer, budget and position, or `None` where a read fails.
pub open spec fn spec_decode(
    low: int,
    high: int,
    half: int,
    quarter: int,
    three_quarter: int,
    counts: Seq<u64>,
    total: int,
    eof: int,
    first: bool,
    buf0: int,
    budget0: int,
    prime_count: nat,
    src: Seq<bool>,
    pos0: int,
) -> Option<(int, int, int, int, int, int)> {
    let primed = if first {
        spec_prime(src, pos0, budget0, prime_count, 0)
    } else {
        Some((buf0, pos0, budget0))
    };
    match primed {
        Option::None => Option::None,
        Option::Some(t) => {
            let s = found_symbol(low, high, counts, total, t.0);
            if s == eof {
                Option::Some((s, low, high, t.0, t.2, t.1))
            } else {
                let l1 = scaled_bound(low, high, cum(counts, s), total);
                let h1 = scaled_bound(low, high, cum(counts, s + 1), total);
                match spec_scale_reads(l1, h1, half, t.0, src, t.1, t.2) {
                    Option::None => Option::None,
                    Option::Some(u) => {
                        match spec_middle_reads(
                            u.0,
                            u.1,
                            half,
                            quarter,
                            three_quarter,
                            u.2,
                            src,
                            u.3,
                            u.4,
                        ) {
                            Option::None => Option::None,
                            Option::Some(v) => Option::Some((s, v.0, v.1, v.2, v.4, v.3)),
                        }
                    },
                }
            }
        },
    }
}

/// The arithmetic decoder: the coding interval, the input buffer, the
/// zero-substitution budget, and the priming and EOF flags.
pub struct Decoder {
    pub range: Range,
    pub precision: u8,
    pub input_buffer: u64,
    pub first_time: bool,
    pub finished: bool,
}

impl Decoder {
    /// The buffer always lies inside the interval, and before the first
    /// read the decoder is pristine: zero buffer, full interval of width
    /// `2^precision`.
    pub open spec fn wf(&self) -> bool {
        &&& self.range.wf()
        &&& self.range.low_val() <= self.input_buffer < self.range.high_val()
        &&& (self.first_time ==> self.range.low_val() == 0 && self.input_buffer == 0
            && self.range.high_val() as int == pow2(self.precision as nat) && self.precision < 64)
    }

    /// A fresh decoder over the interval `[0, 2^precision)`, with a full
    /// substitution budget of `precision` bits.
    pub fn new(precision: u8) -> (r: Self)
        requires
            1 <= precision < 64,
        ensures
            r.wf(),
            r.range.low_val() == 0,
            r.range.high_val() == 1u64 << precision,
            r.range.half_val() == r.range.high_val() / 2,
            r.range.quarter_val() == r.range.high_val() / 4,
            r.range.three_quarter_val() == 3 * (r.range.high_val() / 4),
            r.precision == precision,
            r.input_buffer == 0,
            r.first_time,
            !r.finished,
    {
        let range = Range::new(precision);
        proof {
            lemma_u64_pow2_no_overflow(precision as nat);
            lemma_u64_shl_is_mul(1u64, precision as u64);
            assert(1 * pow2(precision as nat) == pow2(precision as nat)) by (nonlinear_arith);
        }
        Decoder { range, precision, first_time: true, input_buffer: 0, finished: false }
    }

    /// Decodes one symbol: primes the buffer on the first call, finds the
    /// symbol whose slice contains the buffer, and renormalizes unless the
    /// symbol is EOF (the stream is then complete and no more bits are
    /// consumed).  The result and the new state are exactly what
    /// [`spec_decode`] yields; the read fails, with `UnexpectedEof`, exactly
    /// where [`spec_decode`] has no value.
    #[verifier::loop_isolation(false)]
    pub fn decode(&mut self, source_model: &Model, bit_source: &mut BitSource) -> (r: Result<
        u32,
        DecodeError,
    >)
        requires
            old(self).wf(),
            source_model.wf(),
            old(bit_source).wf(),
            source_model.eof_val() as int == source_model.num_symbols() - 1,
        ensures
            final(bit_source)@ == old(bit_source)@,
            final(bit_source).wf(),
            final(self).range.half_val() == old(self).range.half_val(),
            final(self).range.quarter_val() == old(self).range.quarter_val(),
            final(self).range.three_quarter_val() == old(self).range.three_quarter_val(),
            ({
                let out = spec_decode(
                    old(self).range.low_val() as int,
                    old(self).range.high_val() as int,
                    old(self).range.half_val() as int,
                    old(self).range.quarter_val() as int,
                    old(self).range.three_quarter_val() as int,
                    source_model.counts(),
                    source_model.total_val() as int,
                    source_model.eof_val() as int,
                    old(self).first_time,
                    old(self).input_buffer as int,
                    old(self).precision as int,
                    old(self).precision as nat,
                    old(bit_source)@,
                    old(bit_source).position(),
                );
                match r {
                    Result::Ok(sym) => out matches Some(t) && {
                        &&& t.0 == sym as int
                        &&& 0 <= t.0 && t.0 < source_model.num_symbols()
                        &&& final(self).range.low_val() as int == t.1
                        &&& final(self).range.high_val() as int == t.2
                        &&& final(self).input_buffer as int == t.3
                        &&& final(self).precision as int == t.4
                        &&& final(bit_source).position() == t.5
                        &&& final(self).finished == (old(self).finished || t.0
                            == source_model.eof_val() as int)
                        &&& !final(self).first_time
                        &&& final(self).wf()
                    },
                    Result::Err(e) => out is None && e == DecodeError::UnexpectedEof
                        && final(self).finished == old(self).finished,
                }
            }),
    {
        let ghost src = bit_source@;
        let ghost pos0 = bit_source.position();
        let ghost bud0 = self.precision as int;
        let ghost prime_k = self.precision as nat;
        let ghost lowg = self.range.low_val() as int;
        let ghost highg = self.range.high_val() as int;
        let ghost halfg = self.range.half_val() as int;
        let ghost quarterg = self.range.quarter_val() as int;
        let ghost tqg = self.range.three_quarter_val() as int;
        let ghost counts = source_model.counts();
        let ghost total = source_model.total_val() as int;
        proof {
            lemma_probability_partition(*source_model, 0);
        }

        if self.first_time {
            let prime_count: u8 = self.precision;
            let mut i: u8 = 0;
            proof {
                lemma2_to64();
            }
            while i < prime_count
                invariant
                    i <= prime_count,
                    self.range == old(self).range,
                    self.first_time == old(self).first_time,
                    self.finished == old(self).finished,
                    bit_source@ == src,
                    bit_source.wf(),
                    (self.input_buffer as int) < pow2(i as nat),
                    spec_prime(src, pos0, bud0, prime_k, 0) == spec_prime(
                        src,
                        bit_source.position(),
                        self.precision as int,
                        (prime_k - i as nat) as nat,
                        self.input_buffer as int,
                    ),
                decreases prime_count - i,
            {
                proof {
                    lemma_pow2_le_62(i as nat);
                }
                let b: u64 = match self.bit(bit_source) {
                    Result::Ok(v) => v,
                    Result::Err(e) => {
                        return Result::Err(e);
                    },
                };
                proof {
                    lemma_shl1_or(self.input_buffer, b);
                    lemma_pow2_unfold((i + 1) as nat);
                }
                self.input_buffer = (self.input_buffer << 1u64) | b;
                i = i + 1;
            }
            self.first_time = false;
        }

        let ghost buf1 = self.input_buffer as int;
        let ghost pos1 = bit_source.position();
        let ghost bud1 = self.precision as int;
        proof {
            assert(self.range.low_val() <= self.input_buffer < self.range.high_val());
        }

        let symbol: u32 = search_symbol(&self.range, source_model, self.input_buffer);
        proof {
            assert(exists|s: int|
                0 <= s < counts.len() && contains_buf(lowg, highg, counts, total, s, buf1)) by {
                assert(0 <= symbol && (symbol as int) < counts.len() && contains_buf(
                    lowg,
                    highg,
                    counts,
                    total,
                    symbol as int,
                    buf1,
                ));
            }
            let fs = found_symbol(lowg, highg, counts, total, buf1);
            assert(0 <= fs < counts.len() && contains_buf(lowg, highg, counts, total, fs, buf1));
            lemma_symbol_unique(lowg, highg, counts, total, buf1, fs, symbol as int);
        }

        if symbol == source_model.eof() {
            self.set_finished();
            return Result::Ok(symbol);
        }

        let low_high = self.range.calculate_range(symbol, source_model);
        self.range.update_range(low_high);
        let ghost l1 = low_high.0 as int;
        let ghost h1 = low_high.1 as int;

        while self.range.in_bottom_half() || self.range.in_upper_half()
            invariant
                self.range.wf(),
                self.range.half_val() as int == halfg,
                self.range.quarter_val() as int == quarterg,
                self.range.three_quarter_val() as int == tqg,
                self.range.low_val() <= self.input_buffer < self.range.high_val(),
                !self.first_time,
                self.finished == old(self).finished,
                bit_source@ == src,
                bit_source.wf(),
                spec_scale_reads(l1, h1, halfg, buf1, src, pos1, bud1) == spec_scale_reads(
                    self.range.low_val() as int,
                    self.range.high_val() as int,
                    halfg,
                    self.input_buffer as int,
                    src,
                    bit_source.position(),
                    self.precision as int,
                ),
            decreases 4 * halfg - self.range.width(),
        {
            if self.range.in_bottom_half() {
                self.range.scale_bottom_half();
                let b: u64 = match self.bit(bit_source) {
                    Result::Ok(v) => v,
                    Result::Err(e) => {
                        return Result::Err(e);
                    },
                };
                proof {
                    lemma_shl1_or(self.input_buffer, b);
                }
                self.input_buffer = (self.input_buffer << 1u64) | b;
            } else {
                self.range.scale_upper_half();
                let b: u64 = match self.bit(bit_source) {
                    Result::Ok(v) => v,
                    Result::Err(e) => {
                        return Result::Err(e);
                    },
                };
                proof {
                    lemma_shl1_or((self.input_buffer - self.range.half_val()) as u64, b);
                }
                self.input_buffer = ((self.input_buffer - self.range.half()) << 1u64) | b;
            }
        }

        let ghost st2 = (
            self.range.low_val() as int,
            self.range.high_val() as int,
            self.input_buffer as int,
            bit_source.position(),
            self.precision as int,
        );

        while self.range.in_middle_half()
            invariant
                self.range.wf(),
                self.range.half_val() as int == halfg,
                self.range.quarter_val() as int == quarterg,
                self.range.three_quarter_val() as int == tqg,
                self.range.low_val() <= self.input_buffer < self.range.high_val(),
                !self.first_time,
                self.finished == old(self).finished,
                bit_source@ == src,
                bit_source.wf(),
                spec_middle_reads(st2.0, st2.1, halfg, quarterg, tqg, st2.2, src, st2.3, st2.4)
                    == spec_middle_reads(
                    self.range.low_val() as int,
                    self.range.high_val() as int,
                    halfg,
                    quarterg,
                    tqg,
                    self.input_buffer as int,
                    src,
                    bit_source.position(),
                    self.precision as int,
                ),
            decreases 4 * halfg - self.range.width(),
        {
            self.range.scale_middle_half();
            let b: u64 = match self.bit(bit_source) {
                Result::Ok(v) => v,
                Result::Err(e) => {
                    return Result::Err(e);
                },
            };
            proof {
                lemma_shl1_or((self.input_buffer - self.range.quarter_val()) as u64, b);
            }
            self.input_buffer = ((self.input_buffer - self.range.quarter()) << 1u64) | b;
        }

        Result::Ok(symbol)
    }

    /// Reads one bit from the source; past its end, substitutes a `0` bit
    /// and spends one unit of the budget, failing once the budget is gone.
    /// Exactly [`spec_read`] over the source and the budget.
    fn bit(&mut self, source: &mut BitSource) -> (r: Result<u64, DecodeError>)
        requires
            old(source).wf(),
        ensures
            final(source)@ == old(source)@,
            final(source).wf(),
            final(self).range == old(self).range,
            final(self).input_buffer == old(self).input_buffer,
            final(self).first_time == old(self).first_time,
            final(self).finished == old(self).finished,
            match spec_read(old(source)@, old(source).position(), old(self).precision as int) {
                Option::Some(t) => r matches Ok(v) && v as int == bint(t.0)
                    && final(source).position() == t.1 && final(self).precision as int == t.2,
                Option::None => r == Result::<u64, DecodeError>::Err(DecodeError::UnexpectedEof)
                    && final(self).precision == old(self).precision && final(source).position()
                    == old(source).position(),
            },
    {
        match source.read_bit() {
            Option::Some(res) => Result::Ok(
                if res {
                    1
                } else {
                    0
                },
            ),
            Option::None => {
                if self.precision == 0 {
                    return Result::Err(DecodeError::UnexpectedEof);
                }
                self.precision = self.precision - 1;
                Result::Ok(0)
            },
        }
    }

    /// Marks the stream as complete.
    pub fn set_finished(&mut self)
        ensures
            final(self).finished,
            final(self).range == old(self).range,
            final(self).precision == old(self).precision,
            final(self).input_buffer == old(self).input_buffer,
            final(self).first_time == old(self).first_time,
    {
        self.finished = true;
    }

    /// Whether the EOF symbol has been decoded.
    pub fn finished(&self) -> (r: bool)
        ensures
            r == self.finished,
    {
        self.finished
    }
}

/// Binary search over `[0, eof]` for the symbol whose scaled slice contains
/// the buffer.  The EOF symbol closes the alphabet, so the slices tile the
/// whole interval and the search cannot miss.
#[verifier::loop_isolation(false)]
fn search_symbol(range: &Range, source_model: &Model, buf: u64) -> (sym: u32)
    requires
        range.wf(),
        source_model.wf(),
        range.low_val() <= buf < range.high_val(),
        source_model.eof_val() as int == source_model.num_symbols() - 1,
    ensures
        0 <= sym && (sym as int) < source_model.num_symbols(),
        contains_buf(
            range.low_val() as int,
            range.high_val() as int,
            source_model.counts(),
            source_model.total_val() as int,
            sym as int,
            buf as int,
        ),
{
    let ghost counts = source_model.counts();
    let ghost total = source_model.total_val() as int;
    let ghost lowg = range.low_val() as int;
    let ghost highg = range.high_val() as int;
    proof {
        lemma_probability_partition(*source_model, 0);
        lemma_symbol_exists(lowg, highg, counts, total, buf as int);
    }
    let mut lo: u32 = 0;
    let mut hi: u32 = source_model.eof();
    loop
        invariant
            lo <= hi,
            (hi as int) < source_model.num_symbols(),
            exists|s: int|
                lo as int <= s <= hi as int && contains_buf(lowg, highg, counts, total, s, buf as int),
        decreases hi - lo,
    {
        let mid: u32 = lo + (hi - lo) / 2;
        let low_high = range.calculate_range(mid, source_model);
        if low_high.0 <= buf && buf < low_high.1 {
            return mid;
        } else if buf >= low_high.1 {
            proof {
                assert forall|s: int|
                    lo as int <= s <= hi as int && contains_buf(
                        lowg,
                        highg,
                        counts,
                        total,
                        s,
                        buf as int,
                    ) implies s > mid as int by {
                    if s <= mid as int {
                        lemma_cum_nonneg(counts, s + 1);
                        lemma_cum_monotone(counts, s + 1, mid as int + 1);
                        lemma_scaled_mono(
                            lowg,
                            highg,
                            cum(counts, s + 1),
                            cum(counts, mid as int + 1),
                            total,
                        );
                    }
                }
            }
            lo = mid + 1;
        } else {
            proof {
                assert forall|s: int|
                    lo as int <= s <= hi as int && contains_buf(
                        lowg,
                        highg,
                        counts,
                        total,
                        s,
                        buf as int,
                    ) implies s < mid as int by {
                    if s >= mid as int {
                        lemma_cum_nonneg(counts, mid as int);
                        lemma_cum_monotone(counts, mid as int, s);
                        lemma_scaled_mono(lowg, highg, cum(counts, mid as int), cum(counts, s), total);
                    }
                }
            }
            hi = mid - 1;
        }
    }
}

/// Somewhere in `[0, n)` there is a symbol whose slice contains the buffer,
/// as long as the buffer sits under the `n`-th scaled bound.
proof fn lemma_symbol_exists_upto(
    low: int,
    high: int,
    counts: Seq<u64>,
    total: int,
    buf: int,
    n: int,
)
    requires
        1 <= n <= counts.len(),
        1 <= total,
        low <= high,
        scaled_bound(low, high, cum(counts, 0), total) <= buf,
        buf < scaled_bound(low, high, cum(counts, n), total),
    ensures
        exists|s: int| 0 <= s < n && contains_buf(low, high, counts, total, s, buf),
    decreases n,
{
    if buf >= scaled_bound(low, high, cum(counts, n - 1), total) {
        assert(contains_buf(low, high, counts, total, n - 1, buf));
    } else {
        lemma_symbol_exists_upto(low, high, counts, total, buf, n - 1);
    }
}

/// The scaled slices of all symbols tile `[low, high)`: every buffer value
/// inside the interval lies in exactly one symbol's slice.
pub proof fn lemma_symbol_exists(low: int, high: int, counts: Seq<u64>, total: int, buf: int)
    requires
        low < high,
        counts.len() >= 1,
        1 <= total,
        total == cum(counts, counts.len() as int),
        low <= buf < high,
    ensures
        exists|s: int| 0 <= s < counts.len() && contains_buf(low, high, counts, total, s, buf),
{
    assert((high - low) * 0 == 0) by (nonlinear_arith);
    assert(0int / total == 0) by {
        vstd::arithmetic::div_mod::lemma_div_of0(total);
    }
    assert(scaled_bound(low, high, cum(counts, 0), total) == low);
    assert((high - low) * total == total * (high - low)) by (nonlinear_arith);
    lemma_div_multiples_vanish(high - low, total);
    assert(scaled_bound(low, high, cum(counts, counts.len() as int), total) == high);
    lemma_symbol_exists_upto(low, high, counts, total, buf, counts.len() as int);
}

/// Two slices cannot both contain the buffer: the cumulative distribution
/// is monotone, so distinct symbols' slices are disjoint.
pub proof fn lemma_symbol_unique(
    low: int,
    high: int,
    counts: Seq<u64>,
    total: int,
    buf: int,
    s1: int,
    s2: int,
)
    requires
        0 <= s1 < counts.len(),
        0 <= s2 < counts.len(),
        low <= high,
        1 <= total,
        contains_buf(low, high, counts, total, s1, buf),
        contains_buf(low, high, counts, total, s2, buf),
    ensures
        s1 == s2,
{
    if s1 < s2 {
        lemma_cum_nonneg(counts, s1 + 1);
        lemma_cum_monotone(counts, s1 + 1, s2);
        lemma_scaled_mono(low, high, cum(counts, s1 + 1), cum(counts, s2), total);
    } else if s2 < s1 {
        lemma_cum_nonneg(counts, s2 + 1);
        lemma_cum_monotone(counts, s2 + 1, s1);
        lemma_scaled_mono(low, high, cum(counts, s2 + 1), cum(counts, s1), total);
    }
}

/// Shifting a bit into a buffer with headroom is doubling plus the bit.
proof fn lemma_shl1_or(x: u64, b: u64)
    by (bit_vector)
    requires
        x < 0x8000_0000_0000_0000u64,
        b <= 1,
    ensures
        (x << 1u64) | b == 2 * x + b,
{
}

/// Powers of two up to the 62nd fit under the top two bits of a word.
proof fn lemma_pow2_le_62(i: nat)
    requires
        i <= 62,
    ensures
        pow2(i) <= 0x4000_0000_0000_0000,
{
    lemma2_to64();
    lemma2_to64_rest();
    if i < 62 {
        lemma_pow2_strictly_increases(i, 62);
    }
}

} // verus!
