//! Whole-stream drivers for byte data.
//!
//! [`encode`] compresses a byte sequence with a fresh 257-symbol model (the
//! 256 byte values plus an appended EOF sentinel) at 63 bits of precision:
//! one encode and one model update per byte, then the EOF symbol, the flush
//! bits, and zero padding to a byte boundary.  [`decode`] reverses it with
//! an identically configured model and decoder.  The functions [`enc_run`]
//! and [`dec_run`] state both passes exactly, one folded coder step per
//! symbol.

use vstd::prelude::*;

use crate::bits::bits_value;
use crate::bits::bytes_bits;
use crate::bits::lemma_pack_unpack;
use crate::bits::BitSink;
use crate::bits::BitSource;
use crate::decoder::spec_decode;
use crate::decoder::DecodeError;
use crate::decoder::Decoder;
use crate::encoder::bit_run;
use crate::encoder::renorm_defer;
use crate::encoder::renorm_emit;
use crate::encoder::Encoder;
use crate::model::cum;
use crate::model::lemma_cum_entry_bound;
use crate::model::lemma_cum_update;
use crate::model::Model;
use crate::model::EOF;
use crate::range::scaled_bound;

verus! {

/// One encoder step: scale the symbol's cumulative slice into the interval
/// and renormalize.  Returns the new low, high and pending count, and the
/// emitted bits.
pub open spec fn enc_step(
    counts: Seq<u64>,
    low: int,
    high: int,
    half: int,
    quarter: int,
    three_quarter: int,
    pending: nat,
    sym: int,
) -> (int, int, nat, Seq<bool>) {
    let total = cum(counts, counts.len() as int);
    let l1 = scaled_bound(low, high, cum(counts, sym), total);
    let h1 = scaled_bound(low, high, cum(counts, sym + 1), total);
    let st1 = renorm_emit(l1, h1, half, pending);
    let st2 = renorm_defer(st1.0, st1.1, half, quarter, three_quarter, st1.2);
    (st2.0, st2.1, st2.2, st1.3)
}

/// The whole data pass of an encode session: one [`enc_step`] per byte,
/// with the symbol's count raised after each.  Returns the final counts,
/// low, high and pending count, and all emitted bits.
pub open spec fn enc_run(
    data: Seq<u8>,
    counts: Seq<u64>,
    low: int,
    high: int,
    half: int,
    quarter: int,
    three_quarter: int,
    pending: nat,
) -> (Seq<u64>, int, int, nat, Seq<bool>)
    decreases data.len(),
{
    if data.len() == 0 {
        (counts, low, high, pending, Seq::<bool>::empty())
    } else {
        let sym = data[0] as int;
        let st = enc_step(counts, low, high, half, quarter, three_quarter, pending, sym);
        let counts2 = counts.update(sym, (counts[sym] + 1) as u64);
        let rest = enc_run(data.skip(1), counts2, st.0, st.1, half, quarter, three_quarter, st.2);
        (rest.0, rest.1, rest.2, rest.3, st.3 + rest.4)
    }
}

/// The whole decode session: one [`spec_decode`] step per symbol, the
/// symbol's count raised after each, until the EOF symbol or a failed
/// read.  Returns the decoded bytes, without the EOF symbol.  A session
/// whose count total would overflow is abandoned as failed.
pub open spec fn dec_run(
    counts: Seq<u64>,
    eof: int,
    low: int,
    high: int,
    half: int,
    quarter: int,
    three_quarter: int,
    first: bool,
    buf: int,
    budget: int,
    prime_count: nat,
    src: Seq<bool>,
    pos: int,
) -> Option<Seq<u8>>
    decreases u64::MAX - cum(counts, counts.len() as int),
        when cum(counts, counts.len() as int) <= u64::MAX
        via dec_run_decreases
{
    let total = cum(counts, counts.len() as int);
    if total >= u64::MAX {
        None
    } else {
        match spec_decode(
            low,
            high,
            half,
            quarter,
            three_quarter,
            counts,
            total,
            eof,
            first,
            buf,
            budget,
            prime_count,
            src,
            pos,
        ) {
            Option::None => Option::None,
            Option::Some(t) => {
                let counts2 = counts.update(t.0, (counts[t.0] + 1) as u64);
                if !(0 <= t.0 < counts.len()) {
                    Option::None
                } else if t.0 == eof {
                    Option::Some(Seq::<u8>::empty())
                } else {
                    match dec_run(
                        counts2,
                        eof,
                        t.1,
                        t.2,
                        half,
                        quarter,
                        three_quarter,
                        false,
                        t.3,
                        t.4,
                        prime_count,
                        src,
                        t.5,
                    ) {
                        Option::None => Option::None,
                        Option::Some(rest) => Option::Some(seq![t.0 as u8] + rest),
                    }
                }
            },
        }
    }
}

#[via_fn]
proof fn dec_run_decreases(
    counts: Seq<u64>,
    eof: int,
    low: int,
    high: int,
    half: int,
    quarter: int,
    three_quarter: int,
    first: bool,
    buf: int,
    budget: int,
    prime_count: nat,
    src: Seq<bool>,
    pos: int,
) {
    let total = cum(counts, counts.len() as int);
    if total < u64::MAX {
        match spec_decode(
            low,
            high,
            half,
            quarter,
            three_quarter,
            counts,
            total,
            eof,
            first,
            buf,
            budget,
            prime_count,
            src,
            pos,
        ) {
            Option::None => {},
            Option::Some(t) => {
                if 0 <= t.0 < counts.len() && t.0 != eof {
                    lemma_cum_entry_bound(counts, t.0);
                    lemma_cum_update(
                        counts,
                        t.0,
                        (counts[t.0] + 1) as u64,
                        counts.len() as int,
                    );
                }
            },
        }
    }
}

/// The initial counts of a fresh 257-symbol model: one per symbol.
pub open spec fn fresh_counts() -> Seq<u64> {
    Seq::new(257, |i: int| 1u64)
}

/// Compresses `data`: a fresh `Model::new(256, EOF::EndAddOne)` and a
/// 63-bit encoder, one encode and one update per byte, then the EOF
/// symbol, the flush bits, and zero padding to the next byte boundary,
/// packed most significant bit first.  The result is exactly the
/// [`enc_run`] fold over the input.
#[verifier::loop_isolation(false)]
pub fn encode(data: &Vec<u8>) -> (r: Vec<u8>)
    requires
        data@.len() <= 0x0008_0000_0000_0000,
    ensures
        ({
            let cap = 0x8000_0000_0000_0000int;
            let half = 0x4000_0000_0000_0000int;
            let quarter = 0x2000_0000_0000_0000int;
            let three_quarter = 0x6000_0000_0000_0000int;
            let run = enc_run(data@, fresh_counts(), 0, cap, half, quarter, three_quarter, 0);
            let eof_step = enc_step(run.0, run.1, run.2, half, quarter, three_quarter, run.3, 256);
            let bits = run.4 + eof_step.3 + bit_run(!(eof_step.0 <= quarter), (eof_step.2 + 1) as nat);
            let padded = bits + Seq::new((((8 - bits.len() as int % 8) % 8)) as nat, |i: int| false);
            &&& r@.len() * 8 == padded.len()
            &&& forall|i: int|
                0 <= i < r@.len() ==> #[trigger] r@[i] as int == bits_value(
                    padded.subrange(8 * i, 8 * i + 8),
                )
            &&& bytes_bits(r@) == padded
        }),
{
    let ghost cap = 0x8000_0000_0000_0000int;
    let ghost halfg = 0x4000_0000_0000_0000int;
    let ghost quarterg = 0x2000_0000_0000_0000int;
    let ghost tqg = 0x6000_0000_0000_0000int;

    let mut model = Model::new(256, EOF::EndAddOne);
    let mut sink = BitSink::new();
    let mut encoder = Encoder::new(63);
    proof {
        assert(1u64 << 63u64 == 0x8000_0000_0000_0000u64) by (bit_vector);
        assert(model.counts() =~= fresh_counts());
    }

    let n: usize = data.len();
    let mut i: usize = 0;
    proof {
        assert(data@.skip(0) =~= data@);
        let rest0 = enc_run(data@, fresh_counts(), 0, cap, halfg, quarterg, tqg, 0);
        assert(sink@ + rest0.4 =~= rest0.4);
    }
    while i < n
        invariant
            i <= n,
            model.wf(),
            encoder.wf(),
            model.num_symbols() == 257,
            model.eof_val() == 256,
            model.total_val() == 257 + i,
            encoder.interval().half_val() as int == halfg,
            encoder.interval().quarter_val() as int == quarterg,
            encoder.interval().three_quarter_val() as int == tqg,
            encoder.pending_bits <= 64 * (i as int),
            enc_run(data@, fresh_counts(), 0, cap, halfg, quarterg, tqg, 0) == ({
                let rest = enc_run(
                    data@.skip(i as int),
                    model.counts(),
                    encoder.interval().low_val() as int,
                    encoder.interval().high_val() as int,
                    halfg,
                    quarterg,
                    tqg,
                    encoder.pending_bits as nat,
                );
                (rest.0, rest.1, rest.2, rest.3, sink@ + rest.4)
            }),
        decreases n - i,
    {
        let sym: u32 = data[i] as u32;
        let ghost counts_pre = model.counts();
        let ghost sink_pre = sink@;
        let ghost low_pre = encoder.interval().low_val() as int;
        let ghost high_pre = encoder.interval().high_val() as int;
        let ghost pending_pre = encoder.pending_bits as nat;
        encoder.encode(sym, &model, &mut sink);
        model.update_symbol(sym);
        proof {
            assert(data@.skip(i as int)[0] == data@[i as int]);
            assert(data@.skip(i as int).skip(1) =~= data@.skip(i as int + 1));
            let st = enc_step(
                counts_pre,
                low_pre,
                high_pre,
                halfg,
                quarterg,
                tqg,
                pending_pre,
                sym as int,
            );
            assert(sink@ == sink_pre + st.3);
            let rest_new = enc_run(
                data@.skip(i as int + 1),
                model.counts(),
                encoder.interval().low_val() as int,
                encoder.interval().high_val() as int,
                halfg,
                quarterg,
                tqg,
                encoder.pending_bits as nat,
            );
            assert((sink_pre + st.3) + rest_new.4 =~= sink_pre + (st.3 + rest_new.4));
        }
        i = i + 1;
    }

    proof {
        assert(data@.skip(n as int) =~= Seq::<u8>::empty());
    }
    let ghost run = enc_run(data@, fresh_counts(), 0, cap, halfg, quarterg, tqg, 0);
    proof {
        assert(run.4 =~= sink@ + Seq::<bool>::empty());
        assert(run.4 =~= sink@);
    }

    let eof_sym: u32 = model.eof();
    let ghost counts_eof = model.counts();
    encoder.encode(eof_sym, &model, &mut sink);
    proof {
        let st1 = renorm_emit(
            scaled_bound(run.1, run.2, cum(counts_eof, 256), model.total_val() as int),
            scaled_bound(run.1, run.2, cum(counts_eof, 257), model.total_val() as int),
            halfg,
            run.3,
        );
        assert(sink@ =~= run.4 + st1.3);
    }
    encoder.flush(&mut sink);
    proof {
        let eof_step = enc_step(run.0, run.1, run.2, halfg, quarterg, tqg, run.3, 256);
        assert(sink@ =~= (run.4 + eof_step.3) + bit_run(
            !(eof_step.0 <= quarterg),
            (eof_step.2 + 1) as nat,
        ));
    }
    sink.pad_to_byte();
    let result = sink.to_bytes();
    proof {
        lemma_pack_unpack(sink@, result@);
    }
    result
}

/// Decompresses `data` with a model and decoder configured exactly as
/// [`encode`]'s: decodes symbols, updating the model after each, until the
/// EOF symbol (not part of the result) or until the input and the
/// substitution budget are exhausted.  The result is exactly the
/// [`dec_run`] fold over the input bits.
#[verifier::loop_isolation(false)]
pub fn decode(data: &Vec<u8>) -> (r: Result<Vec<u8>, DecodeError>)
    ensures
        ({
            let out = dec_run(
                fresh_counts(),
                256,
                0,
                0x8000_0000_0000_0000int,
                0x4000_0000_0000_0000int,
                0x2000_0000_0000_0000int,
                0x6000_0000_0000_0000int,
                true,
                0,
                63,
                63,
                bytes_bits(data@),
                0,
            );
            match r {
                Result::Ok(v) => out == Some(v@),
                Result::Err(e) => out is None && e == DecodeError::UnexpectedEof,
            }
        }),
{
    let ghost cap = 0x8000_0000_0000_0000int;
    let ghost halfg = 0x4000_0000_0000_0000int;
    let ghost quarterg = 0x2000_0000_0000_0000int;
    let ghost tqg = 0x6000_0000_0000_0000int;
    let ghost src = bytes_bits(data@);

    let mut model = Model::new(256, EOF::EndAddOne);
    let mut source = BitSource::from_bytes(data);
    let mut decoder = Decoder::new(63);
    let mut out: Vec<u8> = Vec::new();
    proof {
        assert(1u64 << 63u64 == 0x8000_0000_0000_0000u64) by (bit_vector);
        assert(model.counts() =~= fresh_counts());
        let full = dec_run(fresh_counts(), 256, 0, cap, halfg, quarterg, tqg, true, 0, 63, 63, src, 0);
        match full {
            Option::None => {},
            Option::Some(t) => {
                assert(out@ + t =~= t);
            },
        }
    }

    while !decoder.finished()
        invariant
            model.wf(),
            decoder.wf(),
            source.wf(),
            source@ == src,
            model.num_symbols() == 257,
            model.eof_val() == 256,
            decoder.range.half_val() as int == halfg,
            decoder.range.quarter_val() as int == quarterg,
            decoder.range.three_quarter_val() as int == tqg,
            decoder.first_time ==> decoder.precision == 63,
            !decoder.finished ==> dec_run(
                fresh_counts(),
                256,
                0,
                cap,
                halfg,
                quarterg,
                tqg,
                true,
                0,
                63,
                63,
                src,
                0,
            ) == ({
                let rest = dec_run(
                    model.counts(),
                    256,
                    decoder.range.low_val() as int,
                    decoder.range.high_val() as int,
                    halfg,
                    quarterg,
                    tqg,
                    decoder.first_time,
                    decoder.input_buffer as int,
                    decoder.precision as int,
                    63,
                    src,
                    source.position(),
                );
                match rest {
                    Option::None => Option::<Seq<u8>>::None,
                    Option::Some(tail) => Option::Some(out@ + tail),
                }
            }),
            decoder.finished ==> dec_run(
                fresh_counts(),
                256,
                0,
                cap,
                halfg,
                quarterg,
                tqg,
                true,
                0,
                63,
                63,
                src,
                0,
            ) == Option::Some(out@),
        decreases u64::MAX - model.total_val(),
    {
        if model.total() == u64::MAX {
            return Result::Err(DecodeError::UnexpectedEof);
        }
        let sym: u32 = match decoder.decode(&model, &mut source) {
            Result::Ok(s) => s,
            Result::Err(e) => {
                return Result::Err(e);
            },
        };
        model.update_symbol(sym);
        let ghost out_pre = out@;
        if sym != model.eof() {
            out.push(sym as u8);
        }
        proof {
            if sym as int == 256 {
                assert(out@ + Seq::<u8>::empty() =~= out@);
            } else {
                let rest_new = dec_run(
                    model.counts(),
                    256,
                    decoder.range.low_val() as int,
                    decoder.range.high_val() as int,
                    halfg,
                    quarterg,
                    tqg,
                    decoder.first_time,
                    decoder.input_buffer as int,
                    decoder.precision as int,
                    63,
                    src,
                    source.position(),
                );
                match rest_new {
                    Option::None => {},
                    Option::Some(tail) => {
                        assert(out_pre + (seq![sym as u8] + tail) =~= out@ + tail);
                    },
                }
            }
        }
    }
    Result::Ok(out)
}

} // verus!
