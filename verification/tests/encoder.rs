use arith_coder::bits::BitSink;
use arith_coder::{Encoder, Model, EOF};

#[test]
fn encoder_e2e() {
    let mut encoder = Encoder::new(30);
    let mut source_model = Model::new(9, EOF::EndAddOne);
    let mut out_writer = BitSink::new();
    let to_encode: [u32; 5] = [7, 2, 2, 2, 7];
    for x in &to_encode {
        encoder.encode(*x, &source_model, &mut out_writer);
        source_model.update_symbol(*x);
    }
    encoder.encode(source_model.eof(), &source_model, &mut out_writer);
    encoder.flush(&mut out_writer);
    out_writer.pad_to_byte();
    assert_eq!(out_writer.to_bytes(), vec![184, 96, 208]);
}

#[test]
fn sink_packs_bits_msb_first() {
    let mut sink = BitSink::new();
    for bit in [true, false, true, true, false, false, true, false] {
        sink.write_bit(bit);
    }
    assert_eq!(sink.to_bytes(), vec![178]);
}

#[test]
fn sink_pads_with_zeros() {
    let mut sink = BitSink::new();
    sink.write_bit(true);
    sink.write_bit(true);
    sink.pad_to_byte();
    assert_eq!(sink.len(), 8);
    assert_eq!(sink.to_bytes(), vec![192]);
    sink.pad_to_byte();
    assert_eq!(sink.len(), 8);
}

#[test]
fn flush_emits_opposite_pending_bits() {
    let mut encoder = Encoder::new(8);
    let mut sink = BitSink::new();
    encoder.flush(&mut sink);
    // A fresh interval has low = 0, at the bottom quarter: flush emits 0,
    // then the one deferred bit as its opposite.
    assert_eq!(sink.bits, vec![false, true]);
}
