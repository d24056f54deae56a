use arith_coder::bits::{BitSink, BitSource};
use arith_coder::decoder::DecodeError;
use arith_coder::{Decoder, Encoder, Model, EOF};

#[test]
fn decoder_e2e() {
    let input: Vec<u8> = vec![184, 96, 208];
    let mut source_model = Model::new(10, EOF::End);
    let mut output: Vec<u32> = Vec::new();
    let mut in_reader = BitSource::from_bytes(&input);

    let mut decoder = Decoder::new(30);
    while !decoder.finished() {
        let sym = decoder.decode(&source_model, &mut in_reader).unwrap();
        source_model.update_symbol(sym);
        if sym != source_model.eof() {
            output.push(sym);
        }
    }
    assert_eq!(output, vec![7, 2, 2, 2, 7]);
}

#[test]
fn truncated_padding_still_decodes() {
    // Encode [7, 2, 2, 2, 7] but hand the decoder only the bits actually
    // emitted, without the byte padding: the missing bits are covered by
    // the zero-substitution budget.
    let mut encoder = Encoder::new(30);
    let mut enc_model = Model::new(9, EOF::EndAddOne);
    let mut sink = BitSink::new();
    for x in [7u32, 2, 2, 2, 7] {
        encoder.encode(x, &enc_model, &mut sink);
        enc_model.update_symbol(x);
    }
    encoder.encode(enc_model.eof(), &enc_model, &mut sink);
    encoder.flush(&mut sink);
    let unpadded = sink.bits.clone();
    assert!(unpadded.len() < 24);

    let mut source = BitSource::from_bits(unpadded);
    let mut dec_model = Model::new(10, EOF::End);
    let mut decoder = Decoder::new(30);
    let mut output: Vec<u32> = Vec::new();
    while !decoder.finished() {
        let sym = decoder.decode(&dec_model, &mut source).unwrap();
        dec_model.update_symbol(sym);
        if sym != dec_model.eof() {
            output.push(sym);
        }
    }
    assert_eq!(output, vec![7, 2, 2, 2, 7]);
}

#[test]
fn exhausted_budget_fails() {
    // With no input at all and an EOF symbol the zero bits never select,
    // the decoder substitutes zeros until its budget of `precision` bits
    // is spent, then reports the unexpected end of the stream.
    let empty: Vec<u8> = Vec::new();
    let mut source = BitSource::from_bytes(&empty);
    let mut model = Model::new(4, EOF::End);
    let mut decoder = Decoder::new(16);
    let mut failed = false;
    for _ in 0..64 {
        match decoder.decode(&model, &mut source) {
            Ok(sym) => {
                assert_ne!(sym, model.eof());
                model.update_symbol(sym);
            }
            Err(e) => {
                assert_eq!(e, DecodeError::UnexpectedEof);
                failed = true;
                break;
            }
        }
    }
    assert!(failed);
}

#[test]
fn source_reports_exhaustion() {
    let bytes: Vec<u8> = vec![0b1010_0000];
    let mut source = BitSource::from_bytes(&bytes);
    assert_eq!(source.read_bit(), Some(true));
    assert_eq!(source.read_bit(), Some(false));
    assert_eq!(source.read_bit(), Some(true));
    for _ in 3..8 {
        assert_eq!(source.read_bit(), Some(false));
    }
    assert_eq!(source.read_bit(), None);
}
