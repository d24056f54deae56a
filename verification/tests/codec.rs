use arith_coder::codec;

#[test]
fn round_trip_text() {
    let data: Vec<u8> = b"abracadabra, abracadabra, abracadabra".to_vec();
    let compressed = codec::encode(&data);
    assert_eq!(codec::decode(&compressed), Ok(data));
}

#[test]
fn round_trip_empty() {
    let data: Vec<u8> = Vec::new();
    let compressed = codec::encode(&data);
    assert_eq!(codec::decode(&compressed), Ok(data));
}

#[test]
fn round_trip_all_byte_values() {
    let mut data: Vec<u8> = Vec::new();
    for b in 0..=255u8 {
        data.push(b);
    }
    for b in 0..=255u8 {
        data.push(255 - b);
    }
    let compressed = codec::encode(&data);
    assert_eq!(codec::decode(&compressed), Ok(data));
}

#[test]
fn round_trip_single_byte() {
    let data: Vec<u8> = vec![42];
    let compressed = codec::encode(&data);
    assert_eq!(codec::decode(&compressed), Ok(data));
}

#[test]
fn round_trip_long_repetitive() {
    let mut data: Vec<u8> = Vec::new();
    for i in 0..5000usize {
        data.push((i % 7) as u8);
    }
    let compressed = codec::encode(&data);
    // A heavily repetitive stream compresses well below its raw size.
    assert!(compressed.len() < data.len() / 2);
    assert_eq!(codec::decode(&compressed), Ok(data));
}
