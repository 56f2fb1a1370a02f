use chimp_lib::bitstream::InputBitStream;
use chimp_lib::Decode;
use chimp_lib::{aligned, chimp, chimpn, gorilla};

fn gorilla_round_trip(values: &[f64]) -> Vec<f64> {
    let mut encoder = gorilla::Encoder::new();
    for val in values {
        encoder.insert_value(val.to_bits());
    }
    let (words, _) = encoder.close();
    let mut decoder = gorilla::Decoder::new(InputBitStream::new(words));
    let mut datapoints = Vec::new();
    while let Ok(val) = decoder.get_next() {
        datapoints.push(f64::from_bits(val));
    }
    datapoints
}

fn chimp_round_trip(values: &[f64]) -> Vec<f64> {
    let mut encoder = chimp::Encoder::new();
    for val in values {
        encoder.encode(val.to_bits());
    }
    let (words, _) = encoder.close();
    let mut decoder = chimp::Decoder::new(InputBitStream::new(words));
    let mut datapoints = Vec::new();
    while let Ok(val) = decoder.get_next() {
        datapoints.push(f64::from_bits(val));
    }
    datapoints
}

fn chimpn_round_trip(values: &[f64]) -> Vec<f64> {
    let mut encoder = chimpn::Encoder::new();
    for val in values {
        encoder.encode(val.to_bits());
    }
    let (words, _) = encoder.close();
    let mut decoder = chimpn::Decoder::new(InputBitStream::new(words));
    let mut datapoints = Vec::new();
    while let Ok(val) = decoder.get_next() {
        datapoints.push(f64::from_bits(val));
    }
    datapoints
}

fn patas_round_trip(values: &[f64]) -> Vec<f64> {
    let mut encoder = aligned::Encoder::new();
    for val in values {
        encoder.encode(val.to_bits());
    }
    let (words, _) = encoder.close();
    let mut decoder = aligned::Decoder::new(InputBitStream::new(words));
    let mut datapoints = Vec::new();
    while let Ok(val) = decoder.get_next() {
        datapoints.push(f64::from_bits(val));
    }
    datapoints
}

#[test]
fn gorilla_simple_test() {
    let float_vec: Vec<f64> = [
        1.0, 1.0, 16.42, 1.0, 0.00123, 24435_f64, 0_f64, 420.69, 64.2, 49.4, 48.8, 46.4,
    ]
    .to_vec();
    assert_eq!(gorilla_round_trip(&float_vec), float_vec);
}

#[test]
fn chimp_simple_test() {
    let float_vec: Vec<f64> = [
        1.0, 1.0, 16.42, 1.0, 0.00123, 24435_f64, 0_f64, 420.69, 64.2, 49.4, 48.8, 46.4, 64.2,
        49.4, 48.8, 46.4, 47.9, 48.7, 48.9, 48.8, 46.4, 47.9, 48.7, 48.9, 123.0, 123.0, 332232.,
        124642356., 1.1111111,
    ]
    .to_vec();
    assert_eq!(chimp_round_trip(&float_vec), float_vec);
}

#[test]
fn chimpn_simple_test() {
    let float_vec: Vec<f64> = [
        49.4, 48.8, 46.4, 47.9, 48.7, 48.9, 48.8, 46.4, 47.9, 48.7, 48.9,
    ]
    .to_vec();
    assert_eq!(chimpn_round_trip(&float_vec), float_vec);
}

#[test]
fn aligned_simple_test() {
    let float_vec: Vec<f64> = [
        49.4, 48.8, 46.4, 47.9, 48.7, 48.9, 48.8, 46.4, 47.9, 48.7, 48.9,
    ]
    .to_vec();
    assert_eq!(patas_round_trip(&float_vec), float_vec);
}

#[test]
fn chimpn_mixed_values() {
    // the long mixed sequence through the ring-buffer codecs
    let float_vec: Vec<f64> = [
        1.0, 1.0, 16.42, 1.0, 0.00123, 24435_f64, 0_f64, 420.69, 64.2, 49.4, 48.8, 46.4, 64.2,
        49.4, 48.8, 46.4, 47.9, 48.7, 48.9, 48.8, 46.4, 47.9, 48.7, 48.9, 123.0, 123.0, 332232.,
        124642356., 1.1111111,
    ]
    .to_vec();
    assert_eq!(chimpn_round_trip(&float_vec), float_vec);
}

#[test]
fn gorilla_mixed_values() {
    let float_vec: Vec<f64> = [1.0, 16.42, 1.0, 0.00123, 24435_f64, 0_f64, 420.69].to_vec();
    assert_eq!(gorilla_round_trip(&float_vec), float_vec);
}

#[test]
fn single_sample_all_codecs() {
    let v = vec![42.375_f64];
    assert_eq!(gorilla_round_trip(&v), v);
    assert_eq!(chimp_round_trip(&v), v);
    assert_eq!(chimpn_round_trip(&v), v);
    assert_eq!(patas_round_trip(&v), v);
}

#[test]
fn single_sample_is_written_raw() {
    // the first sample stands raw in the first 64 bits of the closed buffer
    let x = 42.375_f64;
    let mut encoder = gorilla::Encoder::new();
    encoder.insert_value(x.to_bits());
    let (words, _) = encoder.close();
    assert_eq!(words[0], x.to_bits());

    let mut encoder = chimp::Encoder::new();
    encoder.encode(x.to_bits());
    let (words, _) = encoder.close();
    assert_eq!(words[0], x.to_bits());

    let mut encoder = chimpn::Encoder::new();
    encoder.encode(x.to_bits());
    let (words, _) = encoder.close();
    assert_eq!(words[0], x.to_bits());

    let mut encoder = aligned::Encoder::new();
    encoder.encode(x.to_bits());
    let (words, _) = encoder.close();
    assert_eq!(words[0], x.to_bits());
}

#[test]
fn constant_input_all_codecs() {
    let v = vec![7.25_f64, 7.25, 7.25, 7.25];
    assert_eq!(gorilla_round_trip(&v), v);
    assert_eq!(chimp_round_trip(&v), v);
    assert_eq!(chimpn_round_trip(&v), v);
    assert_eq!(patas_round_trip(&v), v);
}

#[test]
fn constant_input_repeat_costs() {
    // gorilla: 64 raw bits, then one zero bit per repeat
    let x = 7.25_f64;
    let mut encoder = gorilla::Encoder::new();
    for _ in 0..4 {
        encoder.insert_value(x.to_bits());
    }
    let mut probe = gorilla::Encoder::new();
    probe.insert_value(x.to_bits());
    // 3 repeats cost 3 bits: the closed sizes differ by exactly 3
    let (_, bits_four) = encoder.close();
    let (_, bits_one) = probe.close();
    assert_eq!(bits_four, bits_one + 3);

    // patas: each repeat costs one 16-bit descriptor whose low 9 bits are
    // zero and whose index points at the ring slot of x; four samples plus
    // the end marker fit the first two words
    let mut encoder = aligned::Encoder::new();
    for _ in 0..4 {
        encoder.encode(x.to_bits());
    }
    let (words, _) = encoder.close();
    // word 0: 64 raw bits of x
    assert_eq!(words[0], x.to_bits());
    // word 1: descriptors with ring indices 0, 1, 2 and zero significant
    // bytes code and trail, then the 0xFFFF end marker
    let expected = (0u64 << 48) | ((1u64 << 9) << 32) | ((2u64 << 9) << 16) | 0xFFFF;
    assert_eq!(words[1], expected);
}

#[test]
fn alternating_classes_round_trip() {
    // leading-zero classes change from sample to sample: the new-class path
    let float_vec: Vec<f64> = [
        1.0, 1.0e300, 1.5, 3.0e-200, 2.0, -1.0, 1.0e300, 0.5, 1.0,
    ]
    .to_vec();
    assert_eq!(gorilla_round_trip(&float_vec), float_vec);
    assert_eq!(chimp_round_trip(&float_vec), float_vec);
    assert_eq!(chimpn_round_trip(&float_vec), float_vec);
    assert_eq!(patas_round_trip(&float_vec), float_vec);
}

#[test]
fn signed_zero_is_preserved() {
    let v = vec![0.0_f64, -0.0, 0.0];
    for decoded in [
        gorilla_round_trip(&v),
        chimp_round_trip(&v),
        chimpn_round_trip(&v),
        patas_round_trip(&v),
    ] {
        assert_eq!(decoded.len(), 3);
        assert_eq!(decoded[0].to_bits(), 0.0_f64.to_bits());
        assert_eq!(decoded[1].to_bits(), (-0.0_f64).to_bits());
        assert_eq!(decoded[2].to_bits(), 0.0_f64.to_bits());
    }
}

#[test]
fn monotone_temperatures_compress() {
    // 10,000 slowly rising temperatures: every codec beats raw storage
    let mut values: Vec<f64> = Vec::new();
    for i in 0..10000u32 {
        values.push(20.0 + ((i / 8) as f64) * 0.01);
    }
    let raw_bits = 64 * values.len() as u64;

    let mut enc = gorilla::Encoder::new();
    for v in &values {
        enc.insert_value(v.to_bits());
    }
    let (_, bits) = enc.close();
    assert!(bits < raw_bits);
    assert_eq!(gorilla_round_trip(&values), values);

    let mut enc = chimp::Encoder::new();
    for v in &values {
        enc.encode(v.to_bits());
    }
    let (_, bits) = enc.close();
    assert!(bits < raw_bits);
    assert_eq!(chimp_round_trip(&values), values);

    let mut enc = chimpn::Encoder::new();
    for v in &values {
        enc.encode(v.to_bits());
    }
    let (_, bits) = enc.close();
    assert!(bits < raw_bits);
    assert_eq!(chimpn_round_trip(&values), values);

    let mut enc = aligned::Encoder::new();
    for v in &values {
        enc.encode(v.to_bits());
    }
    let (_, bits) = enc.close();
    assert!(bits < raw_bits);
    assert_eq!(patas_round_trip(&values), values);
}

#[test]
fn truncated_stream_yields_eof() {
    // decode a buffer cut off mid-stream: EOF, idempotently
    let mut encoder = chimp::Encoder::new();
    for v in [1.0_f64, 2.0, 3.0, 4.0] {
        encoder.encode(v.to_bits());
    }
    let (words, _) = encoder.close();
    let truncated = vec![words[0]];
    let mut decoder = chimp::Decoder::new(InputBitStream::new(truncated));
    let mut n = 0;
    while let Ok(_) = decoder.get_next() {
        n += 1;
    }
    assert!(n <= 4);
    assert!(decoder.get_next().is_err());
    assert!(decoder.get_next().is_err());
}

#[test]
fn encode_vec_matches_encode() {
    let values: Vec<u64> = [49.4_f64, 48.8, 46.4, 47.9, 48.7]
        .iter()
        .map(|v| v.to_bits())
        .collect();

    let enc = gorilla::Encoder::encode_vec(&values);
    let mut enc2 = gorilla::Encoder::new();
    for &v in &values {
        enc2.encode(v);
    }
    assert_eq!(enc.close(), enc2.close());

    let enc = chimp::Encoder::encode_vec(&values);
    let mut enc2 = chimp::Encoder::new();
    for &v in &values {
        enc2.encode(v);
    }
    assert_eq!(enc.close(), enc2.close());

    let enc = chimpn::Encoder::encode_vec(&values);
    let mut enc2 = chimpn::Encoder::new();
    for &v in &values {
        enc2.encode(v);
    }
    assert_eq!(enc.close(), enc2.close());

    let enc = aligned::Encoder::encode_vec(&values);
    let mut enc2 = aligned::Encoder::new();
    for &v in &values {
        enc2.encode(v);
    }
    assert_eq!(enc.close(), enc2.close());
}

#[test]
fn bit_into_64() {
    assert_eq!(chimp_lib::Bit::Zero.into_64(), 0);
    assert_eq!(chimp_lib::Bit::One.into_64(), 1);
}

#[test]
fn leading_zero_tables() {
    // the quantization table and its 3-bit classes, at the breakpoints
    for (l, rounded, class) in [
        (0u32, 0u32, 0u32),
        (7, 0, 0),
        (8, 8, 1),
        (11, 8, 1),
        (12, 12, 2),
        (16, 16, 3),
        (18, 18, 4),
        (20, 20, 5),
        (22, 22, 6),
        (24, 24, 7),
        (63, 24, 7),
    ] {
        assert_eq!(chimp_lib::leading_round(l), rounded);
        assert_eq!(chimp_lib::leading_enc(rounded), class);
        assert_eq!(chimp_lib::leading_dec(class), rounded);
    }
}

#[test]
fn patas_stays_total_on_low_bit_steps() {
    // A nonzero XOR with no trailing zeros and at most eight significant
    // bits collapses to the descriptor shape reserved for a zero XOR, so
    // the wire format cannot carry it faithfully; the decoder must still
    // terminate cleanly without panicking.
    let a = 1.0_f64;
    let b = f64::from_bits(a.to_bits() ^ 1);
    let mut encoder = aligned::Encoder::new();
    encoder.encode(a.to_bits());
    encoder.encode(b.to_bits());
    let (words, _) = encoder.close();
    let mut decoder = aligned::Decoder::new(InputBitStream::new(words));
    let mut n = 0;
    while let Ok(_) = decoder.get_next() {
        n += 1;
        assert!(n < 1000);
    }
    assert!(decoder.get_next().is_err());
}

#[test]
fn close_returns_exact_bit_count() {
    // a fresh encoder closes with exactly the sentinel framing written:
    // the count reflects bits written, not whole flushed words
    let (words, bits) = gorilla::Encoder::new().close();
    assert_eq!(bits, 65); // 64 raw sentinel bits + 1 padding zero bit
    assert_eq!(words.len(), 2);

    let (words, bits) = chimp::Encoder::new().close();
    assert_eq!(bits, 65); // 64 raw sentinel bits + 1 padding zero bit
    assert_eq!(words.len(), 2);

    let (words, bits) = chimpn::Encoder::new().close();
    assert_eq!(bits, 65);
    assert_eq!(words.len(), 2);

    let (words, bits) = aligned::Encoder::new().close();
    assert_eq!(bits, 17); // 16-bit end descriptor + 1 padding zero bit
    assert_eq!(words.len(), 1);
}
