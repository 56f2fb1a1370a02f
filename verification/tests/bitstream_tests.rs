use chimp_lib::bitstream::{Error, InputBitStream, OutputBitStream};

#[test]
fn write_bit() {
    let mut b = OutputBitStream::new();

    for i in 0..8 {
        // 0101_0101
        b.write_bit(i % 2);
    }
    let words = b.close();
    assert_eq!(words[0], 0b0101_0101 << 56);
}

#[test]
fn write_byte() {
    let mut b = OutputBitStream::new();
    b.write_byte(0xAB);
    b.write_byte(0xCD);
    let words = b.close();
    assert_eq!(words.len(), 1);
    assert_eq!(words[0], 0xABCD << 48);
}

#[test]
fn write_bits() {
    let mut b = OutputBitStream::new();
    b.write_bits(0b1011, 4);
    b.write_bits(0, 0);
    b.write_bits(0xFF, 8);
    let words = b.close();
    assert_eq!(words.len(), 1);
    assert_eq!(words[0], 0b1011_1111_1111 << 52);
}

#[test]
fn write_and_close() {
    let mut b = OutputBitStream::new();
    for i in 0..8 {
        b.write_bit(i % 3); // 0100_1001
    }
    // 0001
    b.write_bits(1, 4);
    // 0 * 16
    b.write_bits(0, 16);
    // 11001
    b.write_bits(25, 5);
    // 1000101
    b.write_bits(69, 7);

    b.write_bit(1);

    b.write_bits(0b1000_1110, 8);
    b.write_bits(0b0100_1001, 8);
    b.write_bits(0b0000_0110, 8);
    b.write_bit(1);
    b.write_bits(0b101, 3);
    let slice = b.close();

    assert_eq!(slice.len(), 2);

    let mut r = InputBitStream::new(slice);
    assert_eq!(r.read_bits(4).unwrap(), 0b0100);
    assert_eq!(r.read_bits(1).unwrap(), 0b1);
    assert_eq!(r.read_bits(1).unwrap(), 0b0);
    assert_eq!(r.read_bits(2).unwrap(), 0b01);

    assert_eq!(r.read_bits(4).unwrap(), 1);
    assert_eq!(r.read_bits(21).unwrap(), 0b11001);
}

#[test]
fn write_read() {
    let mut b = OutputBitStream::new();
    b.write_bits(1.0_f64.to_bits(), 64);
    b.write_bits(0b1011, 4);

    let mut r = InputBitStream::new(b.close());
    assert_eq!(r.read_bits(64).unwrap(), 1.0_f64.to_bits());
    assert_eq!(r.read_bits(4).unwrap(), 0b1011);
    assert_eq!(r.read_bits(60).unwrap(), 0);
}

#[test]
fn read_past_end_is_eof() {
    let mut r = InputBitStream::new(Vec::new());
    assert_eq!(r.read_bit(), Err(Error::EOF));
    assert_eq!(r.read_bits(1), Err(Error::EOF));

    let mut b = OutputBitStream::new();
    b.write_bits(0x5A, 8);
    let mut r = InputBitStream::new(b.close());
    // the single closed word holds 64 bits; consume them all
    assert_eq!(r.read_bits(64).unwrap(), 0x5A << 56);
    // past the end: EOF, and no partial data is consumed
    assert_eq!(r.read_bits(7), Err(Error::EOF));
    assert_eq!(r.read_bit(), Err(Error::EOF));
}

#[test]
fn zero_width_write_changes_nothing() {
    let mut a = OutputBitStream::new();
    let mut b = OutputBitStream::new();
    a.write_bits(0b110, 3);
    b.write_bits(0b110, 3);
    a.write_bits(u64::MAX, 0);
    a.write_bits(0, 0);
    a.write_bit(1);
    b.write_bit(1);
    assert_eq!(a.close(), b.close());
}

#[test]
fn fields_cross_word_boundaries() {
    // widths that force fields to straddle the 64-bit word boundary
    let fields: Vec<(u64, u32)> = vec![
        (0x1FFF_FFFF_FFFF, 45),
        (0b101, 3),
        (0xFFFF_FFFF_FFFF_FFFF, 64),
        (0, 1),
        (0x12345, 17),
        (1, 64),
    ];
    let mut w = OutputBitStream::new();
    for &(v, k) in &fields {
        w.write_bits(v, k);
    }
    let mut r = InputBitStream::new(w.close());
    for &(v, k) in &fields {
        assert_eq!(r.read_bits(k).unwrap(), v);
    }
}
