use build_your_own::bits::{Bits, BitsReader, BitsWriter};

#[test]
fn bit_write_and_read() {
    let mut bits = Bits::empty();
    bits = bits.add(true);
    bits = bits.add(true);
    bits = bits.add(false);
    bits = bits.add(true);
    bits = bits.add(false);
    bits = bits.add(true);
    bits = bits.add(false);
    bits = bits.add(true);
    let mut bits2 = Bits::empty();
    bits2 = bits2.add(false);
    bits2 = bits2.add(true);
    let mut writer = BitsWriter::new(Vec::new());
    writer.write(&bits);
    writer.write(&bits2);
    let output = writer.final_flush_with_offset();

    let mut reader = BitsReader::new(output).expect("a complete stream");
    assert_eq!(reader.read(), true);
    assert_eq!(reader.read(), true);
    assert_eq!(reader.read(), false);
    assert_eq!(reader.read(), true);
    assert_eq!(reader.read(), false);
    assert_eq!(reader.read(), true);
    assert_eq!(reader.read(), false);
    assert_eq!(reader.read(), true);
    assert_eq!(reader.read(), false);
    assert_eq!(reader.read(), true);
}

#[test]
fn bits_are_left_justified() {
    let bits = Bits::empty().add(true).add(false).add(true);
    assert_eq!(bits.data, 0b1010_0000_0000_0000_0000_0000_0000_0000);
    assert_eq!(bits.amount_of_bits, 3);
    let byte = Bits::byte(0x5a);
    assert_eq!(byte.data, 0x5a00_0000);
    assert_eq!(byte.amount_of_bits, 8);
}

#[test]
fn bits_hold_thirty_two() {
    let mut bits = Bits::empty();
    for _ in 0..32 {
        bits = bits.add(true);
    }
    assert_eq!(bits.data, u32::MAX);
    assert_eq!(bits.amount_of_bits, 32);
}

#[test]
fn stream_bytes_and_sentinel() {
    // 10 bits: one full byte, two bits of the next, then the sentinel 0x20.
    let mut writer = BitsWriter::new(Vec::new());
    writer.write(&Bits::byte(0b1101_0101));
    writer.write(&Bits::empty().add(false).add(true));
    assert_eq!(writer.final_flush_with_offset(), vec![0b1101_0101, 0b0100_0000, 0x20]);

    // Exactly eight bits: the sentinel is zero.
    let mut writer = BitsWriter::new(Vec::new());
    writer.write(&Bits::byte(0xff));
    assert_eq!(writer.final_flush_with_offset(), vec![0xff, 0x00]);

    // No bits at all: only the sentinel.
    let writer = BitsWriter::new(Vec::new());
    assert_eq!(writer.final_flush_with_offset(), vec![0x80]);
}

#[test]
fn explicit_flush_pads_with_zeros() {
    let mut writer = BitsWriter::new(vec![7]);
    writer.write(&Bits::empty().add(true).add(true));
    writer.flush();
    writer.write(&Bits::empty().add(true));
    assert_eq!(writer.final_flush_with_offset(), vec![7, 0b1100_0000, 0b1000_0000, 0x40]);
}

#[test]
fn every_padding_count_reads_back() {
    for n in 1..=24usize {
        let pattern: Vec<bool> = (0..n).map(|i| (i * 7 + 3) % 5 < 2).collect();
        let mut writer = BitsWriter::new(Vec::new());
        for &bit in &pattern {
            writer.write(&Bits::empty().add(bit));
        }
        let stream = writer.final_flush_with_offset();
        let mut reader = BitsReader::new(stream).expect("a complete stream");
        for &bit in &pattern {
            assert_eq!(reader.read_safe(), Some(bit));
        }
        assert_eq!(reader.read_safe(), None);
        assert_eq!(reader.read_safe(), None);
    }
}

#[test]
fn read_byte_and_has_bits() {
    let mut writer = BitsWriter::new(Vec::new());
    writer.write(&Bits::empty().add(true));
    writer.write(&Bits::byte(0xa7));
    writer.write(&Bits::byte(0x3c));
    let mut reader = BitsReader::new(writer.final_flush_with_offset()).expect("a complete stream");
    assert!(reader.has_bits(8));
    assert_eq!(reader.read(), true);
    assert_eq!(reader.read_byte(), 0xa7);
    assert!(reader.has_bits(8));
    assert_eq!(reader.read_byte(), 0x3c);
    assert!(!reader.has_bits(1));
    assert_eq!(reader.read_safe(), None);
}

#[test]
fn reader_needs_two_bytes() {
    assert!(BitsReader::new(vec![]).is_none());
    assert!(BitsReader::new(vec![0x80]).is_none());
    let mut reader = BitsReader::new(vec![0xff, 0x80]).expect("a stream");
    assert_eq!(reader.read_safe(), None);
}

#[test]
fn bits_as_digits() {
    let bits = Bits::empty().add(true).add(false).add(false).add(true).add(true);
    assert_eq!(bits.to_digits(), b"10011".to_vec());
    assert_eq!(Bits::empty().to_digits(), Vec::<u8>::new());
    assert_eq!(String::from_utf8(Bits::byte(0x81).to_digits()).unwrap(), "10000001");
}
