use squeeze::bitstream::{BitReader, BitWriter};
use rand::{Rng, SeedableRng};

#[test]
fn bit_reader_writer_test() {
    let val_num = 8192;
    let mut rng = rand_chacha::ChaCha8Rng::seed_from_u64(2123);

    let mut vals: Vec<u32> = Vec::with_capacity(val_num);
    let mut val_sizes: Vec<usize> = Vec::with_capacity(val_num);
    for _ in 0..val_num {
        let rand_len: usize = rng.gen_range(1..=32);
        let mask: u32 = if rand_len == 32 { u32::MAX } else { (1 << rand_len) - 1 };
        let rand_val: u32 = rng.gen::<u32>() & mask;
        vals.push(rand_val);
        val_sizes.push(rand_len);
    }

    let mut writer = BitWriter::new();
    for i in 0..val_num {
        writer.write_bits_u32(vals[i], val_sizes[i]);
    }
    let bytes = writer.get_bytes();

    let mut reader = BitReader::new(&bytes);
    for i in 0..val_num {
        let read_val = reader.read_bits_into_u32(val_sizes[i]).unwrap();
        assert!(
            read_val == vals[i],
            "Val at position [{i}] was read/written incorrectly, {read_val} -> {}",
            vals[i]
        );
    }
}

#[test]
fn bit_writer_pads_with_zero_bits() {
    let mut writer = BitWriter::new();
    writer.write_bits_u32(0b101, 3);
    assert_eq!(writer.total_bits_written(), 3);
    let bytes = writer.get_bytes();
    assert_eq!(bytes, vec![0b1010_0000]);
}

#[test]
fn bit_reader_u16_and_u8_round_trip() {
    let mut writer = BitWriter::new();
    writer.write_bits_u16(0x1ABC & 0x0FFF, 12);
    writer.write_bits_u32(0x5, 3);
    writer.write_bits_u16(0xFF, 8);
    let bytes = writer.get_bytes();

    let mut reader = BitReader::new(&bytes);
    assert_eq!(reader.read_bits_into_u16(12), Some(0x0ABC));
    assert_eq!(reader.read_bits_into_u8(3), Some(0x5));
    assert_eq!(reader.read_bits_into_u8(8), Some(0xFF));
}

#[test]
fn bit_reader_saturating_and_peek() {
    let mut writer = BitWriter::new();
    writer.write_bits_u32(0b11, 2);
    let bytes = writer.get_bytes();
    // one byte on the wire: 1100_0000
    let mut reader = BitReader::new(&bytes);
    assert_eq!(reader.remaining_bits(), 8);
    // the saturating peek shifts the remaining 8 bits into the high positions
    assert_eq!(reader.peek_bits_into_u32_with_shift(12), Some(0b1100_0000 << 4));
    // a plain peek or read past the end is an unexpected end of input
    assert_eq!(reader.peek_bits_into_u32(12), None);
    assert_eq!(reader.read_bits_into_u32(9), None);
    assert_eq!(reader.remaining_bits(), 8);
    assert_eq!(reader.peek_bits_into_u32(8), Some(0b1100_0000));
    reader.empty_bits(3);
    assert_eq!(reader.remaining_bits(), 5);
    assert_eq!(reader.read_bit(), Some(false));
    assert_eq!(reader.read_bits_into_u32(4), Some(0));
    // a zero-width read succeeds even with nothing left
    assert_eq!(reader.remaining_bits(), 0);
    assert_eq!(reader.read_bits_into_u32(0), Some(0));
    assert_eq!(reader.read_bits_into_u32(1), None);
}
