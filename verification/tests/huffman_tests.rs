use squeeze::bitstream::{BitReader, BitWriter};
use squeeze::huffman::{
    compress_huffman, decompress_huffman, HuffmanDecoder, HuffmanEncoder,
    HUFFMAN_DEFAULT_CHUNK_SIZE, HUFFMAN_MAX_SYMBOLS,
};
use squeeze::CodecError;

/// A deterministic mixed-entropy text buffer of roughly `n` bytes.
fn sample_text(n: usize) -> Vec<u8> {
    let sentence = b"Lorem ipsum dolor sit amet, consectetur adipiscing elit, sed do \
eiusmod tempor incididunt ut labore et dolore magna aliqua. ";
    let mut out = Vec::with_capacity(n);
    let mut state: u32 = 0x2123;
    while out.len() < n {
        for &b in sentence.iter() {
            out.push(b);
        }
        // sprinkle in some pseudo-random bytes so chunks differ
        for _ in 0..16 {
            state = state.wrapping_mul(1664525).wrapping_add(1013904223);
            out.push((state >> 24) as u8);
        }
    }
    out.truncate(n);
    out
}

fn huffman_test(chunk_size: usize) {
    let contents = sample_text(20_000);

    let mut writer = BitWriter::new();
    let mut encoder = HuffmanEncoder::new(HUFFMAN_MAX_SYMBOLS);
    encoder.encode_all_bytes(&contents, chunk_size, &mut writer);
    let encoded_bytes = writer.get_bytes();

    let mut reader = BitReader::new(&encoded_bytes);
    let mut decoder = HuffmanDecoder::new();
    let decoded_bytes = decoder.decode_all_bytes(&mut reader).unwrap();

    assert!(
        contents.len() == decoded_bytes.len(),
        "Number of bytes different after encoding and decoding"
    );
    for i in 0..contents.len() {
        assert!(
            contents[i] == decoded_bytes[i],
            "Byte at position {i} different after encoding and decoding [{}] -> [{}]",
            contents[i],
            decoded_bytes[i]
        );
    }
}

#[test]
pub fn huffman_test_basic() {
    huffman_test(usize::MAX);
}

#[test]
pub fn huffman_test_chunking() {
    huffman_test(HUFFMAN_DEFAULT_CHUNK_SIZE);
}

#[test]
fn huffman_wrappers_round_trip() {
    let contents = sample_text(4096);
    let encoded = compress_huffman(&contents, 1024);
    let decoded = decompress_huffman(&encoded).unwrap();
    assert_eq!(decoded, contents);
}

#[test]
fn huffman_empty_input() {
    let encoded = compress_huffman(&[], 1024);
    assert_eq!(encoded.len(), 0);
    assert_eq!(decompress_huffman(&encoded).unwrap(), Vec::<u8>::new());
}

#[test]
fn huffman_single_symbol_gets_one_bit_code() {
    // forty copies of one byte: the table holds one entry of depth one
    let input = vec![7u8; 40];
    let mut encoder = HuffmanEncoder::new(256);
    let symbols = HuffmanEncoder::bytes_to_symbols(&input);
    encoder.build_frequency_table(&symbols);
    encoder.build_huffman_table();
    let mut it = encoder.iter();
    assert_eq!(it.next(), Some((7u16, 1usize)));
    assert_eq!(it.next(), None);

    let encoded = compress_huffman(&input, 1024);
    assert_eq!(decompress_huffman(&encoded).unwrap(), input);
}

#[test]
fn huffman_known_code_lengths() {
    // frequencies A:6 B:4 C:3 D:1 give depths 1, 2, 3, 3
    let input = b"AAAAAABBBBCCCD";
    let symbols = HuffmanEncoder::bytes_to_symbols(input);
    let mut encoder = HuffmanEncoder::new(256);
    encoder.build_frequency_table(&symbols);
    encoder.build_huffman_table();
    let mut it = encoder.iter();
    assert_eq!(it.next(), Some((b'A' as u16, 1usize)));
    assert_eq!(it.next(), Some((b'B' as u16, 2usize)));
    assert_eq!(it.next(), Some((b'C' as u16, 3usize)));
    assert_eq!(it.next(), Some((b'D' as u16, 3usize)));
    assert_eq!(it.next(), None);

    // the payload alone is 6*1 + 4*2 + 3*3 + 1*3 = 26 bits, after a 32-bit count
    let mut writer = BitWriter::new();
    encoder.encode_symbols(&symbols, &mut writer);
    assert_eq!(writer.total_bits_written(), 32 + 26);

    let encoded = compress_huffman(input, 1024);
    assert_eq!(decompress_huffman(&encoded).unwrap(), input.to_vec());
}

#[test]
fn huffman_single_byte_round_trip() {
    let input = b"X";
    let symbols = HuffmanEncoder::bytes_to_symbols(input);
    let mut encoder = HuffmanEncoder::new(256);
    encoder.build_frequency_table(&symbols);
    encoder.build_huffman_table();
    let mut it = encoder.iter();
    assert_eq!(it.next(), Some((b'X' as u16, 1usize)));
    assert_eq!(it.next(), None);

    let encoded = compress_huffman(input, 1024);
    assert_eq!(decompress_huffman(&encoded).unwrap(), vec![b'X']);
}

#[test]
fn huffman_truncated_stream_is_rejected() {
    // more than 32 bits of all-ones claim a 511-entry table that is not there
    let bytes = vec![0xFFu8; 5];
    assert_eq!(decompress_huffman(&bytes), Err(CodecError::UnexpectedEof));
}

#[test]
fn huffman_overfull_table_is_rejected() {
    // three one-bit codes oversubscribe the normalized Kraft budget of 4096
    let mut writer = BitWriter::new();
    writer.write_bits_u32(3, 9); // three entries
    writer.write_bits_u32(1, 4); // max level one
    for sym in 0..3u32 {
        writer.write_bits_u32(sym, 9);
        writer.write_bits_u32(0, 1); // level 1
    }
    writer.write_bits_u32(0, 32); // empty chunk
    let bytes = writer.get_bytes();
    assert_eq!(decompress_huffman(&bytes), Err(CodecError::CorruptStream));
}
