use squeeze::lz77::{encoded_byte_num, lz77_compress_simple, lz77_decompress, LZ77Data, LZ77Encoded};
use squeeze::CodecError;

/// A deterministic, fairly repetitive text buffer of roughly `n` bytes.
fn sample_text(n: usize) -> Vec<u8> {
    let sentence = b"the quick brown fox jumps over the lazy dog and the lazy dog sleeps on. ";
    let mut out = Vec::with_capacity(n);
    while out.len() < n {
        for &b in sentence.iter() {
            out.push(b);
        }
    }
    out.truncate(n);
    out
}

#[test]
fn lz77_compress_decompress_simple() {
    let bytes = sample_text(16_384);
    let lz77_encoded = lz77_compress_simple(&bytes, 0xFFFF, 3, 256);
    let encoded_num = encoded_byte_num(&lz77_encoded, 3);
    assert!(encoded_num <= bytes.len());

    let lz77_decoded = lz77_decompress(lz77_encoded).unwrap();

    assert!(
        lz77_decoded.len() == bytes.len(),
        "LZ77 compression and decompression resulted in different number of bytes"
    );
    for i in 0..lz77_decoded.len() {
        assert!(
            lz77_decoded[i] == bytes[i],
            "LZ77 compression and decompression resulted in different bytes at position {i}"
        );
    }
}

#[test]
fn lz77_expected_items_for_repeated_text() {
    // nine literals, then one back-reference of length nine at offset nine
    let input = b"TOBEORNOTTOBEORNOT";
    let encoded = lz77_compress_simple(input, 64, 4, 256);
    let items = encoded.items().clone();
    assert_eq!(items.len(), 10);
    for i in 0..9 {
        assert_eq!(items[i], LZ77Data::Literal(input[i]));
    }
    assert_eq!(items[9], LZ77Data::Match(9, 9));
    assert_eq!(lz77_decompress(encoded).unwrap(), input.to_vec());
}

#[test]
fn lz77_overlapping_copy() {
    // a literal, then a self-overlapping back-reference expanded byte by byte
    let input = b"aaaaaaaa";
    let encoded = lz77_compress_simple(input, 64, 1, 256);
    let items = encoded.items().clone();
    assert_eq!(items, vec![LZ77Data::Literal(b'a'), LZ77Data::Match(7, 1)]);
    assert_eq!(lz77_decompress(encoded).unwrap(), input.to_vec());
}

#[test]
fn lz77_empty_input() {
    let encoded = lz77_compress_simple(&[], 64, 3, 256);
    assert_eq!(encoded.items().len(), 0);
    assert_eq!(lz77_decompress(encoded).unwrap(), Vec::<u8>::new());
}

#[test]
fn lz77_rejects_bad_back_reference() {
    let encoded = LZ77Encoded::from_items(vec![LZ77Data::Match(3, 5)]);
    assert_eq!(lz77_decompress(encoded), Err(CodecError::CorruptStream));
    let encoded = LZ77Encoded::from_items(vec![LZ77Data::Literal(1), LZ77Data::Match(2, 0)]);
    assert_eq!(lz77_decompress(encoded), Err(CodecError::CorruptStream));
}

#[test]
fn lz77_measures_wire_size() {
    let encoded = LZ77Encoded::from_items(vec![
        LZ77Data::Literal(1),
        LZ77Data::Match(4, 1),
        LZ77Data::Literal(2),
    ]);
    assert_eq!(encoded_byte_num(&encoded, 3), 5);
}
