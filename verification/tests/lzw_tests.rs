use squeeze::bitstream::BitReader;
use squeeze::lzw::{compress_lzw, decompress_lzw, CLEAR_CODE, EOD_CODE, MAX_CODE_LEN, MIN_CODE_LEN};
use squeeze::CodecError;

/// A deterministic text buffer of roughly `n` bytes.
fn sample_text(n: usize) -> Vec<u8> {
    let sentence = b"sphinx of black quartz judge my vow; pack my box with five dozen liquor jugs. ";
    let mut out = Vec::with_capacity(n);
    while out.len() < n {
        for &b in sentence.iter() {
            out.push(b);
        }
    }
    out.truncate(n);
    out
}

/// Reads the code stream back, tracking widths the way the decoder does.
fn collect_codes(bytes: &[u8]) -> Vec<u16> {
    let mut reader = BitReader::new(bytes);
    let mut codes = Vec::new();
    let mut code_len = MIN_CODE_LEN;
    let mut curr_max_code: u16 = 512;
    let mut next_code: u16 = 258;
    loop {
        let code = reader.read_bits_into_u16(code_len).unwrap();
        codes.push(code);
        if code == EOD_CODE {
            return codes;
        }
        if code == CLEAR_CODE {
            code_len = MIN_CODE_LEN;
            curr_max_code = 512;
            next_code = 258;
            continue;
        }
        next_code += 1;
        if next_code >= curr_max_code && code_len < MAX_CODE_LEN {
            code_len += 1;
            curr_max_code <<= 1;
        }
    }
}

#[test]
pub fn lzw_test() {
    let bytes = sample_text(16_384);
    let encoded_bytes = compress_lzw(&bytes);
    let decoded_bytes = decompress_lzw(&encoded_bytes).unwrap();

    assert!(
        decoded_bytes.len() == bytes.len(),
        "Number of bytes changed during compression and decompression."
    );
    assert!(
        bytes.iter().zip(&decoded_bytes).all(|(a, b)| *a == *b),
        "Bytes compressed and decompressed incorrectly"
    );
}

#[test]
fn lzw_known_code_prefix() {
    let input = b"TOBEORNOTTOBEORTOBEORNOT";
    let encoded = compress_lzw(input);
    let codes = collect_codes(&encoded);
    // the literal prefix, then the first dictionary code (for "TO")
    assert_eq!(&codes[..10], &[84, 79, 66, 69, 79, 82, 78, 79, 84, 258]);
    assert_eq!(*codes.last().unwrap(), EOD_CODE);
    assert_eq!(decompress_lzw(&encoded).unwrap(), input.to_vec());
}

#[test]
fn lzw_self_reference_round_trip() {
    // the K-omega-K pattern: a code is used while its entry is still pending
    let mut input = Vec::new();
    for _ in 0..32 {
        input.push(b'a');
        input.push(b'b');
    }
    let encoded = compress_lzw(&input);
    assert_eq!(decompress_lzw(&encoded).unwrap(), input);
}

#[test]
fn lzw_empty_input() {
    let encoded = compress_lzw(&[]);
    assert_eq!(decompress_lzw(&encoded).unwrap(), Vec::<u8>::new());
}

#[test]
fn lzw_clear_code_emitted_and_handled() {
    // pseudo-random bytes defeat the dictionary, exhausting the code space
    let mut input = Vec::with_capacity(10_000);
    let mut state: u32 = 0x1234_5678;
    for _ in 0..10_000 {
        state = state.wrapping_mul(1664525).wrapping_add(1013904223);
        input.push((state >> 24) as u8);
    }
    let encoded = compress_lzw(&input);
    let codes = collect_codes(&encoded);
    assert!(
        codes.iter().any(|&c| c == CLEAR_CODE),
        "an input exhausting the code space must contain a clear code"
    );
    assert_eq!(decompress_lzw(&encoded).unwrap(), input);
}

#[test]
fn lzw_width_boundary_before_end_marker() {
    // 253 dictionary inserts leave next_code one short of the width bound;
    // the decoder widens after the final code, and the end marker must
    // follow at the widened width
    let input: Vec<u8> = (0..=253).map(|b| b as u8).collect();
    let encoded = compress_lzw(&input);
    assert_eq!(decompress_lzw(&encoded).unwrap(), input);
}

#[test]
fn lzw_rejects_future_code() {
    // a nine-bit all-ones code names an entry far past the dictionary
    let bytes = vec![0xFF, 0xFF];
    assert_eq!(decompress_lzw(&bytes), Err(CodecError::CorruptStream));
}

#[test]
fn lzw_rejects_truncated_stream() {
    // a single literal code and then silence, with no end marker
    let bytes = vec![0x00];
    assert_eq!(decompress_lzw(&bytes), Err(CodecError::UnexpectedEof));
}
