use lzw_compression::{compress, decompress, LzwError};

#[test]
fn compress_empty_gives_empty() {
    let input: Vec<u8> = Vec::new();
    assert_eq!(compress(&input), Vec::<u8>::new());
}

#[test]
fn decompress_empty_gives_empty() {
    let input: Vec<u8> = Vec::new();
    assert_eq!(decompress(&input), Ok(Vec::new()));
}

#[test]
fn compress_single_byte_emits_identity_code() {
    let input = vec![0x41u8];
    assert_eq!(compress(&input), vec![0x00u8, 0x41]);
}

#[test]
fn compress_quad_a_reuses_learned_pair() {
    // "AAAA": 'A' emits code 65, "AA" is learned as code 256 and emitted,
    // the final 'A' emits code 65 again.
    let input = vec![0x41u8, 0x41, 0x41, 0x41];
    assert_eq!(compress(&input), vec![0x00u8, 0x41, 0x01, 0x00, 0x00, 0x41]);
}

#[test]
fn decompress_quad_a() {
    let stream = vec![0x00u8, 0x41, 0x01, 0x00, 0x00, 0x41];
    assert_eq!(decompress(&stream), Ok(vec![0x41u8, 0x41, 0x41, 0x41]));
}

#[test]
fn decompress_deferred_entry() {
    // "AAA" compresses to [65, 256]: code 256 arrives before the decoder has
    // materialised it and resolves through the deferred-entry rule.
    let stream = vec![0x00u8, 0x41, 0x01, 0x00];
    assert_eq!(decompress(&stream), Ok(vec![0x41u8, 0x41, 0x41]));
}

#[test]
fn decompress_rejects_bad_first_code() {
    let stream = vec![0xFFu8, 0xFF];
    assert_eq!(decompress(&stream), Err(LzwError::BadCode(0xFFFF)));
}

#[test]
fn decompress_rejects_code_past_next_assignable() {
    // After one decoded code the next assignable code is 256, so 0xFFFF is
    // far out of range and must abort the decode.
    let stream = vec![0x00u8, 0x41, 0xFF, 0xFF];
    assert_eq!(decompress(&stream), Err(LzwError::BadCode(0xFFFF)));
}

#[test]
fn decompress_rejects_odd_length() {
    assert_eq!(decompress(&vec![0x00u8]), Err(LzwError::TruncatedStream));
    assert_eq!(
        decompress(&vec![0x00u8, 0x41, 0x01]),
        Err(LzwError::TruncatedStream)
    );
}

#[test]
fn round_trip_text() {
    let input: Vec<u8> = b"TOBEORNOTTOBEORTOBEORNOT".to_vec();
    let packed = compress(&input);
    assert!(packed.len() % 2 == 0);
    assert_eq!(decompress(&packed), Ok(input));
}

#[test]
fn round_trip_all_byte_values() {
    let mut input: Vec<u8> = Vec::new();
    for round in 0..4 {
        for b in 0..=255u8 {
            input.push(b.wrapping_add(round));
        }
    }
    let packed = compress(&input);
    assert!(packed.len() % 2 == 0);
    assert_eq!(decompress(&packed), Ok(input));
}

#[test]
fn compress_is_deterministic() {
    let input: Vec<u8> = b"the quick brown fox jumps over the lazy dog".to_vec();
    assert_eq!(compress(&input), compress(&input));
}

#[test]
fn round_trip_survives_dictionary_exhaustion() {
    // A long, hard-to-compress input: every emitted code except the final
    // flush learns one entry until the 65535 ceiling, so far more than
    // 65280 emitted codes mean both sides ran with a frozen dictionary.
    let mut input: Vec<u8> = Vec::new();
    let mut x: u32 = 12345;
    for _ in 0..600_000 {
        x = x.wrapping_mul(1664525).wrapping_add(1013904223);
        input.push((x >> 16) as u8);
    }
    let packed = compress(&input);
    assert!(packed.len() % 2 == 0);
    assert!(packed.len() >= 2 * 65281);
    assert_eq!(decompress(&packed), Ok(input));
}
