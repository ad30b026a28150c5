use hardlink_dedup::compare::{
    bytewise_equal, content_hash, link_name_identity, sample_hash, sample_len, ContentHash,
};

const FOX: &[u8] = b"The quick brown fox jumps over the lazy dog";

#[test]
fn bytewise_equal_accepts_identical_content() {
    assert!(bytewise_equal(b"abcdef", b"abcdef"));
    assert!(bytewise_equal(b"", b""));
}

#[test]
fn bytewise_equal_rejects_a_single_differing_byte() {
    assert!(!bytewise_equal(b"abcdef", b"abcdeg"));
    assert!(!bytewise_equal(b"xbcdef", b"abcdef"));
}

#[test]
fn bytewise_equal_rejects_different_lengths() {
    assert!(!bytewise_equal(b"abc", b"abcd"));
    assert!(!bytewise_equal(b"abc", b""));
}

#[test]
fn bytewise_equal_spans_more_than_one_window() {
    let mut left = vec![7u8; 200_000];
    let right = left.clone();
    assert!(bytewise_equal(&left, &right));
    left[199_999] = 8;
    assert!(!bytewise_equal(&left, &right));
}

#[test]
fn sample_len_is_the_smaller_of_size_and_prefix() {
    assert_eq!(sample_len(100, 4096), 100);
    assert_eq!(sample_len(4096, 4096), 4096);
    assert_eq!(sample_len(1 << 40, 4096), 4096);
    assert_eq!(sample_len(0, 4096), 0);
}

#[test]
fn sample_hash_is_the_murmur3_value() {
    // h1 = e34bbc7bbc071b6c, h2 = 7a433ca9c49a9347 for this text with seed 0.
    let expected: u128 = 0x7a433ca9c49a9347_e34bbc7bbc071b6c;
    assert_eq!(sample_hash(FOX, FOX.len() as u64, 4096), Some(expected));
}

#[test]
fn sample_hash_agrees_with_the_hash_crate_on_little_endian() {
    if u16::from_ne_bytes([1, 0]) == 1 {
        assert_eq!(sample_hash(FOX, FOX.len() as u64, 4096), Some(fastmurmur3::hash(FOX)));
        assert_eq!(sample_hash(b"", 0, 4096), Some(fastmurmur3::hash(b"")));
    }
}

#[test]
fn sample_hash_covers_only_the_prefix() {
    let a = b"same start, one ending";
    let b = b"same start, another one";
    let whole_a = sample_hash(a, a.len() as u64, 4096);
    let whole_b = sample_hash(b, b.len() as u64, 4096);
    assert_ne!(whole_a, whole_b);
    assert_eq!(sample_hash(a, a.len() as u64, 10), sample_hash(b, b.len() as u64, 10));
    assert_eq!(sample_hash(a, a.len() as u64, 10), sample_hash(b"same start", 10, 4096));
}

#[test]
fn sample_hash_fails_on_a_file_shorter_than_recorded() {
    assert_eq!(sample_hash(b"abc", 10, 4096), None);
    assert_eq!(sample_hash(b"abc", 10, 4), None);
    assert!(sample_hash(b"abc", 10, 3).is_some());
    assert!(sample_hash(b"abcdef", 3, 4096).is_some());
}

#[test]
fn sample_hash_ignores_bytes_beyond_the_recorded_size() {
    assert_eq!(sample_hash(b"abcdef", 3, 4096), sample_hash(b"abc", 3, 4096));
}

#[test]
fn content_hash_of_nothing_is_the_blake3_value() {
    let expected = ContentHash {
        high: 0xaf1349b9f5f9a1a6a0404dea36dcc949,
        low: 0x9bcb25c9adc112b7cc9a93cae41f3262,
    };
    assert_eq!(content_hash(b""), expected);
}

#[test]
fn content_hash_agrees_with_the_hash_crate() {
    let digest = *blake3::hash(FOX).as_bytes();
    let mut high = [0u8; 16];
    let mut low = [0u8; 16];
    high.copy_from_slice(&digest[..16]);
    low.copy_from_slice(&digest[16..]);
    let expected = ContentHash { high: u128::from_be_bytes(high), low: u128::from_be_bytes(low) };
    assert_eq!(content_hash(FOX), expected);
}

#[test]
fn content_hash_tells_contents_apart() {
    assert_eq!(content_hash(b"one"), content_hash(b"one"));
    assert_ne!(content_hash(b"one"), content_hash(b"two"));
    assert_ne!(content_hash(b"one"), content_hash(b"one "));
}

#[test]
fn link_name_identity_hashes_the_units_low_byte_first() {
    let name: [u16; 3] = [0x0041, 0x0100, 0x20ac];
    let bytes: [u8; 6] = [0x41, 0x00, 0x00, 0x01, 0xac, 0x20];
    assert_eq!(Some(link_name_identity(&name)), sample_hash(&bytes, 6, 4096));
}

#[test]
fn link_name_identity_is_shared_by_equal_names_only() {
    let a: Vec<u16> = "\\dir\\first".encode_utf16().collect();
    let b: Vec<u16> = "\\dir\\first".encode_utf16().collect();
    let c: Vec<u16> = "\\dir\\other".encode_utf16().collect();
    assert_eq!(link_name_identity(&a), link_name_identity(&b));
    assert_ne!(link_name_identity(&a), link_name_identity(&c));
}
