use sqlite_hash::fold::{keys_equal, to_lower};
use sqlite_hash::hasher::{str_hash, HASH_MULTIPLIER};
use sqlite_hash::policy::{
    bucket_limit, clamp_buckets, growth_request, CapacityOverflowError, BUCKET_BYTE_BUDGET,
    BUCKET_RECORD_BYTES, GROWTH_THRESHOLD,
};

#[test]
fn letters_fold_to_lower_case() {
    assert_eq!(to_lower(b'A'), b'a');
    assert_eq!(to_lower(b'M'), b'm');
    assert_eq!(to_lower(b'Z'), b'z');
    assert_eq!(to_lower(b'a'), b'a');
    assert_eq!(to_lower(b'z'), b'z');
}

#[test]
fn other_bytes_stay() {
    assert_eq!(to_lower(b'@'), b'@');
    assert_eq!(to_lower(b'['), b'[');
    assert_eq!(to_lower(b'0'), b'0');
    assert_eq!(to_lower(0), 0);
    assert_eq!(to_lower(0x7f), 0x7f);
    assert_eq!(to_lower(0xc0), 0xc0);
    assert_eq!(to_lower(0xff), 0xff);
    for b in 0..=255u8 {
        let expected = if b.is_ascii_uppercase() { b + 32 } else { b };
        assert_eq!(to_lower(b), expected);
    }
}

#[test]
fn key_equality_ignores_case() {
    assert!(keys_equal(b"Foo", b"foo"));
    assert!(keys_equal(b"FOO", b"foo"));
    assert!(keys_equal(b"", b""));
    assert!(keys_equal(b"a_1", b"A_1"));
    assert!(!keys_equal(b"foo", b"fo"));
    assert!(!keys_equal(b"fo", b"foo"));
    assert!(!keys_equal(b"foo", b"fop"));
    assert!(!keys_equal(b"@", b"`"));
    assert!(!keys_equal(b"[", b"{"));
}

#[test]
fn hash_of_nothing_is_zero() {
    assert_eq!(str_hash(b""), 0);
}

#[test]
fn hash_of_one_byte() {
    assert_eq!(HASH_MULTIPLIER, 0x9e3779b1);
    assert_eq!(str_hash(b"a"), 0xf3051c11);
    assert_eq!(str_hash(b"A"), 0xf3051c11);
    assert_eq!(str_hash(&[0]), 0);
    assert_eq!(str_hash(&[1]), 0x9e3779b1);
}

#[test]
fn hash_follows_the_rounds() {
    let mut h: u32 = 0;
    for b in b"select" {
        h = h.wrapping_add(*b as u32).wrapping_mul(0x9e3779b1);
    }
    assert_eq!(str_hash(b"select"), h);
    assert_eq!(str_hash(b"SELECT"), h);
    assert_eq!(str_hash(b"SeLeCt"), h);
    assert_eq!(str_hash(b"ab"), 0xf3051c11u32.wrapping_add(0x62).wrapping_mul(0x9e3779b1));
    assert_eq!(str_hash(b"ab"), 0x87b00683);
}

#[test]
fn hash_tells_keys_apart() {
    assert_ne!(str_hash(b"ab"), str_hash(b"ba"));
    assert_ne!(str_hash(b"a"), str_hash(b"b"));
    assert_ne!(str_hash(b"@"), str_hash(b"`"));
}

#[test]
fn usual_policy() {
    assert_eq!(GROWTH_THRESHOLD, 10);
    assert_eq!(BUCKET_BYTE_BUDGET, 1024);
    assert_eq!(BUCKET_RECORD_BYTES, 16);
    assert_eq!(bucket_limit(BUCKET_BYTE_BUDGET), 64);
    assert_eq!(bucket_limit(0), 0);
    assert_eq!(bucket_limit(15), 0);
    assert_eq!(bucket_limit(16), 1);
    assert_eq!(bucket_limit(31), 1);
}

#[test]
fn requests_are_cut_down() {
    assert_eq!(clamp_buckets(0, 64), 0);
    assert_eq!(clamp_buckets(20, 64), 20);
    assert_eq!(clamp_buckets(64, 64), 64);
    assert_eq!(clamp_buckets(65, 64), 64);
    assert_eq!(clamp_buckets(usize::MAX, 64), 64);
    assert_eq!(clamp_buckets(5, 0), 0);
}

#[test]
fn growth_waits_for_the_threshold() {
    assert_eq!(growth_request(0, 0, 10, 64), Ok(None));
    assert_eq!(growth_request(9, 0, 10, 64), Ok(None));
    assert_eq!(growth_request(10, 0, 10, 64), Ok(Some(20)));
    assert_eq!(growth_request(11, 0, 10, 64), Ok(Some(22)));
    assert_eq!(growth_request(0, 0, 0, 64), Ok(None));
    assert_eq!(growth_request(1, 0, 0, 64), Ok(Some(2)));
}

#[test]
fn growth_waits_for_two_entries_a_bucket() {
    assert_eq!(growth_request(40, 20, 10, 64), Ok(None));
    assert_eq!(growth_request(41, 20, 10, 64), Ok(Some(64)));
    assert_eq!(growth_request(21, 10, 10, 64), Ok(Some(42)));
    assert_eq!(growth_request(20, 10, 10, 64), Ok(None));
}

#[test]
fn growth_stops_at_the_limit() {
    assert_eq!(growth_request(32, 0, 10, 64), Ok(Some(64)));
    assert_eq!(growth_request(33, 0, 10, 64), Ok(Some(64)));
    assert_eq!(growth_request(129, 64, 10, 64), Ok(None));
    assert_eq!(growth_request(1000, 64, 10, 64), Ok(None));
    assert_eq!(growth_request(1000, 70, 10, 64), Ok(None));
    assert_eq!(growth_request(50, 0, 10, 0), Ok(None));
}

#[test]
fn growth_that_leaves_the_machine_word() {
    assert_eq!(growth_request(usize::MAX, 64, 10, 64), Err(CapacityOverflowError {}));
    assert_eq!(growth_request(usize::MAX / 2 + 1, 64, 10, 64), Err(CapacityOverflowError {}));
    assert_eq!(growth_request(usize::MAX / 2, 64, 10, 64), Ok(None));
    assert_eq!(growth_request(usize::MAX / 2, 64, 10, usize::MAX), Ok(Some(usize::MAX - 1)));
    assert_eq!(growth_request(usize::MAX, usize::MAX / 2, 10, 64), Err(CapacityOverflowError {}));
    assert_eq!(growth_request(usize::MAX, usize::MAX / 2 + 1, 10, 64), Ok(None));
    assert_eq!(growth_request(5, 0, 10, 64), Ok(None));
}
