use wordstat::uhash::{ahash, folded_multiply, IdentityHasher};

#[test]
fn ahash_of_empty_input() {
    assert_eq!(ahash(b""), 2892909703871953098);
}

#[test]
fn ahash_of_short_inputs() {
    assert_eq!(ahash(b"a"), 12278446921534209533);
    assert_eq!(ahash(b"the"), 11950963598088338410);
    assert_eq!(ahash(b"hello"), 9466462725838492187);
}

#[test]
fn ahash_of_inputs_around_a_full_word() {
    assert_eq!(ahash(b"12345678"), 14922236256993193858);
    assert_eq!(ahash(b"123456789"), 16508950612759923085);
    assert_eq!(ahash(b"0123456789abcdef"), 10555861958718282117);
}

#[test]
fn ahash_of_text_beyond_ascii() {
    assert_eq!(ahash("caf\u{e9}".as_bytes()), 12037022004083449795);
}

#[test]
fn ahash_tells_inputs_apart() {
    assert_ne!(ahash(b"a"), ahash(b"b"));
    assert_ne!(ahash(b"ab"), ahash(b"ba"));
    assert_eq!(ahash(b"same"), ahash(b"same"));
}

#[test]
fn ahash_does_not_see_a_zero_byte_that_ends_a_word() {
    assert_eq!(ahash(b""), ahash(b"\0"));
    assert_eq!(ahash(b"abc"), ahash(b"abc\0"));
    assert_ne!(ahash(b"1234567"), ahash(b"1234567\0"));
}

#[test]
fn folded_multiply_of_small_values_is_the_product() {
    assert_eq!(folded_multiply(3, 5), 15);
    assert_eq!(folded_multiply(0, 77), 0);
}

#[test]
fn folded_multiply_folds_the_high_half() {
    assert_eq!(folded_multiply(u64::MAX, u64::MAX), u64::MAX);
    assert_eq!(folded_multiply(1 << 63, 4), 2);
    assert_eq!(
        folded_multiply(0x1234_5678_9abc_def0, 6364136223846793005),
        10060139856527783025
    );
}

#[test]
fn identity_hasher_starts_at_zero() {
    assert_eq!(IdentityHasher::default().finish(), 0);
}

#[test]
fn identity_hasher_hands_out_the_word_written() {
    let mut hasher = IdentityHasher::default();
    hasher.write(&0x0102_0304_0506_0708u64.to_ne_bytes());
    assert_eq!(hasher.finish(), 0x0102_0304_0506_0708);
}

#[test]
fn identity_hasher_adds_words_and_wraps() {
    let mut hasher = IdentityHasher::default();
    hasher.write(&u64::MAX.to_ne_bytes());
    hasher.write(&5u64.to_ne_bytes());
    assert_eq!(hasher.finish(), 4);
}
