use contentdiff::digest_hex;
use contentdiff::digest_of;
use contentdiff::fingerprint_one_file;
use contentdiff::FailureKind;
use contentdiff::HashEngine;
use contentdiff::MAX_CONTENT;
use contentdiff::PathLocation;
use contentdiff::Side;
use std::path::PathBuf;

const HELLO: &str = "2cf24dba5fb0a30e26e83b2ac5b9e29e1b161e5c1fa7425e73043362938b9824";
const EMPTY: &str = "e3b0c44298fc1c149afbf4c8996fb92427ae41e4649b934ca495991b7852b855";

#[test]
fn digest_of_hello_is_the_known_value() {
    assert_eq!(digest_hex(&digest_of(b"hello")), HELLO);
}

#[test]
fn digest_of_nothing_is_the_known_value() {
    assert_eq!(digest_hex(&digest_of(b"")), EMPTY);
    assert_eq!(digest_hex(&HashEngine::new().finalize()), EMPTY);
}

#[test]
fn digest_does_not_depend_on_the_chunking() {
    let mut engine = HashEngine::new();
    engine.update(b"he");
    engine.update(b"");
    engine.update(b"llo");
    assert_eq!(engine.finalize(), digest_of(b"hello"));
}

#[test]
fn one_changed_byte_changes_the_digest() {
    assert_ne!(digest_of(b"hello"), digest_of(b"hellp"));
}

#[test]
fn hex_is_lowercase_with_two_digits_per_byte() {
    let mut digest = [0u8; 32];
    digest[0] = 0x0f;
    digest[1] = 0xa0;
    digest[31] = 0xff;
    let text = digest_hex(&digest);
    assert_eq!(text.len(), 64);
    assert_eq!(&text[0..4], "0fa0");
    assert_eq!(&text[4..62], "0".repeat(58));
    assert_eq!(&text[62..64], "ff");
}

#[test]
fn same_content_at_two_paths_has_one_digest() {
    let mut first = HashEngine::new();
    first.update(b"same bytes");
    let mut second = HashEngine::new();
    second.update(b"same ");
    second.update(b"bytes");
    let a = fingerprint_one_file(PathLocation::new_left(PathBuf::from("a/x")), Ok(first));
    let b = fingerprint_one_file(PathLocation::new_right(PathBuf::from("b/y")), Ok(second));
    assert_eq!(a.result.as_ref().ok(), b.result.as_ref().ok());
    assert!(a.result.is_ok());
    assert_eq!(a.path.side(), Side::Left);
    assert_eq!(b.path.path(), &PathBuf::from("b/y"));
}

#[test]
fn a_failed_read_gives_the_error_and_no_digest() {
    let result = fingerprint_one_file(
        PathLocation::new_left(PathBuf::from("a/locked")),
        Err(String::from("Permission denied (os error 13)")),
    );
    assert_eq!(result.path.path(), &PathBuf::from("a/locked"));
    let failure = result.result.unwrap_err();
    assert_eq!(failure.kind, FailureKind::HashIo);
    assert_eq!(failure.message, "Permission denied (os error 13)");
}

#[test]
fn the_engine_counts_what_it_has_seen() {
    let mut engine = HashEngine::new();
    assert_eq!(engine.len(), 0);
    assert!(engine.try_update(b"hel"));
    assert_eq!(engine.len(), 3);
    assert!(engine.try_update(b""));
    assert!(engine.try_update(b"lo"));
    assert_eq!(engine.len(), 5);
    assert_eq!(digest_hex(&engine.finalize()), HELLO);
}

#[test]
fn the_limit_is_the_longest_message_that_sha256_admits() {
    // Fewer than 2^64 bits: at most 2^61 - 1 bytes.
    assert_eq!(MAX_CONTENT, (1u64 << 61) - 1);
}
