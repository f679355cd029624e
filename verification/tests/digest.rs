use wallpicker::digest::{digest_bytes, digest_pieces, hash_step, ContentHasher, HashStep};

#[test]
fn empty_input_has_the_known_digest() {
    let d = digest_bytes(b"");
    assert_eq!(
        d.to_hex(),
        "af1349b9f5f9a1a6a0404dea36dcc9499bcb25c9adc112b7cc9a93cae41f3262"
    );
}

#[test]
fn pieces_hash_like_the_whole() {
    let whole = digest_bytes(b"foobarbaz");
    let pieces = vec![b"foo".to_vec(), b"bar".to_vec(), b"baz".to_vec()];
    assert!(digest_pieces(&pieces).same(&whole));
    let mut h = ContentHasher::new();
    h.update(b"foob");
    h.update(b"");
    h.update(b"arbaz");
    assert!(h.finalize().same(&whole));
    assert!(!h.finalize().same(&digest_bytes(b"foobarba")));
}

fn fed(step: HashStep) -> ContentHasher {
    match step {
        HashStep::More(h) => h,
        HashStep::Done(_) => panic!("done too early"),
    }
}

#[test]
fn a_file_read_in_two_attempts() {
    let mut buffer = [0u8; 8];
    buffer[..5].copy_from_slice(b"hello");
    let h = fed(hash_step(ContentHasher::new(), &buffer, Some(5)));
    buffer[..6].copy_from_slice(b" world");
    let h = fed(hash_step(h, &buffer, Some(6)));
    match hash_step(h, &buffer, Some(0)) {
        HashStep::Done(Some(d)) => assert!(d.same(&digest_bytes(b"hello world"))),
        _ => panic!("no digest"),
    }
}

#[test]
fn a_failed_read_gives_no_digest() {
    let buffer = [1u8; 4];
    let h = fed(hash_step(ContentHasher::new(), &buffer, Some(4)));
    assert!(matches!(hash_step(h, &buffer, None), HashStep::Done(None)));
    assert!(matches!(hash_step(ContentHasher::new(), &buffer, Some(5)), HashStep::Done(None)));
}

#[test]
fn an_empty_file_has_the_digest_of_nothing() {
    let buffer = [0u8; 4];
    match hash_step(ContentHasher::new(), &buffer, Some(0)) {
        HashStep::Done(Some(d)) => assert!(d.same(&digest_bytes(b""))),
        _ => panic!("no digest"),
    }
}

#[test]
fn digests_in_hexadecimal() {
    let d = digest_bytes(b"abc");
    assert_eq!(d.to_hex(), blake3::hash(b"abc").to_hex().to_string());
    assert_eq!(d.bytes, *blake3::hash(b"abc").as_bytes());
    assert!(d.same(&d));
}
