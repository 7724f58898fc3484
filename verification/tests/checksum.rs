use lumixbackup::checksum::{
    digest_bytes, digest_chunks, verify_copy, Checksum, Digest, Verification,
};

fn hex(digest: &Digest) -> String {
    digest.bytes.iter().map(|b| format!("{:02x}", b)).collect()
}

#[test]
fn the_digest_of_nothing_is_the_known_one() {
    assert_eq!(
        hex(&digest_bytes(b"")),
        "af1349b9f5f9a1a6a0404dea36dcc9499bcb25c9adc112b7cc9a93cae41f3262"
    );
    assert_eq!(hex(&Checksum::new().finalize()), hex(&digest_bytes(b"")));
}

#[test]
fn the_digest_of_abc_is_the_known_one() {
    assert_eq!(
        hex(&digest_bytes(b"abc")),
        "6437b3ac38465133ffb63b75273a8db548c558465d79db03fd359c6cd5bd9d85"
    );
}

#[test]
fn digesting_twice_gives_the_same() {
    let content: Vec<u8> = (0..10_000u32).map(|i| (i % 251) as u8).collect();
    assert_eq!(digest_bytes(&content), digest_bytes(&content));
}

#[test]
fn the_cut_of_the_pieces_does_not_matter() {
    let content: Vec<u8> = (0..20_000u32).map(|i| (i * 7 % 256) as u8).collect();
    let whole = digest_bytes(&content);
    let by_8192: Vec<Vec<u8>> = content.chunks(8192).map(|c| c.to_vec()).collect();
    let by_3: Vec<Vec<u8>> = content.chunks(3).map(|c| c.to_vec()).collect();
    assert_eq!(digest_chunks(&by_8192), Some(whole));
    assert_eq!(digest_chunks(&by_3), Some(whole));
    assert_eq!(digest_chunks(&vec![Vec::new(), content.clone(), Vec::new()]), Some(whole));
    assert_eq!(digest_chunks(&Vec::new()), Some(digest_bytes(b"")));
}

#[test]
fn a_checksum_counts_and_can_go_on_after_a_digest() {
    let mut checksum = Checksum::new();
    assert_eq!(checksum.len(), 0);
    assert!(checksum.update(b"foo"));
    assert_eq!(checksum.len(), 3);
    let early = checksum.finalize();
    assert_eq!(early, checksum.finalize());
    assert_eq!(early, digest_bytes(b"foo"));
    assert!(checksum.update(b"bar"));
    assert_eq!(checksum.len(), 6);
    assert_eq!(checksum.finalize(), digest_bytes(b"foobar"));
}

#[test]
fn different_content_has_a_different_digest() {
    assert_ne!(digest_bytes(b"picture"), digest_bytes(b"pictere"));
    assert_ne!(digest_bytes(b""), digest_bytes(b"\0"));
}

#[test]
fn digests_compare_byte_for_byte() {
    let a = digest_bytes(b"a");
    let mut b = a;
    assert!(a.matches(&b));
    b.bytes[31] ^= 1;
    assert!(!a.matches(&b));
    b.bytes[31] ^= 1;
    b.bytes[0] ^= 0x80;
    assert!(!a.matches(&b));
}

#[test]
fn a_faithful_copy_is_verified() {
    let source = digest_bytes(b"raw picture bytes");
    let copy = digest_bytes(b"raw picture bytes");
    assert_eq!(verify_copy(&Some(source), &Some(copy)), Verification::Verified);
}

#[test]
fn a_copy_changed_afterwards_is_a_mismatch() {
    let source = digest_bytes(b"raw picture bytes");
    let copy = digest_bytes(b"raw picture bytez");
    assert_eq!(verify_copy(&Some(source), &Some(copy)), Verification::Mismatch);
}

#[test]
fn a_missing_digest_is_a_checksum_error() {
    let digest = digest_bytes(b"x");
    assert_eq!(verify_copy(&None, &Some(digest)), Verification::ChecksumError);
    assert_eq!(verify_copy(&Some(digest), &None), Verification::ChecksumError);
    assert_eq!(verify_copy(&None, &None), Verification::ChecksumError);
}
