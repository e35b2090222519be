//! The content fingerprint: deterministic, byte-sensitive, stable.

use sprite_atlas::fingerprint::ContentId;

#[test]
fn equal_bytes_equal_fingerprint() {
    let a = ContentId::of(b"the very same bytes");
    let b = ContentId::of(b"the very same bytes");
    assert_eq!(a, b);
    assert_eq!(a.bits(), b.bits());
}

#[test]
fn different_bytes_different_fingerprint() {
    let a = ContentId::of(b"one content");
    let b = ContentId::of(b"another content");
    let c = ContentId::of(b"one content.");
    assert_ne!(a, b);
    assert_ne!(a, c);
}

#[test]
fn fingerprint_values_are_part_of_the_format() {
    // The fold and its seed are a format contract: these exact values must
    // never change across releases.
    assert_eq!(ContentId::of(b"").bits(), 0x6c62272e07bb014262b821756295c0ad);
    assert_eq!(
        ContentId::of(b"abc").bits(),
        0xa6761cb5cc8b5822836dbc6fec9326db
    );
}
