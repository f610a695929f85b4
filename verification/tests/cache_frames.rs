use reader_core::cache::{cached_payload, frame_cache, CACHE_HEADER_LEN};

#[test]
fn frame_layout() {
    let out = frame_cache(0x0102030405060708, 9, &[0xAA, 0xBB]);
    assert_eq!(&out[..8], b"RERPC001");
    assert_eq!(&out[8..16], &[8, 7, 6, 5, 4, 3, 2, 1]);
    assert_eq!(&out[16..24], &9u64.to_le_bytes());
    assert_eq!(&out[24..], &[0xAA, 0xBB]);
    assert_eq!(out.len(), CACHE_HEADER_LEN + 2);
}

#[test]
fn roundtrip_yields_payload() {
    let payload = b"serialized book".to_vec();
    let out = frame_cache(1_700_000_000, 123_456, &payload);
    assert_eq!(cached_payload(&out, 1_700_000_000, 123_456), Some(&payload[..]));
}

#[test]
fn empty_payload_roundtrip() {
    let out = frame_cache(1, 2, &[]);
    assert_eq!(cached_payload(&out, 1, 2), Some(&[][..]));
}

#[test]
fn stale_cache_is_rejected() {
    let out = frame_cache(10, 20, b"x");
    assert_eq!(cached_payload(&out, 11, 20), None);
    assert_eq!(cached_payload(&out, 10, 21), None);
}

#[test]
fn short_or_untagged_cache_is_rejected() {
    let out = frame_cache(10, 20, b"x");
    assert_eq!(cached_payload(&out[..23], 10, 20), None);
    let mut bad = out.clone();
    bad[0] = b'X';
    assert_eq!(cached_payload(&bad, 10, 20), None);
    assert_eq!(cached_payload(&[], 10, 20), None);
}
