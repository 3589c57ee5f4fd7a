use clubbench::rng::{domain_stream_seed, stable_hash, EpisodeRng};

#[test]
fn set_domain_is_reproducible_and_action_invariant() {
    let mut rng = EpisodeRng::new().unwrap();
    rng.set_seed(42);
    // Same (domain, key) -> same stream, every time.
    rng.set_domain("match", &1u64.to_le_bytes());
    let x = rng.next_u64();
    rng.set_domain("match", &1u64.to_le_bytes());
    assert_eq!(x, rng.next_u64(), "same key must give the same stream");

    // Different key -> different stream.
    rng.set_domain("match", &2u64.to_le_bytes());
    assert_ne!(x, rng.next_u64(), "different key must give a different stream");

    // Action-invariance: consuming the "match" stream must not disturb the
    // "day" stream.
    rng.set_domain("day", b"2026-07-01");
    let day_first = rng.next_u64();
    rng.set_domain("match", &7u64.to_le_bytes());
    let _ = rng.next_u64();
    rng.set_domain("day", b"2026-07-01");
    assert_eq!(day_first, rng.next_u64(), "day stream must ignore match draws");

    rng.reset_random().unwrap();
    assert_eq!(rng.seed(), None);
}

#[test]
fn stable_hash_matches_fnv1a_reference_values() {
    assert_eq!(stable_hash(b""), 0xcbf2_9ce4_8422_2325);
    assert_eq!(stable_hash(b"a"), 0xaf63_dc4c_8601_ec8c);
    assert_eq!(stable_hash(b"foobar"), 0x8594_4171_f739_67e8);
}

#[test]
fn stream_seed_hashes_domain_key_then_seed_bytes() {
    let mut buf = Vec::new();
    buf.extend_from_slice(b"match");
    buf.extend_from_slice(&5u64.to_le_bytes());
    buf.extend_from_slice(&42u64.to_le_bytes());
    assert_eq!(domain_stream_seed(42, "match", &5u64.to_le_bytes()), stable_hash(&buf));
}

#[test]
fn set_seed_restarts_the_same_stream() {
    let mut a = EpisodeRng::new().unwrap();
    let mut b = EpisodeRng::new().unwrap();
    let _ = b.next_u64();
    a.set_seed(7);
    b.set_seed(7);
    assert_eq!(a.seed(), Some(7));
    let xs: Vec<u64> = (0..4).map(|_| a.next_u64()).collect();
    let ys: Vec<u64> = (0..4).map(|_| b.next_u64()).collect();
    assert_eq!(xs, ys);
    let mut x32 = [0u8; 5];
    let mut y32 = [0u8; 5];
    a.fill_bytes(&mut x32);
    b.fill_bytes(&mut y32);
    assert_eq!(x32, y32);
    assert_eq!(a.next_u32(), b.next_u32());
}

#[test]
fn set_domain_without_seed_changes_nothing() {
    let mut rng = EpisodeRng::new().unwrap();
    rng.set_domain("match", b"1");
    assert_eq!(rng.seed(), None);
}
