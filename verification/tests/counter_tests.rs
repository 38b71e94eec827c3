use omnikv::counter::{parse_u64, render_u64, CommandIdGen, DurableCounter};

#[test]
fn parse_rejects_empty_and_junk() {
    assert_eq!(parse_u64(b""), None);
    assert_eq!(parse_u64(b"12a"), None);
    assert_eq!(parse_u64(b"-3"), None);
    assert_eq!(parse_u64(b" 7"), None);
}

#[test]
fn parse_reads_decimal() {
    assert_eq!(parse_u64(b"0"), Some(0));
    assert_eq!(parse_u64(b"42"), Some(42));
    assert_eq!(parse_u64(b"007"), Some(7));
    assert_eq!(parse_u64(b"18446744073709551615"), Some(u64::MAX));
    assert_eq!(parse_u64(b"18446744073709551616"), None);
}

#[test]
fn render_round_trips() {
    for n in [0u64, 1, 9, 10, 99, 100, 1234567890, u64::MAX] {
        let bytes = render_u64(n);
        assert_eq!(parse_u64(&bytes), Some(n));
    }
    assert_eq!(render_u64(1050), b"1050".to_vec());
}

#[test]
fn counter_increments_and_persists() {
    let mut c = DurableCounter::new();
    assert_eq!(c.value, 0);
    assert_eq!(c.next(), 1);
    assert_eq!(c.next(), 2);
    assert_eq!(parse_u64(&c.render()), Some(2));
}

#[test]
fn recovery_prefers_first_location() {
    let c = DurableCounter::recover(Some(b"12"), Some(b"11"));
    assert_eq!(c.value, 12);
}

#[test]
fn recovery_falls_back_on_corrupt_first() {
    let c = DurableCounter::recover(Some(b"12\xff"), Some(b"11"));
    assert_eq!(c.value, 11);
    let c = DurableCounter::recover(None, Some(b"11"));
    assert_eq!(c.value, 11);
}

#[test]
fn recovery_defaults_to_zero() {
    let c = DurableCounter::recover(None, None);
    assert_eq!(c.value, 0);
    let c = DurableCounter::recover(Some(b"x"), Some(b""));
    assert_eq!(c.value, 0);
}

#[test]
fn crash_between_redundant_writes_never_regresses() {
    // Both locations confirmed at 7; the counter moves to 8 and the
    // process stops after rewriting only the first location.
    let mut c = DurableCounter::recover(Some(b"7"), Some(b"7"));
    let confirmed = c.value;
    let next = c.next();
    let first = c.render();
    let second = render_u64(confirmed);
    let recovered = DurableCounter::recover(Some(&first), Some(&second));
    assert_eq!(recovered.value, next);
    assert!(recovered.value >= confirmed);
    // A torn first write that no longer parses falls back to the second
    // location, which still holds the confirmed value.
    let recovered = DurableCounter::recover(Some(b"8\xff\xff"), Some(&second));
    assert_eq!(recovered.value, confirmed);
}

#[test]
fn command_ids_are_scoped_per_node_and_increase() {
    let mut gen = CommandIdGen::recover(3, None, None);
    assert_eq!(gen.next_id(), (3, 1));
    assert_eq!(gen.next_id(), (3, 2));
    assert_eq!(parse_u64(&gen.persist_bytes()), Some(2));
    let mut restarted = CommandIdGen::recover(3, Some(&gen.persist_bytes()), None);
    assert_eq!(restarted.next_id(), (3, 3));
}
