use omnikv::counter::DurableCounter;
use omnikv::snapshot::OPSnapshot;
use omnikv::rsm::{find_decided_index, LogEntry, RSMCommand, RSM};
use omnikv::store::{get_prev_value_after_decide, Store};
use omnikv::types::KeyValue;

fn kv(k: &str, v: &str) -> KeyValue {
    KeyValue { key: k.to_string(), value: v.to_string() }
}

#[test]
fn command_identities_are_readable() {
    assert_eq!(RSMCommand::new_put((2, 7), kv("k", "v")).get_id(), (2, 7));
    assert_eq!(RSMCommand::new_delete((3, 1), "k".to_string()).get_id(), (3, 1));
    assert_eq!(RSMCommand::new_linearizable_read((4, 9)).get_id(), (4, 9));
    assert_eq!(RSMCommand::new_clear((5, 2)).get_id(), (5, 2));
    assert_eq!(
        RSMCommand::new_cas((6, 3), "k".to_string(), "n".to_string(), "e".to_string()).get_id(),
        (6, 3)
    );
}

#[test]
fn find_decided_index_returns_the_absolute_position() {
    let entries = vec![
        LogEntry::Decided(RSMCommand::new_put((1, 1), kv("a", "1"))),
        LogEntry::Undecided(RSMCommand::new_put((1, 9), kv("z", "9"))),
        LogEntry::Decided(RSMCommand::new_put((1, 2), kv("b", "2"))),
    ];
    assert_eq!(find_decided_index(&entries, 10, (1, 2)), Some(12));
    assert_eq!(find_decided_index(&entries, 10, (1, 1)), Some(10));
    // An id that is only present in an undecided entry is not found.
    assert_eq!(find_decided_index(&entries, 10, (1, 9)), None);
    assert_eq!(find_decided_index(&entries, 10, (7, 7)), None);
}

#[test]
fn prev_value_reflects_concurrently_decided_writes() {
    // A writer read `None` for "k" at decided position 4; while it awaited
    // its own commit at position 6, another writer committed at 4 and 5.
    let entries = vec![
        LogEntry::Decided(RSMCommand::new_put((2, 1), kv("k", "other"))),
        LogEntry::Decided(RSMCommand::new_put((2, 2), kv("x", "y"))),
        LogEntry::Decided(RSMCommand::new_put((1, 1), kv("k", "mine"))),
    ];
    let prev = get_prev_value_after_decide(&"k".to_string(), None, 4, 6, &entries);
    assert_eq!(prev, Some("other".to_string()));
}

#[test]
fn prev_value_stops_at_the_operations_own_entry() {
    // The operation's own entry, and anything after it, must not be
    // replayed into the previous value.
    let entries = vec![
        LogEntry::Decided(RSMCommand::new_put((1, 1), kv("k", "mine"))),
        LogEntry::Decided(RSMCommand::new_put((2, 9), kv("k", "later"))),
    ];
    let prev = get_prev_value_after_decide(
        &"k".to_string(),
        Some("old".to_string()),
        4,
        4,
        &entries,
    );
    assert_eq!(prev, Some("old".to_string()));
}

#[test]
fn prev_value_sees_deletes_and_gated_cas() {
    let entries = vec![
        LogEntry::Decided(RSMCommand::new_delete((2, 1), "k".to_string())),
        LogEntry::Decided(RSMCommand::new_cas(
            (2, 2),
            "k".to_string(),
            "v2".to_string(),
            "v1".to_string(),
        )),
    ];
    // The delete wipes the tracked value, so the CAS's expectation fails.
    let prev =
        get_prev_value_after_decide(&"k".to_string(), Some("v1".to_string()), 0, 2, &entries);
    assert_eq!(prev, None);
}

#[test]
fn prev_value_replays_snapshotted_entries() {
    // The suffix read during reconciliation may hold a compacted prefix in
    // place of the individual commands it replaced.
    let snap = OPSnapshot::create(&vec![
        RSMCommand::new_put((2, 1), kv("k", "snapped")),
        RSMCommand::new_put((2, 2), kv("x", "y")),
    ]);
    let entries = vec![
        LogEntry::Snapshotted(snap),
        LogEntry::Decided(RSMCommand::new_put((1, 3), kv("k", "mine"))),
    ];
    let prev = get_prev_value_after_decide(&"k".to_string(), None, 0, 1, &entries);
    assert_eq!(prev, Some("snapped".to_string()));
}

#[test]
fn put_reports_none_then_the_previous_value() {
    // The write path's sequence for two puts of the same key with no
    // concurrent writers: read, submit, await, reconcile.
    let mut store = Store::new();
    let key = "k".to_string();

    let before = store.get(&key);
    assert_eq!(before, None);
    let cmd = RSMCommand::new_put((1, 1), kv("k", "v1"));
    let decided = vec![LogEntry::Decided(cmd)];
    let prev = get_prev_value_after_decide(&key, before, 0, 0, &decided);
    assert_eq!(prev, None);
    store.apply_decided_entries(decided).unwrap();

    let before = store.get(&key);
    assert_eq!(before, Some("v1".to_string()));
    let cmd = RSMCommand::new_put((1, 2), kv("k", "v2"));
    let decided = vec![LogEntry::Decided(cmd)];
    let prev = get_prev_value_after_decide(&key, before, 1, 1, &decided);
    assert_eq!(prev, Some("v1".to_string()));
    store.apply_decided_entries(decided).unwrap();
    assert_eq!(store.get(&key), Some("v2".to_string()));
}

#[test]
fn delete_reports_the_previous_value_and_unbinds() {
    let mut store = Store::new();
    let key = "k".to_string();
    store
        .apply_decided_entries(vec![LogEntry::Decided(RSMCommand::new_put((1, 1), kv("k", "v")))])
        .unwrap();

    let before = store.get(&key);
    assert_eq!(before, Some("v".to_string()));
    let decided = vec![LogEntry::Decided(RSMCommand::new_delete((1, 2), key.clone()))];
    let prev = get_prev_value_after_decide(&key, before, 1, 1, &decided);
    assert_eq!(prev, Some("v".to_string()));
    store.apply_decided_entries(decided).unwrap();
    assert_eq!(store.get(&key), None);
}

#[test]
fn ordered_messages_get_increasing_sequence_ids() {
    let mut rsm: RSM<&str> = RSM::new(&vec![2, 3], DurableCounter::new());
    assert_eq!(rsm.enqueue_ordered(2, "m1"), 1);
    assert_eq!(rsm.enqueue_ordered(3, "m2"), 2);
    assert_eq!(rsm.enqueue_ordered(2, "m3"), 3);
    assert_eq!(rsm.pending_len(), 3);
    for i in 0..rsm.pending_len() - 1 {
        assert!(rsm.pending(i).sequence_id < rsm.pending(i + 1).sequence_id);
    }
}

#[test]
fn a_failed_send_keeps_everything_behind_it() {
    let mut rsm: RSM<&str> = RSM::new(&vec![2, 3], DurableCounter::new());
    rsm.enqueue_ordered(2, "m1");
    rsm.enqueue_ordered(3, "m2");
    rsm.enqueue_ordered(2, "m3");
    // The sender delivered the first message, then the second failed: only
    // the confirmed prefix leaves the buffer.
    rsm.mark_sent(1);
    assert_eq!(rsm.pending_len(), 2);
    assert_eq!(rsm.pending(0).sequence_id, 2);
    assert_eq!(rsm.pending(1).sequence_id, 3);
    // The failed head still blocks everything with a greater sequence id.
    assert!(rsm.pending(0).sequence_id < rsm.pending(1).sequence_id);
}

#[test]
fn duplicate_ordered_messages_are_delivered_once() {
    let mut rsm: RSM<&str> = RSM::new(&vec![2, 3], DurableCounter::new());
    assert!(rsm.knows_peer(2));
    assert!(!rsm.knows_peer(9));
    let mut handled = 0;
    for _ in 0..2 {
        if rsm.receive_ordered(2, 5) {
            handled += 1;
        }
    }
    assert_eq!(handled, 1);
    // The same sequence id from another sender is not a duplicate.
    assert!(rsm.receive_ordered(3, 5));
}

#[test]
fn out_of_order_delivery_is_still_recorded_per_id() {
    let mut rsm: RSM<&str> = RSM::new(&vec![2], DurableCounter::new());
    assert!(rsm.receive_ordered(2, 2));
    assert!(rsm.receive_ordered(2, 1));
    assert!(!rsm.receive_ordered(2, 2));
    assert!(!rsm.receive_ordered(2, 1));
    assert!(rsm.receive_ordered(2, 3));
}

#[test]
fn reconnection_is_reported_once_per_outage() {
    let mut rsm: RSM<&str> = RSM::new(&vec![2, 3], DurableCounter::new());
    // Peers start unreachable, so the first success is a reconnection.
    assert!(rsm.record_send_result(2, true));
    assert!(!rsm.record_send_result(2, true));
    assert!(!rsm.record_send_result(2, false));
    assert!(rsm.record_send_result(2, true));
    // An untracked destination never triggers the engine's resync hook.
    assert!(!rsm.record_send_result(9, true));
}

#[test]
fn a_restarting_peer_has_its_buffered_messages_purged() {
    let mut rsm: RSM<&str> = RSM::new(&vec![2, 3], DurableCounter::new());
    rsm.enqueue_ordered(2, "m1");
    rsm.enqueue_ordered(3, "m2");
    rsm.enqueue_ordered(2, "m3");
    rsm.enqueue_ordered(3, "m4");
    rsm.purge_peer(2);
    assert_eq!(rsm.pending_len(), 2);
    assert_eq!(rsm.pending(0).receiver, 3);
    assert_eq!(rsm.pending(0).sequence_id, 2);
    assert_eq!(rsm.pending(1).receiver, 3);
    assert_eq!(rsm.pending(1).sequence_id, 4);
    // Fresh sequence ids continue after the purge.
    assert_eq!(rsm.enqueue_ordered(3, "m5"), 5);
}
