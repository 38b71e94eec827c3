use omnikv::rsm::{LogEntry, RSMCommand};
use omnikv::snapshot::OPSnapshot;
use omnikv::store::{InvariantViolation, Store};
use omnikv::types::KeyValue;

fn kv(k: &str, v: &str) -> KeyValue {
    KeyValue { key: k.to_string(), value: v.to_string() }
}

fn put(id: u64, k: &str, v: &str) -> LogEntry {
    LogEntry::Decided(RSMCommand::new_put((1, id), kv(k, v)))
}

fn cas(id: u64, k: &str, new_v: &str, exp_v: &str) -> LogEntry {
    LogEntry::Decided(RSMCommand::new_cas((1, id), k.to_string(), new_v.to_string(), exp_v.to_string()))
}

fn delete(id: u64, k: &str) -> LogEntry {
    LogEntry::Decided(RSMCommand::new_delete((1, id), k.to_string()))
}

fn clear(id: u64) -> LogEntry {
    LogEntry::Decided(RSMCommand::new_clear((1, id)))
}

#[test]
fn get_on_empty_store_finds_nothing() {
    let store = Store::new();
    assert_eq!(store.applied_index(), 0);
    assert_eq!(store.get(&"k".to_string()), None);
}

#[test]
fn put_then_get() {
    let mut store = Store::new();
    store.apply_decided_entries(vec![put(1, "k", "v")]).unwrap();
    assert_eq!(store.get(&"k".to_string()), Some("v".to_string()));
    assert_eq!(store.applied_index(), 1);
}

#[test]
fn cas_is_gated_on_the_expected_value() {
    let mut store = Store::new();
    // CAS on an empty store is a silent no-op.
    store.apply_decided_entries(vec![cas(1, "a", "v2", "v1")]).unwrap();
    assert_eq!(store.get(&"a".to_string()), None);
    // After the key holds the expected value, the same CAS takes effect.
    store.apply_decided_entries(vec![put(2, "a", "v1"), cas(3, "a", "v2", "v1")]).unwrap();
    assert_eq!(store.get(&"a".to_string()), Some("v2".to_string()));
    assert_eq!(store.applied_index(), 3);
}

#[test]
fn delete_unbinds_the_key() {
    let mut store = Store::new();
    store.apply_decided_entries(vec![put(1, "k", "v"), delete(2, "k")]).unwrap();
    assert_eq!(store.get(&"k".to_string()), None);
}

#[test]
fn clear_unbinds_every_key() {
    let mut store = Store::new();
    store
        .apply_decided_entries(vec![put(1, "a", "1"), put(2, "b", "2"), clear(3), put(4, "c", "3")])
        .unwrap();
    assert_eq!(store.get(&"a".to_string()), None);
    assert_eq!(store.get(&"b".to_string()), None);
    assert_eq!(store.get(&"c".to_string()), Some("3".to_string()));
}

#[test]
fn linearizable_read_changes_nothing() {
    let mut store = Store::new();
    store
        .apply_decided_entries(vec![
            put(1, "k", "v"),
            LogEntry::Decided(RSMCommand::new_linearizable_read((1, 2))),
        ])
        .unwrap();
    assert_eq!(store.get(&"k".to_string()), Some("v".to_string()));
    assert_eq!(store.applied_index(), 2);
}

#[test]
fn two_replicas_applying_the_same_log_agree() {
    let log = || {
        vec![
            put(1, "a", "1"),
            cas(2, "a", "2", "1"),
            put(3, "b", "9"),
            delete(4, "a"),
            cas(5, "b", "8", "1"),
        ]
    };
    let mut replica1 = Store::new();
    let mut replica2 = Store::new();
    replica1.apply_decided_entries(log()).unwrap();
    replica2.apply_decided_entries(log()).unwrap();
    for key in ["a", "b", "c"] {
        assert_eq!(replica1.get(&key.to_string()), replica2.get(&key.to_string()));
    }
    assert_eq!(replica1.get(&"a".to_string()), None);
    assert_eq!(replica1.get(&"b".to_string()), Some("9".to_string()));
}

#[test]
fn undecided_entry_halts_processing() {
    let mut store = Store::new();
    let r = store.apply_decided_entries(vec![
        put(1, "k", "v"),
        LogEntry::Undecided(RSMCommand::new_clear((1, 2))),
        put(3, "x", "y"),
    ]);
    assert_eq!(r, Err(InvariantViolation::UndecidedEntry));
    // Everything before the violating entry was applied and counted.
    assert_eq!(store.get(&"k".to_string()), Some("v".to_string()));
    assert_eq!(store.get(&"x".to_string()), None);
    assert_eq!(store.applied_index(), 1);
}

#[test]
fn stop_sign_and_trimmed_are_unsupported() {
    let mut store = Store::new();
    assert_eq!(
        store.apply_decided_entries(vec![LogEntry::StopSign]),
        Err(InvariantViolation::UnsupportedEntry)
    );
    assert_eq!(
        store.apply_decided_entries(vec![LogEntry::Trimmed]),
        Err(InvariantViolation::UnsupportedEntry)
    );
    assert_eq!(store.applied_index(), 0);
}

#[test]
fn snapshotted_entry_overlays_the_map() {
    // Build a snapshot from a command sequence, then apply it in place of
    // the sequence itself.
    let cmds = vec![
        RSMCommand::new_put((1, 1), kv("a", "1")),
        RSMCommand::new_cas((1, 2), "a".to_string(), "2".to_string(), "1".to_string()),
        RSMCommand::new_put((1, 3), kv("b", "7")),
    ];
    let snap = OPSnapshot::create(&cmds);
    let mut store = Store::new();
    store.apply_decided_entries(vec![LogEntry::Snapshotted(snap)]).unwrap();
    assert_eq!(store.get(&"a".to_string()), Some("2".to_string()));
    assert_eq!(store.get(&"b".to_string()), Some("7".to_string()));
    assert_eq!(store.applied_index(), 1);
}
