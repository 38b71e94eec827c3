use omnikv::rsm::{LogEntry, RSMCommand};
use omnikv::snapshot::OPSnapshot;
use omnikv::store::Store;
use omnikv::types::KeyValue;

fn kv(k: &str, v: &str) -> KeyValue {
    KeyValue { key: k.to_string(), value: v.to_string() }
}

fn cas_cmd(id: u64, k: &str, new_v: &str, exp_v: &str) -> RSMCommand {
    RSMCommand::new_cas((1, id), k.to_string(), new_v.to_string(), exp_v.to_string())
}

#[test]
fn use_snapshots_is_enabled() {
    assert!(OPSnapshot::use_snapshots());
}

#[test]
fn put_replaces_retained_history() {
    let cmds = vec![
        RSMCommand::new_put((1, 1), kv("a", "1")),
        cas_cmd(2, "a", "2", "1"),
        RSMCommand::new_put((1, 3), kv("a", "9")),
    ];
    let snap = OPSnapshot::create(&cmds);
    // The later put made the earlier history irrelevant: one entry, one
    // command.
    assert_eq!(snap.snapshotted.len(), 1);
    assert_eq!(snap.snapshotted[0].commands.len(), 1);
    assert_eq!(snap.value_for(&"a".to_string(), None), Some("9".to_string()));
}

#[test]
fn cas_appends_to_retained_history() {
    let cmds = vec![RSMCommand::new_put((1, 1), kv("a", "1")), cas_cmd(2, "a", "2", "1")];
    let snap = OPSnapshot::create(&cmds);
    assert_eq!(snap.snapshotted.len(), 1);
    assert_eq!(snap.snapshotted[0].commands.len(), 2);
    assert_eq!(snap.value_for(&"a".to_string(), None), Some("2".to_string()));
    // A CAS whose expected value never held replays as a no-op.
    let cmds = vec![cas_cmd(1, "b", "2", "1")];
    let snap = OPSnapshot::create(&cmds);
    assert_eq!(snap.value_for(&"b".to_string(), None), None);
    assert_eq!(snap.value_for(&"b".to_string(), Some("1".to_string())), Some("2".to_string()));
}

#[test]
fn clear_discards_history_and_dominates() {
    let cmds = vec![
        RSMCommand::new_put((1, 1), kv("a", "1")),
        RSMCommand::new_clear((1, 2)),
        RSMCommand::new_put((1, 3), kv("b", "2")),
    ];
    let snap = OPSnapshot::create(&cmds);
    assert!(snap.clear);
    assert_eq!(snap.value_for(&"a".to_string(), Some("1".to_string())), None);
    assert_eq!(snap.value_for(&"b".to_string(), None), Some("2".to_string()));
    // An unrelated key the snapshot does not retain is still wiped by the
    // dominant clear flag.
    assert_eq!(snap.value_for(&"z".to_string(), Some("9".to_string())), None);
}

#[test]
fn merge_applies_the_replace_or_append_rule() {
    let mut base = OPSnapshot::create(&vec![
        RSMCommand::new_put((1, 1), kv("a", "1")),
        RSMCommand::new_put((1, 2), kv("b", "5")),
    ]);
    let delta = OPSnapshot::create(&vec![
        cas_cmd(3, "a", "2", "1"),
        RSMCommand::new_put((1, 4), kv("b", "6")),
    ]);
    base.merge(delta);
    assert_eq!(base.value_for(&"a".to_string(), None), Some("2".to_string()));
    assert_eq!(base.value_for(&"b".to_string(), None), Some("6".to_string()));
}

#[test]
fn merge_with_set_clear_flag_wins_unconditionally() {
    let mut base = OPSnapshot::create(&vec![RSMCommand::new_put((1, 1), kv("a", "1"))]);
    let delta = OPSnapshot::create(&vec![
        RSMCommand::new_clear((1, 2)),
        RSMCommand::new_put((1, 3), kv("c", "3")),
    ]);
    base.merge(delta);
    assert!(base.clear);
    assert_eq!(base.value_for(&"a".to_string(), Some("1".to_string())), None);
    assert_eq!(base.value_for(&"c".to_string(), None), Some("3".to_string()));
}

#[test]
fn snapshot_merge_round_trip_matches_direct_replay() {
    // Fold a command sequence into a snapshot, merge it into an empty
    // snapshot, and replay the result: the store must look exactly as if
    // the commands had been applied in order.
    let cmds = vec![
        RSMCommand::new_put((1, 1), kv("a", "1")),
        cas_cmd(2, "a", "2", "1"),
        cas_cmd(3, "a", "9", "1"),
        RSMCommand::new_put((1, 4), kv("b", "5")),
        RSMCommand::new_delete((1, 5), "b".to_string()),
        RSMCommand::new_put((1, 6), kv("c", "7")),
    ];
    let mut merged = OPSnapshot::new();
    merged.merge(OPSnapshot::create(&cmds));

    let mut via_snapshot = Store::new();
    via_snapshot.apply_decided_entries(vec![LogEntry::Snapshotted(merged)]).unwrap();

    let mut direct = Store::new();
    direct
        .apply_decided_entries(cmds.into_iter().map(LogEntry::Decided).collect())
        .unwrap();

    for key in ["a", "b", "c", "d"] {
        assert_eq!(via_snapshot.get(&key.to_string()), direct.get(&key.to_string()));
    }
    assert_eq!(via_snapshot.get(&"a".to_string()), Some("2".to_string()));
    assert_eq!(via_snapshot.get(&"b".to_string()), None);
    assert_eq!(via_snapshot.get(&"c".to_string()), Some("7".to_string()));
}
