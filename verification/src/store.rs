//! The store materializes the decided log into a local key-to-value map:
//! a cursor records how much of the log has been folded in, the apply step
//! is deterministic and identical on every replica, and the previous-value
//! reconciliation replays the entries other writers committed concurrently
//! to report the value a key held just before an operation took effect.

use vstd::prelude::*;
use vstd::pervasive::VecAdditionalExecFns;
use crate::rsm::{
    apply_at_key, apply_command, apply_command_at_key, lemma_value_at_ext, opt_view, value_at,
    LogEntry, RSMCommand, StoreModel,
};
use crate::snapshot::{
    history_views, overlay, overlay_entries, overlay_entry, snapshot_value_at, HistoryView,
    OPSnapshot, SnapshotEntry,
};
use crate::types::{Key, KeyValue, Value};

verus! {

/// The engine broke its contract: an entry that must already be decided is
/// not, or an entry kind this design does not support appeared. Processing
/// halts at that entry rather than silently continuing.
#[derive(Debug, PartialEq, Eq, Structural)]
pub enum InvariantViolation {
    UndecidedEntry,
    UnsupportedEntry,
}

/// Only decided commands and snapshots are handled by this design.
pub open spec fn entry_supported(e: LogEntry) -> bool {
    e is Decided || e is Snapshotted
}

/// The violation an unsupported entry signals.
pub open spec fn entry_error(e: LogEntry) -> InvariantViolation {
    if e is Undecided {
        InvariantViolation::UndecidedEntry
    } else {
        InvariantViolation::UnsupportedEntry
    }
}

/// What one decided log entry does to the map.
pub open spec fn apply_entry(m: StoreModel, e: LogEntry) -> StoreModel {
    match e {
        LogEntry::Decided(c) => apply_command(m, c),
        LogEntry::Snapshotted(s) => overlay(m, s@),
        _ => m,
    }
}

/// A decided suffix folded over the map, first entry first.
pub open spec fn apply_entries(m: StoreModel, es: Seq<LogEntry>) -> StoreModel
    decreases es.len(),
{
    if es.len() == 0 {
        m
    } else {
        apply_entry(apply_entries(m, es.drop_last()), es.last())
    }
}

/// The position of the first entry this design does not support, or the
/// length if every entry is supported.
pub open spec fn first_unsupported(es: Seq<LogEntry>) -> int
    decreases es.len(),
{
    if es.len() == 0 {
        0
    } else if !entry_supported(es[0]) {
        0
    } else {
        1 + first_unsupported(es.drop_first())
    }
}

/// Bounds and characterization of `first_unsupported`, for callers that
/// must show a suffix is fully supported.
pub proof fn lemma_first_unsupported(es: Seq<LogEntry>)
    ensures
        0 <= first_unsupported(es) <= es.len(),
        forall|j: int| 0 <= j < first_unsupported(es) ==> entry_supported(#[trigger] es[j]),
        first_unsupported(es) < es.len() ==> !entry_supported(es[first_unsupported(es)]),
    decreases es.len(),
{
    if es.len() > 0 && entry_supported(es[0]) {
        let rest = es.drop_first();
        lemma_first_unsupported(rest);
        assert(forall|i: int| 0 <= i < rest.len() ==> rest[i] == es[i + 1]);
        assert forall|j: int| 0 <= j < first_unsupported(es) implies entry_supported(
            #[trigger] es[j],
        ) by {
            if j > 0 {
                assert(rest[j - 1] == es[j]);
            }
        }
    }
}

/// Determinism: two replicas that fold the same decided entries over equal
/// maps end with equal maps.
pub proof fn lemma_store_determinism(m1: StoreModel, m2: StoreModel, es: Seq<LogEntry>)
    requires
        m1 == m2,
    ensures
        apply_entries(m1, es) == apply_entries(m2, es),
{
}

/// The map a sequence of bound keys denotes, later entries winning.
pub open spec fn assoc_map(s: Seq<KeyValue>) -> StoreModel
    decreases s.len(),
{
    if s.len() == 0 {
        Map::empty()
    } else {
        assoc_map(s.drop_last()).insert(s.last().key@, s.last().value@)
    }
}

/// No key is bound twice.
pub open spec fn keys_unique(s: Seq<KeyValue>) -> bool {
    forall|i: int, j: int| 0 <= i < j < s.len() ==> s[i].key@ != s[j].key@
}

/// With unique keys, the denoted map binds exactly the listed keys, each
/// to its listed value.
proof fn lemma_assoc_char(s: Seq<KeyValue>)
    requires
        keys_unique(s),
    ensures
        forall|k: Seq<char>| #[trigger]
            assoc_map(s).contains_key(k) <==> exists|i: int| 0 <= i < s.len() && s[i].key@ == k,
        forall|i: int|
            0 <= i < s.len() ==> #[trigger] value_at(assoc_map(s), s[i].key@) == Some(s[i].value@),
    decreases s.len(),
{
    if s.len() > 0 {
        let pre = s.drop_last();
        let e = s.last();
        lemma_assoc_char(pre);
        assert forall|k: Seq<char>| #[trigger]
            assoc_map(s).contains_key(k) <==> exists|i: int| 0 <= i < s.len() && s[i].key@
                == k by {
            if assoc_map(s).contains_key(k) {
                if k == e.key@ {
                    assert(s[s.len() - 1].key@ == k);
                } else {
                    let w = choose|w: int| 0 <= w < pre.len() && pre[w].key@ == k;
                    assert(s[w].key@ == k);
                }
            }
            if exists|i: int| 0 <= i < s.len() && s[i].key@ == k {
                let w = choose|w: int| 0 <= w < s.len() && s[w].key@ == k;
                if w < s.len() - 1 {
                    assert(pre[w].key@ == k);
                }
            }
        }
        assert forall|i: int| 0 <= i < s.len() implies #[trigger] value_at(assoc_map(s), s[i].key@)
            == Some(s[i].value@) by {
            if i < s.len() - 1 {
                assert(pre[i] == s[i]);
                assert(s[i].key@ != e.key@);
                assert(value_at(assoc_map(pre), pre[i].key@) == Some(pre[i].value@));
            }
        }
    }
}

/// The position of `key` among the bound entries.
fn map_find(s: &Vec<KeyValue>, key: &Key) -> (r: Option<usize>)
    ensures
        match r {
            Some(i) => 0 <= i < s@.len() && s@[i as int].key@ == key@,
            None => forall|j: int| 0 <= j < s@.len() ==> s@[j].key@ != key@,
        },
{
    let n = s.len();
    let mut i: usize = 0;
    while i < n
        invariant
            0 <= i <= s@.len(),
            n == s@.len(),
            forall|j: int| 0 <= j < i ==> s@[j].key@ != key@,
        decreases s@.len() - i,
    {
        let e: &KeyValue = &s[i];
        if e.key == *key {
            return Some(i);
        }
        i = i + 1;
    }
    None
}

/// Binds `kv.key` to `kv.value`, replacing any earlier binding.
fn map_insert(s: &mut Vec<KeyValue>, kv: KeyValue)
    requires
        keys_unique(old(s)@),
    ensures
        keys_unique(final(s)@),
        assoc_map(final(s)@) == assoc_map(old(s)@).insert(kv.key@, kv.value@),
{
    let ghost s0 = s@;
    let ghost kvk = kv.key@;
    let ghost kvv = kv.value@;
    proof {
        lemma_assoc_char(s0);
    }
    match map_find(s, &kv.key) {
        Some(i) => {
            s.set(i, kv);
            proof {
                assert(keys_unique(s@)) by {
                    assert forall|a: int, b: int|
                        0 <= a < b < s@.len() implies s@[a].key@ != s@[b].key@ by {
                        assert(s0[a].key@ == s@[a].key@ || a == i);
                        assert(s0[b].key@ == s@[b].key@ || b == i);
                    }
                }
                lemma_assoc_char(s@);
                assert forall|k: Seq<char>| #[trigger] value_at(assoc_map(s@), k) == value_at(
                    assoc_map(s0).insert(kvk, kvv),
                    k,
                ) by {
                    if k == kvk {
                        assert(s@[i as int].key@ == k);
                        assert(value_at(assoc_map(s@), k) == Some(kvv));
                    } else {
                        if assoc_map(s@).contains_key(k) {
                            let w = choose|w: int| 0 <= w < s@.len() && s@[w].key@ == k;
                            assert(w != i);
                            assert(s0[w] == s@[w]);
                            assert(value_at(assoc_map(s0), s0[w].key@) == Some(s0[w].value@));
                        }
                        if assoc_map(s0).contains_key(k) {
                            let w = choose|w: int| 0 <= w < s0.len() && s0[w].key@ == k;
                            assert(w != i);
                            assert(s0[w] == s@[w]);
                            assert(value_at(assoc_map(s@), s@[w].key@) == Some(s@[w].value@));
                        }
                    }
                }
                lemma_value_at_ext(assoc_map(s@), assoc_map(s0).insert(kvk, kvv));
            }
        },
        None => {
            s.push(kv);
            proof {
                assert(s@.drop_last() =~= s0);
                assert(keys_unique(s@)) by {
                    assert forall|a: int, b: int|
                        0 <= a < b < s@.len() implies s@[a].key@ != s@[b].key@ by {
                        if b < s0.len() {
                            assert(s0[a] == s@[a] && s0[b] == s@[b]);
                        } else {
                            assert(s0[a] == s@[a]);
                            assert(s@[b].key@ == kvk);
                        }
                    }
                }
                assert(assoc_map(s@) == assoc_map(s0).insert(kvk, kvv));
            }
        },
    }
}

/// Unbinds `key`, if it was bound.
fn map_remove(s: &mut Vec<KeyValue>, key: &Key)
    requires
        keys_unique(old(s)@),
    ensures
        keys_unique(final(s)@),
        assoc_map(final(s)@) == assoc_map(old(s)@).remove(key@),
{
    let ghost s0 = s@;
    proof {
        lemma_assoc_char(s0);
    }
    match map_find(s, key) {
        Some(i) => {
            s.remove(i);
            proof {
                assert forall|j: int| 0 <= j < s@.len() implies (#[trigger] s@[j]) == if j < i {
                    s0[j]
                } else {
                    s0[j + 1]
                } by {}
                assert(keys_unique(s@)) by {
                    assert forall|a: int, b: int|
                        0 <= a < b < s@.len() implies s@[a].key@ != s@[b].key@ by {
                        let a0: int = if a < i {
                            a
                        } else {
                            a + 1
                        };
                        let b0: int = if b < i {
                            b
                        } else {
                            b + 1
                        };
                        assert(s@[a] == s0[a0] && s@[b] == s0[b0]);
                    }
                }
                lemma_assoc_char(s@);
                assert forall|k: Seq<char>| #[trigger] value_at(assoc_map(s@), k) == value_at(
                    assoc_map(s0).remove(key@),
                    k,
                ) by {
                    if k == key@ {
                        if assoc_map(s@).contains_key(k) {
                            let w = choose|w: int| 0 <= w < s@.len() && s@[w].key@ == k;
                            let w0: int = if w < i {
                                w
                            } else {
                                w + 1
                            };
                            assert(s0[w0].key@ == k);
                            assert(s0[i as int].key@ == k);
                        }
                    } else {
                        if assoc_map(s@).contains_key(k) {
                            let w = choose|w: int| 0 <= w < s@.len() && s@[w].key@ == k;
                            let w0: int = if w < i {
                                w
                            } else {
                                w + 1
                            };
                            assert(s0[w0].key@ == k);
                            assert(value_at(assoc_map(s0), s0[w0].key@) == Some(s0[w0].value@));
                            assert(value_at(assoc_map(s@), s@[w].key@) == Some(s@[w].value@));
                        }
                        if assoc_map(s0).contains_key(k) {
                            let w0 = choose|w0: int| 0 <= w0 < s0.len() && s0[w0].key@ == k;
                            assert(w0 != i);
                            let w: int = if w0 < i {
                                w0
                            } else {
                                w0 - 1
                            };
                            assert(s@[w] == s0[w0]);
                            assert(value_at(assoc_map(s@), s@[w].key@) == Some(s@[w].value@));
                        }
                    }
                }
                lemma_value_at_ext(assoc_map(s@), assoc_map(s0).remove(key@));
            }
        },
        None => {
            proof {
                assert(!assoc_map(s0).contains_key(key@));
                assert(assoc_map(s0).remove(key@) =~= assoc_map(s0));
            }
        },
    }
}

/// A replica's materialized view of the decided log: the key-to-value map
/// and the cursor of how many log positions have been folded in. The map
/// mutates only through the apply step; the cursor never moves backwards.
pub struct Store {
    map: Vec<KeyValue>,
    applied_log_index: u64,
}

impl View for Store {
    type V = StoreModel;

    closed spec fn view(&self) -> StoreModel {
        assoc_map(self.map@)
    }
}

impl Store {
    /// The map's keys are bound at most once.
    pub closed spec fn wf(&self) -> bool {
        keys_unique(self.map@)
    }

    /// The highest log position folded into the map.
    pub closed spec fn applied(&self) -> u64 {
        self.applied_log_index
    }

    /// An empty store that has applied nothing.
    pub fn new() -> (r: Self)
        ensures
            r.wf(),
            r@ == Map::<Seq<char>, Seq<char>>::empty(),
            r.applied() == 0,
    {
        Store { map: Vec::new(), applied_log_index: 0 }
    }

    /// The cursor, for reading the decided suffix that is still missing.
    pub fn applied_index(&self) -> (r: u64)
        ensures
            r == self.applied(),
    {
        self.applied_log_index
    }

    /// Sequentially consistent read of one key: what the locally applied
    /// log prefix binds it to. The caller folds in the newly decided
    /// entries first (`apply_decided_entries`).
    pub fn get(&self, key: &Key) -> (r: Option<Value>)
        requires
            self.wf(),
        ensures
            opt_view(r) == value_at(self@, key@),
    {
        proof {
            lemma_assoc_char(self.map@);
        }
        match map_find(&self.map, key) {
            Some(i) => {
                let e: &KeyValue = &self.map[i];
                proof {
                    assert(value_at(self@, self.map@[i as int].key@) == Some(
                        self.map@[i as int].value@,
                    ));
                }
                Some(e.value.clone())
            },
            None => {
                proof {
                    if self@.contains_key(key@) {
                        let w = choose|w: int|
                            0 <= w < self.map@.len() && self.map@[w].key@ == key@;
                    }
                }
                None
            },
        }
    }

    /// Applies one decided command; deterministic and identical on every
    /// replica.
    fn apply_command_exec(&mut self, c: RSMCommand)
        requires
            old(self).wf(),
        ensures
            final(self).wf(),
            final(self)@ == apply_command(old(self)@, c),
            final(self).applied() == old(self).applied(),
    {
        match c {
            RSMCommand::Put((_, kv)) => {
                map_insert(&mut self.map, kv);
            },
            RSMCommand::Delete((_, dk)) => {
                map_remove(&mut self.map, &dk);
            },
            RSMCommand::CAS((_, kv, exp)) => {
                proof {
                    lemma_assoc_char(self.map@);
                }
                match map_find(&self.map, &kv.key) {
                    Some(i) => {
                        let e: &KeyValue = &self.map[i];
                        proof {
                            assert(value_at(self@, self.map@[i as int].key@) == Some(
                                self.map@[i as int].value@,
                            ));
                        }
                        if e.value == exp {
                            map_insert(&mut self.map, kv);
                        }
                    },
                    None => {
                        proof {
                            if self@.contains_key(kv.key@) {
                                let w = choose|w: int|
                                    0 <= w < self.map@.len() && self.map@[w].key@ == kv.key@;
                            }
                        }
                    },
                }
            },
            RSMCommand::LinearizableRead(_) => {},
            RSMCommand::Clear(_) => {
                self.map.clear();
                proof {
                    assert(assoc_map(self.map@) =~= Map::<Seq<char>, Seq<char>>::empty());
                }
            },
        }
    }

    /// Overlays a snapshot: a set `clear` flag wins over any older
    /// content, then each key's retained history is replayed.
    fn apply_snapshot_exec(&mut self, s: OPSnapshot)
        requires
            old(self).wf(),
        ensures
            final(self).wf(),
            final(self)@ == overlay(old(self)@, s@),
            final(self).applied() == old(self).applied(),
    {
        let ghost sv = s@;
        if s.clear {
            self.map.clear();
            proof {
                assert(assoc_map(self.map@) =~= Map::<Seq<char>, Seq<char>>::empty());
            }
        }
        let ghost base = self@;
        let es = s.snapshotted;
        let n = es.len();
        let mut i: usize = 0;
        while i < n
            invariant
                0 <= i <= es@.len(),
                n == es@.len(),
                self.wf(),
                self@ == overlay_entries(base, history_views(es@).take(i as int)),
                self.applied_log_index == old(self).applied_log_index,
            decreases es@.len() - i,
        {
            let ghost pre = self@;
            let e: &SnapshotEntry = &es[i];
            let ghost h = history_views(es@)[i as int];
            let cur = self.get(&e.key);
            let ghost cur_v = opt_view(cur);
            let mut v = cur;
            let cn = e.commands.len();
            let mut j: usize = 0;
            while j < cn
                invariant
                    0 <= j <= e.commands@.len(),
                    cn == e.commands@.len(),
                    opt_view(v) == crate::snapshot::replay_history(
                        cur_v,
                        e.key@,
                        e.commands@.take(j as int),
                    ),
                decreases e.commands@.len() - j,
            {
                let c = e.commands[j].clone();
                v = apply_command_at_key(v, &e.key, c);
                proof {
                    let t = e.commands@.take(j as int + 1);
                    assert(t.drop_last() =~= e.commands@.take(j as int));
                    assert(t.last() == e.commands@[j as int]);
                }
                j = j + 1;
            }
            proof {
                assert(e.commands@.take(e.commands@.len() as int) =~= e.commands@);
            }
            match v {
                Some(value) => {
                    let kv = KeyValue { key: e.key.clone(), value };
                    map_insert(&mut self.map, kv);
                },
                None => {
                    map_remove(&mut self.map, &e.key);
                },
            }
            proof {
                assert(h.0 == e.key@ && h.1 == e.commands@);
                assert(self@ == overlay_entry(pre, h));
                let t = history_views(es@).take(i as int + 1);
                assert(t.drop_last() =~= history_views(es@).take(i as int));
                assert(t.last() == history_views(es@)[i as int]);
            }
            i = i + 1;
        }
        proof {
            assert(history_views(es@).take(es@.len() as int) =~= history_views(es@));
            assert(sv.entries == history_views(es@));
        }
    }

    /// Folds the newly decided suffix, read from the cursor's position,
    /// into the map; identical and deterministic on every replica. Stops
    /// with an `InvariantViolation` at the first entry this design does
    /// not support: everything before it is applied and counted, the
    /// violating entry is not.
    #[verifier::loop_isolation(false)]
    pub fn apply_decided_entries(&mut self, entries: Vec<LogEntry>) -> (r: Result<
        (),
        InvariantViolation,
    >)
        requires
            old(self).wf(),
            old(self).applied() + entries@.len() <= u64::MAX,
        ensures
            final(self).wf(),
            ({
                let cut = first_unsupported(entries@);
                if cut == entries@.len() {
                    &&& r is Ok
                    &&& final(self)@ == apply_entries(old(self)@, entries@)
                    &&& final(self).applied() == old(self).applied() + entries@.len()
                } else {
                    &&& r == Result::<(), InvariantViolation>::Err(entry_error(entries@[cut]))
                    &&& final(self)@ == apply_entries(old(self)@, entries@.take(cut))
                    &&& final(self).applied() == old(self).applied() + cut
                }
            }),
    {
        let ghost es0 = entries@;
        proof {
            lemma_first_unsupported(es0);
        }
        let mut rest = entries;
        let n = rest.len();
        let mut i: usize = 0;
        while i < n
            invariant
                0 <= i <= es0.len(),
                n == es0.len(),
                rest@ == es0.skip(i as int),
                self.wf(),
                i <= first_unsupported(es0),
                forall|j: int| 0 <= j < first_unsupported(es0) ==> entry_supported(
                    #[trigger] es0[j],
                ),
                first_unsupported(es0) < es0.len() ==> !entry_supported(
                    es0[first_unsupported(es0)],
                ),
                first_unsupported(es0) <= es0.len(),
                self@ == apply_entries(old(self)@, es0.take(i as int)),
                self.applied_log_index == old(self).applied_log_index + i,
                old(self).applied() + es0.len() <= u64::MAX,
            decreases es0.len() - i,
        {
            let ghost pre = self@;
            let e = rest.remove(0);
            proof {
                assert(es0.skip(i as int).remove(0) =~= es0.skip(i as int + 1));
                assert(e == es0[i as int]);
            }
            match e {
                LogEntry::Decided(c) => {
                    self.apply_command_exec(c);
                },
                LogEntry::Snapshotted(s) => {
                    self.apply_snapshot_exec(s);
                },
                LogEntry::Undecided(_) => {
                    proof {
                        assert(!entry_supported(es0[i as int]));
                        assert(first_unsupported(es0) == i) by {
                            if first_unsupported(es0) > i {
                                assert(entry_supported(es0[i as int]));
                            }
                        }
                        assert(entry_error(es0[i as int]) == InvariantViolation::UndecidedEntry);
                        assert(self@ == apply_entries(
                            old(self)@,
                            es0.take(first_unsupported(es0)),
                        ));
                        assert(self.applied_log_index == old(self).applied_log_index
                            + first_unsupported(es0));
                    }
                    return Err(InvariantViolation::UndecidedEntry);
                },
                LogEntry::StopSign => {
                    proof {
                        assert(!entry_supported(es0[i as int]));
                        assert(first_unsupported(es0) == i) by {
                            if first_unsupported(es0) > i {
                                assert(entry_supported(es0[i as int]));
                            }
                        }
                        assert(entry_error(es0[i as int]) == InvariantViolation::UnsupportedEntry);
                        assert(self@ == apply_entries(
                            old(self)@,
                            es0.take(first_unsupported(es0)),
                        ));
                        assert(self.applied_log_index == old(self).applied_log_index
                            + first_unsupported(es0));
                    }
                    return Err(InvariantViolation::UnsupportedEntry);
                },
                LogEntry::Trimmed => {
                    proof {
                        assert(!entry_supported(es0[i as int]));
                        assert(first_unsupported(es0) == i) by {
                            if first_unsupported(es0) > i {
                                assert(entry_supported(es0[i as int]));
                            }
                        }
                        assert(entry_error(es0[i as int]) == InvariantViolation::UnsupportedEntry);
                        assert(self@ == apply_entries(
                            old(self)@,
                            es0.take(first_unsupported(es0)),
                        ));
                        assert(self.applied_log_index == old(self).applied_log_index
                            + first_unsupported(es0));
                    }
                    return Err(InvariantViolation::UnsupportedEntry);
                },
            }
            self.applied_log_index = self.applied_log_index + 1;
            proof {
                let t = es0.take(i as int + 1);
                assert(t.drop_last() =~= es0.take(i as int));
                assert(t.last() == es0[i as int]);
                assert(entry_supported(es0[i as int]));
                assert(first_unsupported(es0) > i) by {
                    if first_unsupported(es0) == i {
                        assert(!entry_supported(es0[i as int]));
                    }
                }
            }
            i = i + 1;
        }
        proof {
            assert(es0.take(es0.len() as int) =~= es0);
            assert(first_unsupported(es0) == es0.len());
        }
        Ok(())
    }
}

/// What the previous-value replay tracks across one log entry.
pub open spec fn track_prev_entry(cur: Option<Seq<char>>, k: Seq<char>, e: LogEntry) -> Option<
    Seq<char>,
> {
    match e {
        LogEntry::Decided(c) => apply_at_key(cur, k, c),
        LogEntry::Snapshotted(s) => snapshot_value_at(cur, k, s@),
        _ => cur,
    }
}

/// The value `k` held after the given entries, starting from the value it
/// held before them, first entry first.
pub open spec fn track_prev(cur: Option<Seq<char>>, k: Seq<char>, es: Seq<LogEntry>) -> Option<
    Seq<char>,
>
    decreases es.len(),
{
    if es.len() == 0 {
        cur
    } else {
        track_prev_entry(track_prev(cur, k, es.drop_last()), k, es.last())
    }
}

/// Previous-value consistency: replaying a run of entries at one key
/// yields exactly what the fully applied map binds at that key. This is
/// why the reconciliation reports the most recent prior value as of
/// immediately before the operation's own effect, whatever other writers
/// committed in between. Snapshot entries must be well formed, as every
/// snapshot the library builds and merges is.
pub proof fn lemma_track_prev_consistent(m: StoreModel, k: Seq<char>, es: Seq<LogEntry>)
    requires
        forall|i: int|
            0 <= i < es.len() ==> ((#[trigger] es[i]) matches LogEntry::Snapshotted(s)
                ==> crate::snapshot::snapshot_wf(s@)),
    ensures
        track_prev(value_at(m, k), k, es) == value_at(apply_entries(m, es), k),
    decreases es.len(),
{
    if es.len() > 0 {
        let pre = es.drop_last();
        assert(forall|i: int| 0 <= i < pre.len() ==> pre[i] == es[i]);
        lemma_track_prev_consistent(m, k, pre);
        let m2 = apply_entries(m, pre);
        match es.last() {
            LogEntry::Decided(c) => {
                crate::rsm::lemma_apply_command_at_key(m2, c, k);
            },
            LogEntry::Snapshotted(s) => {
                assert(es[es.len() - 1] matches LogEntry::Snapshotted(s2) && s2 == s);
                crate::snapshot::lemma_overlay_value_at(m2, s@, k);
            },
            _ => {},
        }
    }
}

/// How many of the read entries lie strictly before the operation's own
/// commit position.
pub open spec fn prev_cutoff(len: nat, prev_decided_idx: u64, new_decided_idx: u64) -> int {
    if new_decided_idx - prev_decided_idx < len {
        new_decided_idx - prev_decided_idx
    } else {
        len as int
    }
}

/// Takes the value a key held when an operation began (`prev_val`, read at
/// decided position `prev_decided_idx`) and updates it with every entry
/// other writers committed before the operation's own entry at
/// `new_decided_idx`; `entries` is the decided suffix read from
/// `prev_decided_idx`. The result is the key's value immediately before
/// the operation's own effect.
pub fn get_prev_value_after_decide(
    key: &Key,
    prev_val: Option<Value>,
    prev_decided_idx: u64,
    new_decided_idx: u64,
    entries: &Vec<LogEntry>,
) -> (r: Option<Value>)
    requires
        prev_decided_idx <= new_decided_idx,
    ensures
        opt_view(r) == track_prev(
            opt_view(prev_val),
            key@,
            entries@.take(prev_cutoff(entries@.len(), prev_decided_idx, new_decided_idx)),
        ),
{
    let ghost p0 = opt_view(prev_val);
    let remaining = new_decided_idx - prev_decided_idx;
    let n = entries.len();
    let mut cur = prev_val;
    let mut i: usize = 0;
    while i < n && (i as u64) < remaining
        invariant
            0 <= i <= entries@.len(),
            n == entries@.len(),
            remaining == new_decided_idx - prev_decided_idx,
            i <= remaining,
            opt_view(cur) == track_prev(p0, key@, entries@.take(i as int)),
        decreases entries@.len() - i,
    {
        let e: &LogEntry = &entries[i];
        match e {
            LogEntry::Decided(c) => {
                cur = apply_command_at_key(cur, key, c.clone());
            },
            LogEntry::Snapshotted(s) => {
                cur = s.value_for(key, cur);
            },
            _ => {},
        }
        proof {
            let t = entries@.take(i as int + 1);
            assert(t.drop_last() =~= entries@.take(i as int));
            assert(t.last() == entries@[i as int]);
        }
        i = i + 1;
    }
    proof {
        assert(i == prev_cutoff(entries@.len(), prev_decided_idx, new_decided_idx));
    }
    cur
}

} // verus!
