//! Log compaction. A snapshot keeps, per key, the ordered list of commands
//! still needed to rebuild that key's state: a `Put` or `Delete` replaces
//! the key's retained history, a `CAS` appends to it (its effect depends on
//! replay against the history before it), and a `Clear` discards all
//! retained history and sets a dominant flag. Replaying a snapshot over a
//! map yields exactly what replaying the folded command sequence would.

use vstd::prelude::*;
use crate::rsm::{
    apply_at_key, apply_command, apply_command_at_key, apply_commands, lemma_apply_command_at_key,
    lemma_value_at_ext, opt_view, value_at, RSMCommand, StoreModel,
};
use crate::types::{Key, Value};

verus! {

/// One key's retained history.
#[derive(Debug)]
pub struct SnapshotEntry {
    pub key: Key,
    pub commands: Vec<RSMCommand>,
}

impl Clone for SnapshotEntry {
    fn clone(&self) -> (r: Self)
        ensures
            r.key@ == self.key@,
            r.commands@ == self.commands@,
    {
        let mut commands: Vec<RSMCommand> = Vec::new();
        let mut i: usize = 0;
        while i < self.commands.len()
            invariant
                0 <= i <= self.commands@.len(),
                commands@ =~= self.commands@.take(i as int),
            decreases self.commands@.len() - i,
        {
            commands.push(self.commands[i].clone());
            i = i + 1;
        }
        proof {
            assert(self.commands@.take(self.commands@.len() as int) =~= self.commands@);
        }
        SnapshotEntry { key: self.key.clone(), commands }
    }
}

/// A compacted replacement for a log prefix.
#[derive(Debug)]
pub struct OPSnapshot {
    pub snapshotted: Vec<SnapshotEntry>,
    pub clear: bool,
}

/// One retained history, mathematically: the key and its command list.
pub type HistoryView = (Seq<char>, Seq<RSMCommand>);

/// A snapshot, mathematically.
pub struct SnapshotView {
    pub entries: Seq<HistoryView>,
    pub clear: bool,
}

impl SnapshotView {
    /// The snapshot that retains nothing.
    pub open spec fn empty() -> SnapshotView {
        SnapshotView { entries: Seq::empty(), clear: false }
    }
}

/// The histories a `Vec` of snapshot entries denotes.
pub open spec fn history_views(es: Seq<SnapshotEntry>) -> Seq<HistoryView> {
    es.map_values(|e: SnapshotEntry| (e.key@, e.commands@))
}

impl View for OPSnapshot {
    type V = SnapshotView;

    open spec fn view(&self) -> SnapshotView {
        SnapshotView { entries: history_views(self.snapshotted@), clear: self.clear }
    }
}

/// The position of `k`'s history, or -1 if none is retained.
pub open spec fn find_key(es: Seq<HistoryView>, k: Seq<char>) -> int
    decreases es.len(),
{
    if es.len() == 0 {
        -1
    } else if es[0].0 == k {
        0
    } else {
        let r = find_key(es.drop_first(), k);
        if r < 0 {
            -1
        } else {
            r + 1
        }
    }
}

/// Some history is retained for `k`.
pub open spec fn has_key(es: Seq<HistoryView>, k: Seq<char>) -> bool {
    exists|i: int| 0 <= i < es.len() && es[i].0 == k
}

/// `find_key` names the first position whose key is `k`, and -1 exactly
/// when there is none.
pub proof fn lemma_find_key(es: Seq<HistoryView>, k: Seq<char>)
    ensures
        find_key(es, k) == -1 <==> !has_key(es, k),
        find_key(es, k) != -1 ==> 0 <= find_key(es, k) < es.len() && es[find_key(es, k)].0 == k
            && (forall|j: int| 0 <= j < find_key(es, k) ==> es[j].0 != k),
    decreases es.len(),
{
    if es.len() == 0 {
    } else if es[0].0 == k {
    } else {
        lemma_find_key(es.drop_first(), k);
        let rest = es.drop_first();
        assert(forall|i: int| 0 <= i < rest.len() ==> rest[i] == es[i + 1]);
        if find_key(rest, k) == -1 {
            assert forall|i: int| 0 <= i < es.len() implies es[i].0 != k by {
                if i > 0 {
                    assert(rest[i - 1] == es[i]);
                }
            }
        } else {
            assert(es[find_key(es, k)] == rest[find_key(rest, k)]);
            assert forall|j: int| 0 <= j < find_key(es, k) implies es[j].0 != k by {
                if j > 0 {
                    assert(rest[j - 1] == es[j]);
                    assert(rest[j - 1].0 != k);
                }
            }
        }
    }
}

/// Replaces `k`'s entire retained history with the single command `c`.
pub open spec fn replace_history(es: Seq<HistoryView>, k: Seq<char>, c: RSMCommand) -> Seq<
    HistoryView,
> {
    let i = find_key(es, k);
    if i < 0 {
        es.push((k, seq![c]))
    } else {
        es.update(i, (k, seq![c]))
    }
}

/// Appends `c` to `k`'s retained history, starting one if none exists.
pub open spec fn append_history(es: Seq<HistoryView>, k: Seq<char>, c: RSMCommand) -> Seq<
    HistoryView,
> {
    let i = find_key(es, k);
    if i < 0 {
        es.push((k, seq![c]))
    } else {
        es.update(i, (k, es[i].1.push(c)))
    }
}

/// What folding one more command into a snapshot does.
pub open spec fn snapshot_step(s: SnapshotView, c: RSMCommand) -> SnapshotView {
    match c {
        RSMCommand::LinearizableRead(_) => s,
        RSMCommand::Put((_, kv)) => SnapshotView {
            entries: replace_history(s.entries, kv.key@, c),
            clear: s.clear,
        },
        RSMCommand::Delete((_, dk)) => SnapshotView {
            entries: replace_history(s.entries, dk@, c),
            clear: s.clear,
        },
        RSMCommand::CAS((_, kv, _)) => SnapshotView {
            entries: append_history(s.entries, kv.key@, c),
            clear: s.clear,
        },
        RSMCommand::Clear(_) => SnapshotView { entries: Seq::empty(), clear: true },
    }
}

/// A command sequence folded into a snapshot, first command first.
pub open spec fn snapshot_fold(s: SnapshotView, cmds: Seq<RSMCommand>) -> SnapshotView
    decreases cmds.len(),
{
    if cmds.len() == 0 {
        s
    } else {
        snapshot_step(snapshot_fold(s, cmds.drop_last()), cmds.last())
    }
}

/// What `OPSnapshot::create` builds from a command sequence.
pub open spec fn spec_create(cmds: Seq<RSMCommand>) -> SnapshotView {
    snapshot_fold(SnapshotView::empty(), cmds)
}

/// What merging one command of a delta history into a snapshot does: the
/// same replace-or-append rule, per key.
pub open spec fn merge_command(es: Seq<HistoryView>, k: Seq<char>, c: RSMCommand) -> Seq<
    HistoryView,
> {
    match c {
        RSMCommand::Put(_) => replace_history(es, k, c),
        RSMCommand::Delete(_) => replace_history(es, k, c),
        RSMCommand::CAS(_) => append_history(es, k, c),
        RSMCommand::LinearizableRead(_) => es,
        RSMCommand::Clear(_) => es,
    }
}

/// One delta history merged in, first command first.
pub open spec fn merge_history(es: Seq<HistoryView>, k: Seq<char>, cmds: Seq<RSMCommand>) -> Seq<
    HistoryView,
>
    decreases cmds.len(),
{
    if cmds.len() == 0 {
        es
    } else {
        merge_command(merge_history(es, k, cmds.drop_last()), k, cmds.last())
    }
}

/// A delta's histories merged in, first history first.
pub open spec fn merge_entries(es: Seq<HistoryView>, ds: Seq<HistoryView>) -> Seq<HistoryView>
    decreases ds.len(),
{
    if ds.len() == 0 {
        es
    } else {
        merge_history(merge_entries(es, ds.drop_last()), ds.last().0, ds.last().1)
    }
}

/// What `OPSnapshot::merge` leaves behind: a set delta `clear` flag wins
/// unconditionally over the existing content.
pub open spec fn spec_merge(s: SnapshotView, d: SnapshotView) -> SnapshotView {
    let base: Seq<HistoryView> = if d.clear {
        Seq::empty()
    } else {
        s.entries
    };
    SnapshotView { entries: merge_entries(base, d.entries), clear: s.clear || d.clear }
}

/// The position of `key`'s history in the snapshot's entry vector.
fn entry_index(es: &Vec<SnapshotEntry>, key: &Key) -> (r: Option<usize>)
    ensures
        match r {
            Some(i) => 0 <= i < es@.len() && find_key(history_views(es@), key@) == i
                && es@[i as int].key@ == key@,
            None => find_key(history_views(es@), key@) == -1,
        },
{
    proof {
        lemma_find_key(history_views(es@), key@);
    }
    let ghost hv = history_views(es@);
    let mut i: usize = 0;
    while i < es.len()
        invariant
            0 <= i <= es@.len(),
            hv == history_views(es@),
            forall|j: int| 0 <= j < i ==> hv[j].0 != key@,
            find_key(hv, key@) == -1 <==> !has_key(hv, key@),
            find_key(hv, key@) != -1 ==> 0 <= find_key(hv, key@) < hv.len()
                && hv[find_key(hv, key@)].0 == key@
                && (forall|j: int| 0 <= j < find_key(hv, key@) ==> hv[j].0 != key@),
        decreases es@.len() - i,
    {
        let e: &SnapshotEntry = &es[i];
        if e.key == *key {
            proof {
                assert(hv[i as int].0 == key@);
                assert(has_key(hv, key@));
            }
            return Some(i);
        }
        i = i + 1;
    }
    proof {
        if has_key(hv, key@) {
            let w = choose|w: int| 0 <= w < hv.len() && hv[w].0 == key@;
            assert(hv[w].0 != key@);
        }
    }
    None
}

/// Replaces `key`'s retained history with the single command `c`.
fn replace_history_exec(es: &mut Vec<SnapshotEntry>, key: Key, c: RSMCommand)
    ensures
        history_views(final(es)@) == replace_history(history_views(old(es)@), key@, c),
{
    let ghost es0 = es@;
    let ghost hv0 = history_views(old(es)@);
    let mut commands: Vec<RSMCommand> = Vec::new();
    commands.push(c);
    match entry_index(es, &key) {
        Some(i) => {
            let e = SnapshotEntry { key, commands };
            let ghost new_e = e;
            es.remove(i);
            es.insert(i, e);
            proof {
                assert(es@ =~= es0.update(i as int, new_e));
                assert(history_views(es@) =~~= hv0.update(i as int, (new_e.key@, seq![c])));
            }
        },
        None => {
            es.push(SnapshotEntry { key, commands });
            proof {
                assert(history_views(es@) =~~= hv0.push((key@, seq![c])));
            }
        },
    }
}

/// Appends `c` to `key`'s retained history, starting one if none exists.
fn append_history_exec(es: &mut Vec<SnapshotEntry>, key: Key, c: RSMCommand)
    ensures
        history_views(final(es)@) == append_history(history_views(old(es)@), key@, c),
{
    let ghost es0 = es@;
    let ghost hv0 = history_views(old(es)@);
    match entry_index(es, &key) {
        Some(i) => {
            let ghost old_hist = hv0[i as int].1;
            let mut e = es.remove(i);
            e.commands.push(c);
            let ghost new_e = e;
            es.insert(i, e);
            proof {
                assert(new_e.commands@ == old_hist.push(c));
                assert(es@ =~= es0.update(i as int, new_e));
                assert(history_views(es@) =~~= hv0.update(
                    i as int,
                    (new_e.key@, old_hist.push(c)),
                ));
                assert(new_e.key@ == key@);
            }
        },
        None => {
            let mut commands: Vec<RSMCommand> = Vec::new();
            commands.push(c);
            es.push(SnapshotEntry { key, commands });
            proof {
                assert(history_views(es@) =~= hv0.push((key@, seq![c])));
            }
        },
    }
}

impl OPSnapshot {
    /// The snapshot that retains nothing.
    pub fn new() -> (r: Self)
        ensures
            r@ == SnapshotView::empty(),
    {
        let r = OPSnapshot { snapshotted: Vec::new(), clear: false };
        proof {
            assert(r@.entries =~= Seq::<HistoryView>::empty());
        }
        r
    }

    /// Folds an ordered command sequence into a fresh snapshot.
    pub fn create(entries: &Vec<RSMCommand>) -> (r: Self)
        ensures
            r@ == spec_create(entries@),
    {
        let mut snapshotted: Vec<SnapshotEntry> = Vec::new();
        let mut clear = false;
        proof {
            assert(history_views(snapshotted@) =~= Seq::<HistoryView>::empty());
        }
        let n = entries.len();
        let mut i: usize = 0;
        while i < n
            invariant
                0 <= i <= entries@.len(),
                n == entries@.len(),
                history_views(snapshotted@) == snapshot_fold(
                    SnapshotView::empty(),
                    entries@.take(i as int),
                ).entries,
                clear == snapshot_fold(SnapshotView::empty(), entries@.take(i as int)).clear,
            decreases entries@.len() - i,
        {
            let ghost pre = snapshot_fold(SnapshotView::empty(), entries@.take(i as int));
            let cmd = &entries[i];
            match cmd {
                RSMCommand::LinearizableRead(_) => {},
                RSMCommand::Put((_, kv)) => {
                    replace_history_exec(&mut snapshotted, kv.key.clone(), cmd.clone());
                },
                RSMCommand::Delete((_, dk)) => {
                    replace_history_exec(&mut snapshotted, dk.clone(), cmd.clone());
                },
                RSMCommand::CAS((_, kv, _)) => {
                    append_history_exec(&mut snapshotted, kv.key.clone(), cmd.clone());
                },
                RSMCommand::Clear(_) => {
                    snapshotted.clear();
                    clear = true;
                    proof {
                        assert(history_views(snapshotted@) =~= Seq::<HistoryView>::empty());
                    }
                },
            }
            proof {
                let t = entries@.take(i as int + 1);
                assert(t.drop_last() =~= entries@.take(i as int));
                assert(t.last() == entries@[i as int]);
                assert(snapshot_fold(SnapshotView::empty(), t) == snapshot_step(
                    pre,
                    entries@[i as int],
                ));
            }
            i = i + 1;
        }
        proof {
            assert(entries@.take(entries@.len() as int) =~= entries@);
        }
        OPSnapshot { snapshotted, clear }
    }

    /// Applies a delta snapshot onto this one with the same
    /// replace-or-append rule, per key; a set delta `clear` flag wins
    /// unconditionally.
    pub fn merge(&mut self, delta: Self)
        ensures
            final(self)@ == spec_merge(old(self)@, delta@),
    {
        let ghost dv = delta@;
        if delta.clear {
            self.clear = true;
            self.snapshotted.clear();
            proof {
                assert(history_views(self.snapshotted@) =~= Seq::<HistoryView>::empty());
            }
        }
        let ghost base = history_views(self.snapshotted@);
        let ghost base_clear = self.clear;
        let ds = delta.snapshotted;
        let dn = ds.len();
        let mut i: usize = 0;
        while i < dn
            invariant
                0 <= i <= ds@.len(),
                dn == ds@.len(),
                history_views(self.snapshotted@) == merge_entries(
                    base,
                    history_views(ds@).take(i as int),
                ),
                self.clear == base_clear,
            decreases ds@.len() - i,
        {
            let ghost pre = history_views(self.snapshotted@);
            let e: &SnapshotEntry = &ds[i];
            let cn = e.commands.len();
            let mut j: usize = 0;
            while j < cn
                invariant
                    0 <= j <= e.commands@.len(),
                    cn == e.commands@.len(),
                    0 <= i < ds@.len(),
                    e.key@ == history_views(ds@)[i as int].0,
                    e.commands@ == history_views(ds@)[i as int].1,
                    history_views(self.snapshotted@) == merge_history(
                        pre,
                        e.key@,
                        e.commands@.take(j as int),
                    ),
                    self.clear == base_clear,
                decreases e.commands@.len() - j,
            {
                let ghost hpre = history_views(self.snapshotted@);
                let c = &e.commands[j];
                match c {
                    RSMCommand::Put(_) => {
                        replace_history_exec(&mut self.snapshotted, e.key.clone(), c.clone());
                    },
                    RSMCommand::Delete(_) => {
                        replace_history_exec(&mut self.snapshotted, e.key.clone(), c.clone());
                    },
                    RSMCommand::CAS(_) => {
                        append_history_exec(&mut self.snapshotted, e.key.clone(), c.clone());
                    },
                    RSMCommand::LinearizableRead(_) => {},
                    RSMCommand::Clear(_) => {},
                }
                proof {
                    let t = e.commands@.take(j as int + 1);
                    assert(t.drop_last() =~= e.commands@.take(j as int));
                    assert(t.last() == e.commands@[j as int]);
                    assert(merge_history(pre, e.key@, t) == merge_command(
                        merge_history(pre, e.key@, e.commands@.take(j as int)),
                        e.key@,
                        e.commands@[j as int],
                    ));
                }
                j = j + 1;
            }
            proof {
                assert(e.commands@.take(e.commands@.len() as int) =~= e.commands@);
                let t = history_views(ds@).take(i as int + 1);
                assert(t.drop_last() =~= history_views(ds@).take(i as int));
                assert(t.last() == history_views(ds@)[i as int]);
                assert(history_views(ds@)[i as int].0 == e.key@);
                assert(history_views(ds@)[i as int].1 == e.commands@);
            }
            i = i + 1;
        }
        proof {
            assert(history_views(ds@).take(ds@.len() as int) =~= history_views(ds@));
            assert(history_views(ds@) == dv.entries);
            assert(base == if dv.clear {
                Seq::<HistoryView>::empty()
            } else {
                old(self)@.entries
            });
            assert(base_clear == (old(self)@.clear || dv.clear));
            assert(self@.entries == merge_entries(base, dv.entries));
        }
    }

    /// The engine is told to request periodic compaction on its own.
    pub fn use_snapshots() -> (r: bool)
        ensures
            r,
    {
        true
    }

    /// What this snapshot leaves bound to `key`, given the value `cur` the
    /// key held before the snapshot's position in the log; the executable
    /// twin of `snapshot_value_at`.
    pub fn value_for(&self, key: &Key, cur: Option<Value>) -> (r: Option<Value>)
        ensures
            opt_view(r) == snapshot_value_at(opt_view(cur), key@, self@),
    {
        let base = if self.clear {
            None
        } else {
            cur
        };
        let ghost base_v = opt_view(base);
        match entry_index(&self.snapshotted, key) {
            Some(i) => {
                let e: &SnapshotEntry = &self.snapshotted[i];
                proof {
                    assert(history_of(self@.entries, key@) == Some(e.commands@));
                }
                let mut v = base;
                let n = e.commands.len();
                let mut j: usize = 0;
                while j < n
                    invariant
                        0 <= j <= e.commands@.len(),
                        n == e.commands@.len(),
                        opt_view(v) == replay_history(base_v, key@, e.commands@.take(j as int)),
                    decreases e.commands@.len() - j,
                {
                    let c = e.commands[j].clone();
                    v = apply_command_at_key(v, key, c);
                    proof {
                        let t = e.commands@.take(j as int + 1);
                        assert(t.drop_last() =~= e.commands@.take(j as int));
                        assert(t.last() == e.commands@[j as int]);
                    }
                    j = j + 1;
                }
                proof {
                    assert(e.commands@.take(e.commands@.len() as int) =~= e.commands@);
                }
                v
            },
            None => {
                proof {
                    assert(history_of(self@.entries, key@) is None);
                }
                base
            },
        }
    }
}

/// What a snapshot leaves bound to one key: a set `clear` flag first
/// unbinds it, then the key's retained history, if any, is replayed.
pub open spec fn snapshot_value_at(cur: Option<Seq<char>>, k: Seq<char>, s: SnapshotView) -> Option<
    Seq<char>,
> {
    let base: Option<Seq<char>> = if s.clear {
        None
    } else {
        cur
    };
    match history_of(s.entries, k) {
        Some(h) => replay_history(base, k, h),
        None => base,
    }
}

/// The command writes the value bound to `k` (and no other key).
pub open spec fn targets(c: RSMCommand, k: Seq<char>) -> bool {
    match c {
        RSMCommand::Put((_, kv)) => kv.key@ == k,
        RSMCommand::Delete((_, dk)) => dk@ == k,
        RSMCommand::CAS((_, kv, _)) => kv.key@ == k,
        RSMCommand::LinearizableRead(_) => false,
        RSMCommand::Clear(_) => false,
    }
}

/// A retained history is nonempty, speaks only of its own key, and after
/// its first command holds only `CAS` commands (anything else would have
/// replaced the history).
pub open spec fn history_wf(h: HistoryView) -> bool {
    &&& h.1.len() >= 1
    &&& forall|i: int| 0 <= i < h.1.len() ==> targets(#[trigger] h.1[i], h.0)
    &&& forall|i: int| 1 <= i < h.1.len() ==> h.1[i] is CAS
}

/// Histories are individually well formed and keyed uniquely.
pub open spec fn entries_wf(es: Seq<HistoryView>) -> bool {
    &&& forall|i: int| 0 <= i < es.len() ==> history_wf(#[trigger] es[i])
    &&& forall|i: int, j: int| 0 <= i < j < es.len() ==> es[i].0 != es[j].0
}

pub open spec fn snapshot_wf(s: SnapshotView) -> bool {
    entries_wf(s.entries)
}

/// The retained history for `k`, if any.
pub open spec fn history_of(es: Seq<HistoryView>, k: Seq<char>) -> Option<Seq<RSMCommand>> {
    let i = find_key(es, k);
    if i >= 0 {
        Some(es[i].1)
    } else {
        None
    }
}

/// A history replayed over one key's current value, first command first.
pub open spec fn replay_history(cur: Option<Seq<char>>, k: Seq<char>, cmds: Seq<RSMCommand>) -> Option<
    Seq<char>,
>
    decreases cmds.len(),
{
    if cmds.len() == 0 {
        cur
    } else {
        apply_at_key(replay_history(cur, k, cmds.drop_last()), k, cmds.last())
    }
}

/// One retained history replayed onto the map.
pub open spec fn overlay_entry(m: StoreModel, h: HistoryView) -> StoreModel {
    match replay_history(value_at(m, h.0), h.0, h.1) {
        Some(v) => m.insert(h.0, v),
        None => m.remove(h.0),
    }
}

/// All retained histories replayed onto the map, first history first.
pub open spec fn overlay_entries(m: StoreModel, es: Seq<HistoryView>) -> StoreModel
    decreases es.len(),
{
    if es.len() == 0 {
        m
    } else {
        overlay_entry(overlay_entries(m, es.drop_last()), es.last())
    }
}

/// A snapshot replayed onto the map: a set `clear` flag wins over any
/// older content, then each key's retained history is replayed.
pub open spec fn overlay(m: StoreModel, s: SnapshotView) -> StoreModel {
    let base: StoreModel = if s.clear {
        Map::empty()
    } else {
        m
    };
    overlay_entries(base, s.entries)
}

/// Replacing `k`'s history keeps every other history as it was, keeps the
/// keys unique, and leaves `k` with exactly the one command.
proof fn lemma_replace_history_of(es: Seq<HistoryView>, k: Seq<char>, c: RSMCommand)
    requires
        forall|i: int, j: int| 0 <= i < j < es.len() ==> es[i].0 != es[j].0,
    ensures
        forall|i: int, j: int|
            0 <= i < j < replace_history(es, k, c).len() ==> replace_history(es, k, c)[i].0
                != replace_history(es, k, c)[j].0,
        history_of(replace_history(es, k, c), k) == Some(seq![c]),
        forall|k2: Seq<char>| k2 != k ==> #[trigger] history_of(replace_history(es, k, c), k2)
            == history_of(es, k2),
        forall|i: int| 0 <= i < replace_history(es, k, c).len() ==> (
        #[trigger] replace_history(es, k, c)[i] == es[i] || replace_history(es, k, c)[i] == (
        k,
        seq![c],
        )),
{
    lemma_find_key(es, k);
    let r = replace_history(es, k, c);
    let i0 = find_key(es, k);
    lemma_find_key_stable(es, r, k);
    assert forall|k2: Seq<char>| k2 != k implies #[trigger] history_of(r, k2) == history_of(
        es,
        k2,
    ) by {
        lemma_find_key(es, k2);
        let b = find_key(es, k2);
        if b >= 0 {
            assert(es[b].0 == k2);
            if i0 >= 0 && b == i0 {
                assert(es[i0].0 == k);
            }
            assert(r[b] == es[b]);
        }
    }
}

/// Appending to `k`'s history keeps every other history as it was, keeps
/// the keys unique, and extends `k`'s history by the one command.
proof fn lemma_append_history_of(es: Seq<HistoryView>, k: Seq<char>, c: RSMCommand)
    requires
        forall|i: int, j: int| 0 <= i < j < es.len() ==> es[i].0 != es[j].0,
    ensures
        forall|i: int, j: int|
            0 <= i < j < append_history(es, k, c).len() ==> append_history(es, k, c)[i].0
                != append_history(es, k, c)[j].0,
        history_of(append_history(es, k, c), k) == Some(
            match history_of(es, k) {
                Some(h) => h.push(c),
                None => seq![c],
            },
        ),
        forall|k2: Seq<char>| k2 != k ==> #[trigger] history_of(append_history(es, k, c), k2)
            == history_of(es, k2),
{
    lemma_find_key(es, k);
    let r = append_history(es, k, c);
    let i0 = find_key(es, k);
    lemma_find_key_stable(es, r, k);
    assert forall|k2: Seq<char>| k2 != k implies #[trigger] history_of(r, k2) == history_of(
        es,
        k2,
    ) by {
        lemma_find_key(es, k2);
        let b = find_key(es, k2);
        if b >= 0 {
            assert(es[b].0 == k2);
            if i0 >= 0 && b == i0 {
                assert(es[i0].0 == k);
            }
            assert(r[b] == es[b]);
        }
    }
}

/// Both `replace_history` and `append_history` leave every position's key
/// unchanged (or add `k` at the end), so every key is found at the same
/// position before and after.
proof fn lemma_find_key_stable(es: Seq<HistoryView>, r: Seq<HistoryView>, k: Seq<char>)
    requires
        forall|i: int, j: int| 0 <= i < j < es.len() ==> es[i].0 != es[j].0,
        find_key(es, k) >= 0 ==> r.len() == es.len(),
        find_key(es, k) < 0 ==> r.len() == es.len() + 1 && r[es.len() as int].0 == k,
        forall|i: int| 0 <= i < es.len() ==> #[trigger] r[i].0 == es[i].0,
    ensures
        find_key(r, k) == if find_key(es, k) >= 0 {
            find_key(es, k)
        } else {
            es.len() as int
        },
        forall|k2: Seq<char>| k2 != k ==> #[trigger] find_key(r, k2) == find_key(es, k2),
        forall|i: int, j: int| 0 <= i < j < r.len() ==> r[i].0 != r[j].0,
{
    lemma_find_key(es, k);
    lemma_find_key(r, k);
    if find_key(es, k) >= 0 {
        let i0 = find_key(es, k);
        assert(r[i0].0 == k);
        assert(find_key(r, k) != -1);
        if find_key(r, k) < i0 {
            assert(es[find_key(r, k)].0 == k);
        } else if find_key(r, k) > i0 {
            assert(r[i0].0 != k);
        }
    } else {
        assert(r[es.len() as int].0 == k);
        assert(find_key(r, k) != -1);
        if find_key(r, k) < es.len() {
            assert(es[find_key(r, k)].0 == k);
        }
    }
    assert forall|k2: Seq<char>| k2 != k implies #[trigger] find_key(r, k2) == find_key(
        es,
        k2,
    ) by {
        lemma_find_key(es, k2);
        lemma_find_key(r, k2);
        if find_key(es, k2) == -1 {
            if find_key(r, k2) != -1 {
                let a = find_key(r, k2);
                if a < es.len() {
                    assert(es[a].0 == k2);
                } else {
                    assert(r[a].0 == k);
                }
            }
        } else {
            let b = find_key(es, k2);
            assert(r[b].0 == k2);
            assert(find_key(r, k2) != -1);
            let a = find_key(r, k2);
            if a < b {
                assert(es[a].0 == k2);
            } else if a > b {
                assert(r[b].0 != k2);
            }
        }
    }
    assert forall|i: int, j: int| 0 <= i < j < r.len() implies r[i].0 != r[j].0 by {
        if j < es.len() {
            assert(es[i].0 != es[j].0);
        } else if j == es.len() {
            assert(r[j].0 == k);
            lemma_find_key(es, r[i].0);
            if r[i].0 == k {
                assert(es[i].0 == k);
                assert(has_key(es, k));
            }
        }
    }
}

/// What one snapshot step does to the retained history of each key.
proof fn lemma_snapshot_step_wf(s: SnapshotView, c: RSMCommand)
    requires
        snapshot_wf(s),
    ensures
        snapshot_wf(snapshot_step(s, c)),
{
    let r = snapshot_step(s, c);
    match c {
        RSMCommand::LinearizableRead(_) => {},
        RSMCommand::Clear(_) => {},
        RSMCommand::Put((_, kv)) => {
            lemma_find_key(s.entries, kv.key@);
            lemma_replace_history_of(s.entries, kv.key@, c);
            assert forall|i: int| 0 <= i < r.entries.len() implies history_wf(
                #[trigger] r.entries[i],
            ) by {
                if r.entries[i] == (kv.key@, seq![c]) {
                    assert(r.entries[i].1[0] == c);
                }
            }
        },
        RSMCommand::Delete((_, dk)) => {
            lemma_find_key(s.entries, dk@);
            lemma_replace_history_of(s.entries, dk@, c);
            assert forall|i: int| 0 <= i < r.entries.len() implies history_wf(
                #[trigger] r.entries[i],
            ) by {
                if r.entries[i] == (dk@, seq![c]) {
                    assert(r.entries[i].1[0] == c);
                }
            }
        },
        RSMCommand::CAS((_, kv, _)) => {
            let k = kv.key@;
            lemma_find_key(s.entries, k);
            lemma_append_history_of(s.entries, k, c);
            let i0 = find_key(s.entries, k);
            assert forall|i: int| 0 <= i < r.entries.len() implies history_wf(
                #[trigger] r.entries[i],
            ) by {
                if i0 >= 0 {
                    if i == i0 {
                        let h = s.entries[i0].1;
                        assert(history_wf(s.entries[i0]));
                        assert(r.entries[i] == (k, h.push(c)));
                        assert forall|j: int| 0 <= j < h.push(c).len() implies targets(
                            #[trigger] h.push(c)[j],
                            k,
                        ) by {
                            if j < h.len() {
                                assert(h.push(c)[j] == h[j]);
                            }
                        }
                        assert forall|j: int| 1 <= j < h.push(c).len() implies h.push(c)[j]
                            is CAS by {
                            if j < h.len() {
                                assert(h.push(c)[j] == h[j]);
                            }
                        }
                    } else {
                        assert(r.entries[i] == s.entries[i]);
                    }
                } else {
                    if i < s.entries.len() {
                        assert(r.entries[i] == s.entries[i]);
                    } else {
                        assert(r.entries[i] == (k, seq![c]));
                        assert(r.entries[i].1[0] == c);
                    }
                }
            }
        },
    }
}

/// Folding commands into a well-formed snapshot keeps it well formed.
proof fn lemma_snapshot_fold_wf(s: SnapshotView, cmds: Seq<RSMCommand>)
    requires
        snapshot_wf(s),
    ensures
        snapshot_wf(snapshot_fold(s, cmds)),
    decreases cmds.len(),
{
    if cmds.len() > 0 {
        lemma_snapshot_fold_wf(s, cmds.drop_last());
        lemma_snapshot_step_wf(snapshot_fold(s, cmds.drop_last()), cmds.last());
    }
}

/// What `create` builds is well formed.
pub proof fn lemma_create_wf(cmds: Seq<RSMCommand>)
    ensures
        snapshot_wf(spec_create(cmds)),
{
    lemma_snapshot_fold_wf(SnapshotView::empty(), cmds);
}

/// Replaying histories with unique keys reads each key independently: a
/// key with a retained history gets that history replayed over its old
/// value, and any other key keeps its old value.
proof fn lemma_overlay_at(m: StoreModel, es: Seq<HistoryView>)
    requires
        forall|i: int, j: int| 0 <= i < j < es.len() ==> es[i].0 != es[j].0,
    ensures
        forall|k: Seq<char>| #[trigger] value_at(overlay_entries(m, es), k) == match history_of(
            es,
            k,
        ) {
            Some(h) => replay_history(value_at(m, k), k, h),
            None => value_at(m, k),
        },
    decreases es.len(),
{
    if es.len() == 0 {
        assert forall|k: Seq<char>| #[trigger] value_at(overlay_entries(m, es), k) == match
            history_of(es, k) {
            Some(h) => replay_history(value_at(m, k), k, h),
            None => value_at(m, k),
        } by {
            lemma_find_key(es, k);
        }
    } else {
        let pre = es.drop_last();
        let e = es.last();
        lemma_overlay_at(m, pre);
        let acc = overlay_entries(m, pre);
        let res = overlay_entries(m, es);
        assert(res == overlay_entry(acc, e));
        assert forall|k: Seq<char>| #[trigger] value_at(res, k) == match history_of(es, k) {
            Some(h) => replay_history(value_at(m, k), k, h),
            None => value_at(m, k),
        } by {
            lemma_find_key(es, k);
            lemma_find_key(pre, k);
            if k == e.0 {
                assert(find_key(pre, k) == -1) by {
                    if find_key(pre, k) >= 0 {
                        assert(es[find_key(pre, k)].0 == k);
                        assert(es[es.len() - 1].0 == k);
                    }
                }
                assert(history_of(pre, k) is None);
                assert(value_at(acc, k) == value_at(m, k));
                let i0 = find_key(es, k);
                assert(i0 != -1);
                assert(i0 == es.len() - 1) by {
                    if i0 < es.len() - 1 {
                        assert(es[i0].0 != es[es.len() - 1].0);
                    }
                }
                assert(history_of(es, k) == Some(e.1));
                match replay_history(value_at(acc, e.0), e.0, e.1) {
                    Some(v) => {
                        assert(value_at(res, k) == Some(v));
                    },
                    None => {
                        assert(value_at(res, k) is None);
                    },
                }
            } else {
                assert(value_at(res, k) == value_at(acc, k));
                assert(history_of(es, k) == history_of(pre, k)) by {
                    if find_key(pre, k) == -1 {
                        if find_key(es, k) != -1 {
                            let a = find_key(es, k);
                            if a < es.len() - 1 {
                                assert(pre[a].0 == k);
                                assert(has_key(pre, k));
                            } else {
                                assert(es[a].0 == e.0);
                            }
                        }
                    } else {
                        let b = find_key(pre, k);
                        assert(es[b].0 == k);
                        assert(find_key(es, k) != -1);
                        let a = find_key(es, k);
                        if a < b {
                            assert(pre[a].0 == k);
                        } else if a > b {
                            assert(es[b].0 != k);
                        }
                        assert(a == b);
                        assert(pre[b].1 == es[b].1);
                    }
                }
            }
        }
    }
}

/// Creating a snapshot from a command sequence and replaying it over any
/// map yields the map the commands themselves would produce.
pub proof fn lemma_create_overlay(m: StoreModel, cmds: Seq<RSMCommand>)
    ensures
        overlay(m, spec_create(cmds)) == apply_commands(m, cmds),
    decreases cmds.len(),
{
    if cmds.len() == 0 {
        assert(overlay_entries(m, Seq::<HistoryView>::empty()) == m);
    } else {
        let pre_cmds = cmds.drop_last();
        let c = cmds.last();
        lemma_create_overlay(m, pre_cmds);
        let s1 = spec_create(pre_cmds);
        let s2 = spec_create(cmds);
        assert(s2 == snapshot_step(s1, c));
        lemma_snapshot_fold_wf(SnapshotView::empty(), pre_cmds);
        lemma_snapshot_step_wf(s1, c);
        let base: StoreModel = if s1.clear {
            Map::empty()
        } else {
            m
        };
        let o1 = overlay(m, s1);
        let o2 = overlay(m, s2);
        let target = apply_command(o1, c);
        lemma_overlay_at(base, s1.entries);
        match c {
            RSMCommand::LinearizableRead(_) => {},
            RSMCommand::Clear(_) => {
                assert(o2 == overlay_entries(Map::<Seq<char>, Seq<char>>::empty(), Seq::<
                    HistoryView,
                >::empty()));
                assert(o2 =~= target);
            },
            RSMCommand::Put((_, kv)) => {
                let k0 = kv.key@;
                lemma_replace_history_of(s1.entries, k0, c);
                lemma_overlay_at(base, s2.entries);
                assert forall|k: Seq<char>| #[trigger] value_at(o2, k) == value_at(target, k) by {
                    lemma_apply_command_at_key(o1, c, k);
                    if k == k0 {
                        assert(history_of(s2.entries, k0) == Some(seq![c]));
                        assert(replay_history(value_at(base, k0), k0, seq![c]) == apply_at_key(
                            replay_history(value_at(base, k0), k0, seq![c].drop_last()),
                            k0,
                            c,
                        ));
                        assert(seq![c].drop_last() =~= Seq::<RSMCommand>::empty());
                        assert(replay_history(value_at(base, k0), k0, Seq::<
                            RSMCommand,
                        >::empty()) == value_at(base, k0));
                    }
                }
                lemma_value_at_ext(o2, target);
            },
            RSMCommand::Delete((_, dk)) => {
                let k0 = dk@;
                lemma_replace_history_of(s1.entries, k0, c);
                lemma_overlay_at(base, s2.entries);
                assert forall|k: Seq<char>| #[trigger] value_at(o2, k) == value_at(target, k) by {
                    lemma_apply_command_at_key(o1, c, k);
                    if k == k0 {
                        assert(history_of(s2.entries, k0) == Some(seq![c]));
                        assert(replay_history(value_at(base, k0), k0, seq![c]) == apply_at_key(
                            replay_history(value_at(base, k0), k0, seq![c].drop_last()),
                            k0,
                            c,
                        ));
                        assert(seq![c].drop_last() =~= Seq::<RSMCommand>::empty());
                        assert(replay_history(value_at(base, k0), k0, Seq::<
                            RSMCommand,
                        >::empty()) == value_at(base, k0));
                    }
                }
                lemma_value_at_ext(o2, target);
            },
            RSMCommand::CAS((_, kv, _)) => {
                let k0 = kv.key@;
                lemma_append_history_of(s1.entries, k0, c);
                lemma_overlay_at(base, s2.entries);
                assert forall|k: Seq<char>| #[trigger] value_at(o2, k) == value_at(target, k) by {
                    lemma_apply_command_at_key(o1, c, k);
                    if k == k0 {
                        match history_of(s1.entries, k0) {
                            Some(h) => {
                                assert(history_of(s2.entries, k0) == Some(h.push(c)));
                                assert(h.push(c).drop_last() =~= h);
                                assert(replay_history(value_at(base, k0), k0, h.push(c))
                                    == apply_at_key(
                                    replay_history(value_at(base, k0), k0, h),
                                    k0,
                                    c,
                                ));
                            },
                            None => {
                                assert(history_of(s2.entries, k0) == Some(seq![c]));
                                assert(replay_history(value_at(base, k0), k0, seq![c])
                                    == apply_at_key(
                                    replay_history(value_at(base, k0), k0, seq![c].drop_last()),
                                    k0,
                                    c,
                                ));
                                assert(seq![c].drop_last() =~= Seq::<RSMCommand>::empty());
                        assert(replay_history(value_at(base, k0), k0, Seq::<
                            RSMCommand,
                        >::empty()) == value_at(base, k0));
                            },
                        }
                    }
                }
                lemma_value_at_ext(o2, target);
            },
        }
    }
}

/// Merging one command for key `k` keeps the snapshot well formed.
proof fn lemma_merge_command_wf(es: Seq<HistoryView>, k: Seq<char>, c: RSMCommand)
    requires
        entries_wf(es),
        (c is Put || c is Delete || c is CAS) ==> targets(c, k),
    ensures
        entries_wf(merge_command(es, k, c)),
{
    let r = merge_command(es, k, c);
    match c {
        RSMCommand::LinearizableRead(_) => {},
        RSMCommand::Clear(_) => {},
        RSMCommand::Put(_) => {
            lemma_find_key(es, k);
            lemma_replace_history_of(es, k, c);
            assert forall|i: int| 0 <= i < r.len() implies history_wf(#[trigger] r[i]) by {
                if r[i] == (k, seq![c]) {
                    assert(r[i].1[0] == c);
                }
            }
        },
        RSMCommand::Delete(_) => {
            lemma_find_key(es, k);
            lemma_replace_history_of(es, k, c);
            assert forall|i: int| 0 <= i < r.len() implies history_wf(#[trigger] r[i]) by {
                if r[i] == (k, seq![c]) {
                    assert(r[i].1[0] == c);
                }
            }
        },
        RSMCommand::CAS(_) => {
            lemma_find_key(es, k);
            lemma_append_history_of(es, k, c);
            let i0 = find_key(es, k);
            assert forall|i: int| 0 <= i < r.len() implies history_wf(#[trigger] r[i]) by {
                if i0 >= 0 {
                    if i == i0 {
                        let h = es[i0].1;
                        assert(history_wf(es[i0]));
                        assert(es[i0].0 == k);
                        assert(r[i] == (k, h.push(c)));
                        assert forall|j: int| 0 <= j < h.push(c).len() implies targets(
                            #[trigger] h.push(c)[j],
                            k,
                        ) by {
                            if j < h.len() {
                                assert(h.push(c)[j] == h[j]);
                            }
                        }
                        assert forall|j: int| 1 <= j < h.push(c).len() implies h.push(c)[j]
                            is CAS by {
                            if j < h.len() {
                                assert(h.push(c)[j] == h[j]);
                            }
                        }
                    } else {
                        assert(r[i] == es[i]);
                    }
                } else {
                    if i < es.len() {
                        assert(r[i] == es[i]);
                    } else {
                        assert(r[i] == (k, seq![c]));
                        assert(r[i].1[0] == c);
                    }
                }
            }
        },
    }
}

/// Merging one delta history keeps the snapshot well formed, provided the
/// history speaks only of its own key.
proof fn lemma_merge_history_wf(es: Seq<HistoryView>, k: Seq<char>, cmds: Seq<RSMCommand>)
    requires
        entries_wf(es),
        forall|i: int|
            0 <= i < cmds.len() ==> (((#[trigger] cmds[i]) is Put || cmds[i] is Delete || cmds[i]
                is CAS) ==> targets(cmds[i], k)),
    ensures
        entries_wf(merge_history(es, k, cmds)),
    decreases cmds.len(),
{
    if cmds.len() > 0 {
        let pre = cmds.drop_last();
        assert(forall|i: int| 0 <= i < pre.len() ==> pre[i] == cmds[i]);
        lemma_merge_history_wf(es, k, pre);
        lemma_merge_command_wf(merge_history(es, k, pre), k, cmds.last());
    }
}

proof fn lemma_merge_entries_wf(es: Seq<HistoryView>, ds: Seq<HistoryView>)
    requires
        entries_wf(es),
        entries_wf(ds),
    ensures
        entries_wf(merge_entries(es, ds)),
    decreases ds.len(),
{
    if ds.len() > 0 {
        let pre = ds.drop_last();
        assert(entries_wf(pre)) by {
            assert(forall|i: int| 0 <= i < pre.len() ==> pre[i] == ds[i]);
        }
        lemma_merge_entries_wf(es, pre);
        let d = ds.last();
        assert(history_wf(d));
        lemma_merge_history_wf(merge_entries(es, pre), d.0, d.1);
    }
}

/// Merging well-formed snapshots yields a well-formed snapshot.
pub proof fn lemma_merge_wf(a: SnapshotView, d: SnapshotView)
    requires
        snapshot_wf(a),
        snapshot_wf(d),
    ensures
        snapshot_wf(spec_merge(a, d)),
{
    let base: Seq<HistoryView> = if d.clear {
        Seq::empty()
    } else {
        a.entries
    };
    lemma_merge_entries_wf(base, d.entries);
}

/// Reading one key through `snapshot_value_at` agrees with reading the
/// overlaid map at that key.
pub proof fn lemma_overlay_value_at(m: StoreModel, s: SnapshotView, k: Seq<char>)
    requires
        snapshot_wf(s),
    ensures
        value_at(overlay(m, s), k) == snapshot_value_at(value_at(m, k), k, s),
{
    let base: StoreModel = if s.clear {
        Map::empty()
    } else {
        m
    };
    lemma_overlay_at(base, s.entries);
}

/// Merging a history for a key the snapshot does not yet retain simply
/// adds that history at the end.
proof fn lemma_merge_fresh_history(es: Seq<HistoryView>, k: Seq<char>, cmds: Seq<RSMCommand>)
    requires
        !has_key(es, k),
        history_wf((k, cmds)),
    ensures
        merge_history(es, k, cmds) == es.push((k, cmds)),
    decreases cmds.len(),
{
    lemma_find_key(es, k);
    if cmds.len() == 1 {
        let c = cmds[0];
        assert(targets(c, k));
        assert(cmds.drop_last() =~= Seq::<RSMCommand>::empty());
        assert(merge_history(es, k, Seq::<RSMCommand>::empty()) == es);
        assert(merge_history(es, k, cmds) == merge_command(es, k, c));
        assert(merge_command(es, k, c) == es.push((k, seq![c])));
        assert(cmds =~= seq![c]);
    } else {
        let h = cmds.drop_last();
        let c = cmds.last();
        assert(c is CAS);
        assert(history_wf((k, h))) by {
            assert forall|i: int| 0 <= i < h.len() implies targets(#[trigger] h[i], k) by {
                assert(h[i] == cmds[i]);
            }
            assert forall|i: int| 1 <= i < h.len() implies h[i] is CAS by {
                assert(h[i] == cmds[i]);
            }
        }
        lemma_merge_fresh_history(es, k, h);
        let acc = es.push((k, h));
        assert(merge_history(es, k, cmds) == merge_command(acc, k, c));
        lemma_find_key(acc, k);
        assert(acc[es.len() as int].0 == k);
        assert(find_key(acc, k) != -1);
        let a = find_key(acc, k);
        if a < es.len() {
            assert(es[a].0 == k);
            assert(has_key(es, k));
        }
        assert(a == es.len());
        assert(merge_command(acc, k, c) == acc.update(a, (k, h.push(c))));
        assert(acc.update(a, (k, h.push(c))) =~= es.push((k, cmds))) by {
            assert(h.push(c) =~= cmds);
        }
    }
}

/// Merging a well-formed snapshot into the empty snapshot reproduces it.
proof fn lemma_merge_into_empty(ds: Seq<HistoryView>)
    requires
        entries_wf(ds),
    ensures
        merge_entries(Seq::empty(), ds) == ds,
    decreases ds.len(),
{
    if ds.len() > 0 {
        let pre = ds.drop_last();
        let d = ds.last();
        assert(entries_wf(pre)) by {
            assert(forall|i: int| 0 <= i < pre.len() ==> pre[i] == ds[i]);
        }
        lemma_merge_into_empty(pre);
        assert(!has_key(pre, d.0)) by {
            if has_key(pre, d.0) {
                let w = choose|w: int| 0 <= w < pre.len() && pre[w].0 == d.0;
                assert(ds[w].0 != ds[ds.len() - 1].0);
            }
        }
        assert(history_wf(d));
        lemma_merge_fresh_history(pre, d.0, d.1);
        assert(merge_entries(Seq::empty(), ds) == merge_history(pre, d.0, d.1));
        assert(pre.push(d) =~= ds);
    }
}

/// Snapshot/merge round trip: a snapshot created from a command sequence,
/// merged into an empty snapshot and replayed over any map, leaves exactly
/// the map that applying the commands in order would leave.
pub proof fn lemma_snapshot_merge_round_trip(cmds: Seq<RSMCommand>, m: StoreModel)
    ensures
        overlay(m, spec_merge(SnapshotView::empty(), spec_create(cmds))) == apply_commands(m, cmds),
{
    let d = spec_create(cmds);
    lemma_create_wf(cmds);
    lemma_merge_into_empty(d.entries);
    assert(spec_merge(SnapshotView::empty(), d).entries == d.entries);
    assert(spec_merge(SnapshotView::empty(), d) == d);
    lemma_create_overlay(m, cmds);
}

} // verus!
