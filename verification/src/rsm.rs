//! Commands of the replicated state machine, their identities, and the
//! deterministic semantics every replica applies to its local map; the
//! outbound reliability layer that turns an unreliable transport into
//! FIFO, exactly-once delivery of ordered messages; and the scan that
//! locates a submitted command in the decided log.

use vstd::prelude::*;
use crate::counter::DurableCounter;
use crate::snapshot::OPSnapshot;
use crate::types::{Key, KeyValue, Value};

verus! {

/// A command submitted to the consensus engine. Each carries a globally
/// unique identity `(originating node, per-node counter)` used solely to
/// find the command's position in the decided log.
#[derive(Debug)]
pub enum RSMCommand {
    Put(((u64, u64), KeyValue)),
    LinearizableRead((u64, u64)),
    CAS(((u64, u64), KeyValue, Value)),
    Delete(((u64, u64), Key)),
    Clear((u64, u64)),
}

impl Clone for RSMCommand {
    fn clone(&self) -> (r: Self)
        ensures
            r == *self,
    {
        match self {
            RSMCommand::Put((id, kv)) => RSMCommand::Put((*id, kv.clone())),
            RSMCommand::LinearizableRead(id) => RSMCommand::LinearizableRead(*id),
            RSMCommand::CAS((id, kv, exp)) => RSMCommand::CAS((*id, kv.clone(), exp.clone())),
            RSMCommand::Delete((id, key)) => RSMCommand::Delete((*id, key.clone())),
            RSMCommand::Clear(id) => RSMCommand::Clear(*id),
        }
    }
}

impl RSMCommand {
    /// The command's identity.
    pub open spec fn spec_id(&self) -> (u64, u64) {
        match self {
            RSMCommand::Put((id, _)) => *id,
            RSMCommand::LinearizableRead(id) => *id,
            RSMCommand::CAS((id, _, _)) => *id,
            RSMCommand::Delete((id, _)) => *id,
            RSMCommand::Clear(id) => *id,
        }
    }

    pub fn get_id(&self) -> (r: (u64, u64))
        ensures
            r == self.spec_id(),
    {
        match self {
            RSMCommand::Put((id, _)) => *id,
            RSMCommand::LinearizableRead(id) => *id,
            RSMCommand::CAS((id, _, _)) => *id,
            RSMCommand::Delete((id, _)) => *id,
            RSMCommand::Clear(id) => *id,
        }
    }

    pub fn new_put(id: (u64, u64), kv: KeyValue) -> (r: Self)
        ensures
            r == RSMCommand::Put((id, kv)),
    {
        RSMCommand::Put((id, kv))
    }

    pub fn new_linearizable_read(id: (u64, u64)) -> (r: Self)
        ensures
            r == RSMCommand::LinearizableRead(id),
    {
        RSMCommand::LinearizableRead(id)
    }

    pub fn new_delete(id: (u64, u64), key: Key) -> (r: Self)
        ensures
            r == RSMCommand::Delete((id, key)),
    {
        RSMCommand::Delete((id, key))
    }

    pub fn new_clear(id: (u64, u64)) -> (r: Self)
        ensures
            r == RSMCommand::Clear(id),
    {
        RSMCommand::Clear(id)
    }

    pub fn new_cas(id: (u64, u64), key: Key, new_v: Value, exp_v: Value) -> (r: Self)
        ensures
            r matches RSMCommand::CAS((rid, kv, exp)) && rid == id && kv.key@ == key@
                && kv.value@ == new_v@ && exp@ == exp_v@,
    {
        RSMCommand::CAS((id, KeyValue { key, value: new_v }, exp_v))
    }
}

/// The contents of a replica's map, as a mathematical object: each bound
/// key's character sequence mapped to its value's character sequence.
pub type StoreModel = Map<Seq<char>, Seq<char>>;

/// What a command does to the value bound to one key: a `Put` of that key
/// binds its value, a `Delete` of it unbinds, a `CAS` of it rebinds only
/// when the current value equals the expected one, a `Clear` unbinds every
/// key, and a read changes nothing.
pub open spec fn apply_at_key(cur: Option<Seq<char>>, k: Seq<char>, c: RSMCommand) -> Option<
    Seq<char>,
> {
    match c {
        RSMCommand::Put((_, kv)) => if kv.key@ == k {
            Some(kv.value@)
        } else {
            cur
        },
        RSMCommand::Delete((_, dk)) => if dk@ == k {
            None
        } else {
            cur
        },
        RSMCommand::CAS((_, kv, exp)) => if kv.key@ == k && cur == Some(exp@) {
            Some(kv.value@)
        } else {
            cur
        },
        RSMCommand::LinearizableRead(_) => cur,
        RSMCommand::Clear(_) => None,
    }
}

/// What a command does to the whole map; identical and deterministic on
/// every replica.
pub open spec fn apply_command(m: StoreModel, c: RSMCommand) -> StoreModel {
    match c {
        RSMCommand::Put((_, kv)) => m.insert(kv.key@, kv.value@),
        RSMCommand::Delete((_, dk)) => m.remove(dk@),
        RSMCommand::CAS((_, kv, exp)) => if m.contains_key(kv.key@) && m[kv.key@] == exp@ {
            m.insert(kv.key@, kv.value@)
        } else {
            m
        },
        RSMCommand::LinearizableRead(_) => m,
        RSMCommand::Clear(_) => Map::empty(),
    }
}

/// A command sequence folded over the map, first command first.
pub open spec fn apply_commands(m: StoreModel, s: Seq<RSMCommand>) -> StoreModel
    decreases s.len(),
{
    if s.len() == 0 {
        m
    } else {
        apply_command(apply_commands(m, s.drop_last()), s.last())
    }
}

/// The value bound to `k` in `m`, if any.
pub open spec fn value_at(m: StoreModel, k: Seq<char>) -> Option<Seq<char>> {
    if m.contains_key(k) {
        Some(m[k])
    } else {
        None
    }
}

/// A command's effect on the whole map, read at one key, is its effect at
/// that key.
pub proof fn lemma_apply_command_at_key(m: StoreModel, c: RSMCommand, k: Seq<char>)
    ensures
        value_at(apply_command(m, c), k) == apply_at_key(value_at(m, k), k, c),
{
}

/// Two maps with the same value at every key are the same map.
pub proof fn lemma_value_at_ext(m1: StoreModel, m2: StoreModel)
    requires
        forall|k: Seq<char>| #[trigger] value_at(m1, k) == value_at(m2, k),
    ensures
        m1 == m2,
{
    assert forall|k: Seq<char>| m1.contains_key(k) implies m2.contains_key(k) by {
        assert(value_at(m1, k) == value_at(m2, k));
    }
    assert forall|k: Seq<char>| m2.contains_key(k) implies m1.contains_key(k) by {
        assert(value_at(m1, k) == value_at(m2, k));
    }
    assert forall|k: Seq<char>| #[trigger] m1.contains_key(k) && m2.contains_key(k) implies m1[k]
        == m2[k] by {
        assert(value_at(m1, k) == value_at(m2, k));
    }
    assert(m1 =~= m2);
}

/// The character sequences a possibly absent value denotes.
pub open spec fn opt_view(o: Option<Value>) -> Option<Seq<char>> {
    match o {
        Some(v) => Some(v@),
        None => None,
    }
}

/// Applies one command to one key's current value; the executable twin of
/// `apply_at_key`.
pub fn apply_command_at_key(cur: Option<Value>, key: &Key, c: RSMCommand) -> (r: Option<Value>)
    ensures
        opt_view(r) == apply_at_key(opt_view(cur), key@, c),
{
    match c {
        RSMCommand::Put((_, kv)) => {
            if kv.key == *key {
                Some(kv.value)
            } else {
                cur
            }
        },
        RSMCommand::Delete((_, dk)) => {
            if dk == *key {
                None
            } else {
                cur
            }
        },
        RSMCommand::CAS((_, kv, exp)) => {
            if kv.key == *key {
                let matches_expected = match &cur {
                    Some(v) => *v == exp,
                    None => false,
                };
                if matches_expected {
                    Some(kv.value)
                } else {
                    cur
                }
            } else {
                cur
            }
        },
        RSMCommand::LinearizableRead(_) => cur,
        RSMCommand::Clear(_) => None,
    }
}

/// Determinism: replicas that fold the same command sequence over equal
/// maps end with equal maps.
pub proof fn lemma_apply_deterministic(m1: StoreModel, m2: StoreModel, s: Seq<RSMCommand>)
    requires
        m1 == m2,
    ensures
        apply_commands(m1, s) == apply_commands(m2, s),
{
}

/// A position of the agreed log as a replica sees it. Only `Decided` and
/// `Snapshotted` entries are handled by this design.
#[derive(Debug)]
pub enum LogEntry {
    Decided(RSMCommand),
    Undecided(RSMCommand),
    Snapshotted(OPSnapshot),
    StopSign,
    Trimmed,
}

/// The entry is decided and carries the command with identity `id`.
pub open spec fn decided_with_id(e: LogEntry, id: (u64, u64)) -> bool {
    e matches LogEntry::Decided(c) && c.spec_id() == id
}

/// Scans a decided suffix, read from absolute position `start_idx`, for
/// the entry that committed the command with identity `id`; returns that
/// entry's absolute position. This is the test `await_commit` polls with.
pub fn find_decided_index(entries: &Vec<LogEntry>, start_idx: u64, id: (u64, u64)) -> (r: Option<
    u64,
>)
    requires
        start_idx + entries@.len() <= u64::MAX,
    ensures
        match r {
            Some(idx) => start_idx <= idx < start_idx + entries@.len() && decided_with_id(
                entries@[idx - start_idx],
                id,
            ) && (forall|j: int|
                0 <= j < idx - start_idx ==> !decided_with_id(entries@[j], id)),
            None => forall|j: int| 0 <= j < entries@.len() ==> !decided_with_id(entries@[j], id),
        },
{
    let n = entries.len();
    let mut i: usize = 0;
    while i < n
        invariant
            0 <= i <= entries@.len(),
            n == entries@.len(),
            start_idx + entries@.len() <= u64::MAX,
            forall|j: int| 0 <= j < i ==> !decided_with_id(entries@[j], id),
        decreases entries@.len() - i,
    {
        let e: &LogEntry = &entries[i];
        match e {
            LogEntry::Decided(c) => {
                let cid = c.get_id();
                if cid.0 == id.0 && cid.1 == id.1 {
                    return Some(start_idx + i as u64);
                }
            },
            _ => {},
        }
        i = i + 1;
    }
    None
}

/// An ordered message waiting in the FIFO send buffer.
pub struct OutgoingMessage<M> {
    pub sequence_id: u64,
    pub receiver: u64,
    pub msg: M,
}

struct PeerRecord {
    peer: u64,
    delivered: Vec<u64>,
}

struct LinkRecord {
    peer: u64,
    up: bool,
}

/// The buffered messages carry strictly increasing sequence ids: the
/// earliest buffered message has the smallest.
pub open spec fn fifo_ordered<M>(b: Seq<OutgoingMessage<M>>) -> bool {
    forall|i: int, j: int| 0 <= i < j < b.len() ==> b[i].sequence_id < b[j].sequence_id
}

/// An ordered message is delivered exactly when its sequence id has not
/// been recorded for its sender yet.
pub open spec fn delivers(delivered: Set<u64>, sequence_id: u64) -> bool {
    !delivered.contains(sequence_id)
}

/// Keeps the buffered messages not destined for `peer`.
pub open spec fn not_for_peer<M>(peer: u64) -> spec_fn(OutgoingMessage<M>) -> bool {
    |m: OutgoingMessage<M>| m.receiver != peer
}

/// The replicated-state-machine coordinator's link bookkeeping, around the
/// consensus engine: the FIFO buffer of ordered outgoing messages and the
/// sequence counter that stamps them, the per-sender sets of delivered
/// sequence ids, and per-destination reachability.
pub struct RSM<M> {
    outgoing_buffer: Vec<OutgoingMessage<M>>,
    delivered_msgs: Vec<PeerRecord>,
    connected: Vec<LinkRecord>,
    sequence_ids: DurableCounter,
}

impl<M> RSM<M> {
    /// The FIFO send buffer, earliest message first.
    pub closed spec fn buffer(&self) -> Seq<OutgoingMessage<M>> {
        self.outgoing_buffer@
    }

    /// The sequence id most recently handed out.
    pub closed spec fn current_sequence(&self) -> u64 {
        self.sequence_ids.value
    }

    /// The peer is one this coordinator keeps delivery state for.
    pub closed spec fn is_peer(&self, peer: u64) -> bool {
        exists|i: int|
            0 <= i < self.delivered_msgs@.len() && self.delivered_msgs@[i].peer == peer
    }

    /// The sequence ids already delivered from `peer`.
    pub closed spec fn delivered(&self, peer: u64) -> Set<u64> {
        Set::new(
            |s: u64|
                exists|i: int|
                    0 <= i < self.delivered_msgs@.len() && self.delivered_msgs@[i].peer == peer
                        && self.delivered_msgs@[i].delivered@.contains(s),
        )
    }

    /// The peer is one this coordinator tracks reachability for.
    pub closed spec fn known_link(&self, peer: u64) -> bool {
        exists|i: int| 0 <= i < self.connected@.len() && self.connected@[i].peer == peer
    }

    /// The last send to `peer` succeeded.
    pub closed spec fn link_up(&self, peer: u64) -> bool {
        exists|i: int|
            0 <= i < self.connected@.len() && self.connected@[i].peer == peer
                && self.connected@[i].up
    }

    /// The coordinator's invariant: buffered sequence ids are strictly
    /// increasing and never ahead of the counter, and each peer has at
    /// most one delivery record and one link record.
    pub closed spec fn wf(&self) -> bool {
        &&& fifo_ordered(self.outgoing_buffer@)
        &&& forall|i: int|
            0 <= i < self.outgoing_buffer@.len() ==> #[trigger] self.outgoing_buffer@[i].sequence_id
                <= self.sequence_ids.value
        &&& forall|i: int, j: int|
            0 <= i < j < self.delivered_msgs@.len() ==> self.delivered_msgs@[i].peer
                != self.delivered_msgs@[j].peer
        &&& forall|i: int, j: int|
            0 <= i < j < self.connected@.len() ==> self.connected@[i].peer
                != self.connected@[j].peer
    }

    /// Delivery bookkeeping depends on the delivery records alone.
    proof fn lemma_delivery_state_eq(a: &Self, b: &Self)
        requires
            a.delivered_msgs@ == b.delivered_msgs@,
        ensures
            forall|p: u64| #[trigger] a.is_peer(p) == b.is_peer(p),
            forall|p: u64| a.delivered(p) == b.delivered(p),
    {
        assert forall|p: u64| #[trigger] a.is_peer(p) == b.is_peer(p) by {
            if a.is_peer(p) {
                let x = choose|x: int|
                    0 <= x < a.delivered_msgs@.len() && a.delivered_msgs@[x].peer == p;
                assert(b.delivered_msgs@[x].peer == p);
            }
            if b.is_peer(p) {
                let x = choose|x: int|
                    0 <= x < b.delivered_msgs@.len() && b.delivered_msgs@[x].peer == p;
                assert(a.delivered_msgs@[x].peer == p);
            }
        }
        assert forall|p: u64| a.delivered(p) == b.delivered(p) by {
            assert forall|s: u64|
                a.delivered(p).contains(s) == b.delivered(p).contains(s) by {
                if a.delivered(p).contains(s) {
                    let x = choose|x: int|
                        0 <= x < a.delivered_msgs@.len() && a.delivered_msgs@[x].peer == p
                            && a.delivered_msgs@[x].delivered@.contains(s);
                    assert(b.delivered_msgs@[x].peer == p && b.delivered_msgs@[x].delivered@.contains(
                        s,
                    ));
                }
                if b.delivered(p).contains(s) {
                    let x = choose|x: int|
                        0 <= x < b.delivered_msgs@.len() && b.delivered_msgs@[x].peer == p
                            && b.delivered_msgs@[x].delivered@.contains(s);
                    assert(a.delivered_msgs@[x].peer == p && a.delivered_msgs@[x].delivered@.contains(
                        s,
                    ));
                }
            }
            assert(a.delivered(p) =~= b.delivered(p));
        }
    }

    /// Reachability bookkeeping depends on the link records alone.
    proof fn lemma_link_state_eq(a: &Self, b: &Self)
        requires
            a.connected@ == b.connected@,
        ensures
            forall|p: u64| #[trigger] a.known_link(p) == b.known_link(p),
            forall|p: u64| #[trigger] a.link_up(p) == b.link_up(p),
    {
        assert forall|p: u64| #[trigger] a.known_link(p) == b.known_link(p) by {
            if a.known_link(p) {
                let x = choose|x: int| 0 <= x < a.connected@.len() && a.connected@[x].peer == p;
                assert(b.connected@[x].peer == p);
            }
            if b.known_link(p) {
                let x = choose|x: int| 0 <= x < b.connected@.len() && b.connected@[x].peer == p;
                assert(a.connected@[x].peer == p);
            }
        }
        assert forall|p: u64| #[trigger] a.link_up(p) == b.link_up(p) by {
            if a.link_up(p) {
                let x = choose|x: int|
                    0 <= x < a.connected@.len() && a.connected@[x].peer == p && a.connected@[x].up;
                assert(b.connected@[x].peer == p && b.connected@[x].up);
            }
            if b.link_up(p) {
                let x = choose|x: int|
                    0 <= x < b.connected@.len() && b.connected@[x].peer == p && b.connected@[x].up;
                assert(a.connected@[x].peer == p && a.connected@[x].up);
            }
        }
    }

    /// A coordinator for a fixed set of peers: nothing buffered, nothing
    /// delivered, every peer initially unreachable. The sequence counter
    /// is the one recovered from its persisted locations.
    pub fn new(peers: &Vec<u64>, sequence_ids: DurableCounter) -> (r: Self)
        requires
            forall|i: int, j: int| 0 <= i < j < peers@.len() ==> peers@[i] != peers@[j],
        ensures
            r.wf(),
            r.buffer() == Seq::<OutgoingMessage<M>>::empty(),
            r.current_sequence() == sequence_ids.value,
            forall|p: u64| #[trigger] r.is_peer(p) <==> peers@.contains(p),
            forall|p: u64| #[trigger] r.known_link(p) <==> peers@.contains(p),
            forall|p: u64| r.delivered(p) == Set::<u64>::empty(),
            forall|p: u64| !(#[trigger] r.link_up(p)),
    {
        let mut delivered_msgs: Vec<PeerRecord> = Vec::new();
        let mut connected: Vec<LinkRecord> = Vec::new();
        let n = peers.len();
        let mut i: usize = 0;
        while i < n
            invariant
                0 <= i <= peers@.len(),
                n == peers@.len(),
                delivered_msgs@.len() == i,
                connected@.len() == i,
                forall|j: int|
                    0 <= j < i ==> #[trigger] delivered_msgs@[j].peer == peers@[j]
                        && delivered_msgs@[j].delivered@.len() == 0,
                forall|j: int|
                    0 <= j < i ==> #[trigger] connected@[j].peer == peers@[j]
                        && !connected@[j].up,
            decreases peers@.len() - i,
        {
            delivered_msgs.push(PeerRecord { peer: peers[i], delivered: Vec::new() });
            connected.push(LinkRecord { peer: peers[i], up: false });
            i = i + 1;
        }
        let r = RSM {
            outgoing_buffer: Vec::new(),
            delivered_msgs,
            connected,
            sequence_ids,
        };
        proof {
            assert forall|p: u64| #[trigger] r.is_peer(p) <==> peers@.contains(p) by {
                if peers@.contains(p) {
                    let w = choose|w: int| 0 <= w < peers@.len() && peers@[w] == p;
                    assert(r.delivered_msgs@[w].peer == p);
                }
            }
            assert forall|p: u64| #[trigger] r.known_link(p) <==> peers@.contains(p) by {
                if peers@.contains(p) {
                    let w = choose|w: int| 0 <= w < peers@.len() && peers@[w] == p;
                    assert(r.connected@[w].peer == p);
                }
            }
            assert forall|p: u64| r.delivered(p) == Set::<u64>::empty() by {
                assert(r.delivered(p) =~= Set::<u64>::empty());
            }
        }
        r
    }

    /// The bytes to persist for the sequence counter after new sequence
    /// ids were handed out.
    pub fn sequence_counter_bytes(&self) -> (r: Vec<u8>)
        ensures
            crate::counter::parsed(r@) == Some(self.current_sequence()),
    {
        self.sequence_ids.render()
    }

    /// Stamps an ordered outgoing message with a fresh sequence id and
    /// appends it to the FIFO send buffer.
    pub fn enqueue_ordered(&mut self, receiver: u64, msg: M) -> (sequence_id: u64)
        requires
            old(self).wf(),
            old(self).current_sequence() < u64::MAX,
        ensures
            final(self).wf(),
            sequence_id == old(self).current_sequence() + 1,
            final(self).current_sequence() == sequence_id,
            final(self).buffer() == old(self).buffer().push(
                OutgoingMessage { sequence_id, receiver, msg },
            ),
            forall|p: u64| final(self).delivered(p) == old(self).delivered(p),
            forall|p: u64| #[trigger] final(self).is_peer(p) == old(self).is_peer(p),
            forall|p: u64| #[trigger] final(self).known_link(p) == old(self).known_link(p),
            forall|p: u64| #[trigger] final(self).link_up(p) == old(self).link_up(p),
    {
        let sequence_id = self.sequence_ids.next();
        self.outgoing_buffer.push(OutgoingMessage { sequence_id, receiver, msg });
        proof {
            Self::lemma_delivery_state_eq(old(self), self);
            Self::lemma_link_state_eq(old(self), self);
        }
        sequence_id
    }

    /// How many ordered messages wait to be sent.
    pub fn pending_len(&self) -> (n: usize)
        ensures
            n == self.buffer().len(),
    {
        self.outgoing_buffer.len()
    }

    /// The `i`-th waiting ordered message, earliest first; the sender
    /// attempts them in this order and stops at the first failure.
    pub fn pending(&self, i: usize) -> (m: &OutgoingMessage<M>)
        requires
            i < self.buffer().len(),
        ensures
            *m == self.buffer()[i as int],
    {
        &self.outgoing_buffer[i]
    }

    /// Removes the confirmed-delivered prefix from the send buffer; what
    /// failed, and everything after it, stays for the next flush tick.
    pub fn mark_sent(&mut self, count: usize)
        requires
            old(self).wf(),
            count <= old(self).buffer().len(),
        ensures
            final(self).wf(),
            final(self).buffer() == old(self).buffer().skip(count as int),
            final(self).current_sequence() == old(self).current_sequence(),
            forall|p: u64| final(self).delivered(p) == old(self).delivered(p),
            forall|p: u64| #[trigger] final(self).is_peer(p) == old(self).is_peer(p),
            forall|p: u64| #[trigger] final(self).known_link(p) == old(self).known_link(p),
            forall|p: u64| #[trigger] final(self).link_up(p) == old(self).link_up(p),
    {
        let ghost b0 = self.outgoing_buffer@;
        let mut k: usize = 0;
        while k < count
            invariant
                0 <= k <= count,
                count <= b0.len(),
                self.outgoing_buffer@ == b0.skip(k as int),
                self.delivered_msgs == old(self).delivered_msgs,
                self.connected == old(self).connected,
                self.sequence_ids == old(self).sequence_ids,
            decreases count - k,
        {
            self.outgoing_buffer.remove(0);
            proof {
                assert(b0.skip(k as int).remove(0) =~= b0.skip(k as int + 1));
            }
            k = k + 1;
        }
        proof {
            Self::lemma_delivery_state_eq(old(self), self);
            Self::lemma_link_state_eq(old(self), self);
            assert forall|i: int, j: int|
                0 <= i < j < self.outgoing_buffer@.len() implies self.outgoing_buffer@[i].sequence_id
                < self.outgoing_buffer@[j].sequence_id by {
                assert(self.outgoing_buffer@[i] == b0[i + count]);
                assert(self.outgoing_buffer@[j] == b0[j + count]);
            }
            assert forall|i: int|
                0 <= i < self.outgoing_buffer@.len() implies #[trigger] self.outgoing_buffer@[i].sequence_id
                <= self.sequence_ids.value by {
                assert(self.outgoing_buffer@[i] == b0[i + count]);
            }
        }
    }

    /// Drops every still-buffered ordered message destined for `peer`:
    /// called when the peer announces a restart, which makes their
    /// delivery context stale.
    pub fn purge_peer(&mut self, peer: u64)
        requires
            old(self).wf(),
        ensures
            final(self).wf(),
            final(self).buffer() == old(self).buffer().filter(not_for_peer(peer)),
            final(self).current_sequence() == old(self).current_sequence(),
            forall|p: u64| final(self).delivered(p) == old(self).delivered(p),
            forall|p: u64| #[trigger] final(self).is_peer(p) == old(self).is_peer(p),
            forall|p: u64| #[trigger] final(self).known_link(p) == old(self).known_link(p),
            forall|p: u64| #[trigger] final(self).link_up(p) == old(self).link_up(p),
    {
        let ghost b0 = self.outgoing_buffer@;
        let ghost pred = not_for_peer::<M>(peer);
        let mut kept: Vec<OutgoingMessage<M>> = Vec::new();
        let n = self.outgoing_buffer.len();
        proof {
            reveal(Seq::filter);
            assert(b0.take(0) =~= Seq::<OutgoingMessage<M>>::empty());
            assert(b0.take(0).filter(pred) =~= Seq::<OutgoingMessage<M>>::empty());
            assert(kept@ == b0.take(0).filter(pred));
        }
        let mut i: usize = 0;
        while i < n
            invariant
                0 <= i <= b0.len(),
                n == b0.len(),
                self.outgoing_buffer@ == b0.skip(i as int),
                kept@ == b0.take(i as int).filter(pred),
                fifo_ordered(kept@),
                fifo_ordered(b0),
                forall|a: int, b: int|
                    0 <= a < kept@.len() && 0 <= b < self.outgoing_buffer@.len()
                        ==> kept@[a].sequence_id < self.outgoing_buffer@[b].sequence_id,
                forall|a: int|
                    0 <= a < kept@.len() ==> #[trigger] kept@[a].sequence_id
                        <= self.sequence_ids.value,
                forall|a: int|
                    0 <= a < self.outgoing_buffer@.len()
                        ==> #[trigger] self.outgoing_buffer@[a].sequence_id
                        <= self.sequence_ids.value,
                self.delivered_msgs == old(self).delivered_msgs,
                self.connected == old(self).connected,
                self.sequence_ids == old(self).sequence_ids,
                pred == not_for_peer::<M>(peer),
            decreases b0.len() - i,
        {
            let ghost kept0 = kept@;
            let ghost rem0 = self.outgoing_buffer@;
            let m = self.outgoing_buffer.remove(0);
            proof {
                assert(b0.skip(i as int).remove(0) =~= b0.skip(i as int + 1));
                assert(m == b0[i as int]);
            }
            if m.receiver != peer {
                kept.push(m);
            }
            proof {
                reveal(Seq::filter);
                let t = b0.take(i as int + 1);
                assert(t.drop_last() =~= b0.take(i as int));
                assert(t.last() == b0[i as int]);
                assert(kept@ == b0.take(i as int + 1).filter(pred));
                assert forall|a: int, b: int|
                    0 <= a < kept@.len() && 0 <= b < self.outgoing_buffer@.len()
                        implies kept@[a].sequence_id < self.outgoing_buffer@[b].sequence_id by {
                    assert(self.outgoing_buffer@[b] == rem0[b + 1]);
                    if a < kept0.len() {
                        assert(kept@[a] == kept0[a]);
                    } else {
                        assert(kept@[a] == m);
                        assert(rem0[0] == m);
                    }
                }
            }
            i = i + 1;
        }
        self.outgoing_buffer = kept;
        proof {
            assert(b0.take(b0.len() as int) =~= b0);
            Self::lemma_delivery_state_eq(old(self), self);
            Self::lemma_link_state_eq(old(self), self);
        }
    }

    /// Records the outcome of attempting to reach `peer`, and says whether
    /// the engine must be told the peer reconnected: exactly when a
    /// previously unreachable tracked peer became reachable again.
    pub fn record_send_result(&mut self, peer: u64, success: bool) -> (notify_reconnect: bool)
        requires
            old(self).wf(),
        ensures
            final(self).wf(),
            notify_reconnect == (success && old(self).known_link(peer) && !old(self).link_up(
                peer,
            )),
            final(self).known_link(peer),
            final(self).link_up(peer) == success,
            forall|p: u64|
                p != peer ==> #[trigger] final(self).known_link(p) == old(self).known_link(p),
            forall|p: u64| p != peer ==> #[trigger] final(self).link_up(p) == old(self).link_up(p),
            final(self).buffer() == old(self).buffer(),
            final(self).current_sequence() == old(self).current_sequence(),
            forall|p: u64| final(self).delivered(p) == old(self).delivered(p),
            forall|p: u64| #[trigger] final(self).is_peer(p) == old(self).is_peer(p),
    {
        let ghost c0 = self.connected@;
        let n = self.connected.len();
        let mut i: usize = 0;
        let mut found: Option<usize> = None;
        let mut was_up = false;
        while i < n
            invariant
                0 <= i <= c0.len(),
                n == c0.len(),
                self.connected@ == c0,
                match found {
                    Some(w) => 0 <= w < i && c0[w as int].peer == peer
                        && was_up == c0[w as int].up,
                    None => (forall|j: int| 0 <= j < i ==> c0[j].peer != peer) && !was_up,
                },
            decreases c0.len() - i,
        {
            if found.is_none() {
                let rec: &LinkRecord = &self.connected[i];
                if rec.peer == peer {
                    was_up = rec.up;
                    found = Some(i);
                }
            }
            i = i + 1;
        }
        match found {
            Some(w) => {
                let ghost c0w = c0[w as int];
                self.connected.remove(w);
                self.connected.insert(w, LinkRecord { peer, up: success });
                proof {
                    Self::lemma_delivery_state_eq(old(self), self);
                    assert(self.connected@ =~= c0.update(w as int, LinkRecord { peer, up: success }));
                    assert(final(self).known_link(peer)) by {
                        assert(self.connected@[w as int].peer == peer);
                    }
                    assert(old(self).known_link(peer));
                    assert(old(self).link_up(peer) == c0w.up) by {
                        if c0w.up {
                        } else {
                            if old(self).link_up(peer) {
                                let x = choose|x: int|
                                    0 <= x < c0.len() && c0[x].peer == peer && c0[x].up;
                                if x != w {
                                    assert(c0[x].peer != c0[w as int].peer);
                                }
                            }
                        }
                    }
                    assert(final(self).link_up(peer) == success) by {
                        if success {
                            assert(self.connected@[w as int].peer == peer
                                && self.connected@[w as int].up);
                        } else {
                            if final(self).link_up(peer) {
                                let x = choose|x: int|
                                    0 <= x < self.connected@.len() && self.connected@[x].peer
                                        == peer && self.connected@[x].up;
                                if x != w {
                                    assert(c0[x].peer != c0[w as int].peer);
                                }
                            }
                        }
                    }
                    assert forall|p: u64|
                        p != peer implies #[trigger] final(self).known_link(p) == old(self).known_link(p) by {
                        if old(self).known_link(p) {
                            let x = choose|x: int| 0 <= x < c0.len() && c0[x].peer == p;
                            assert(self.connected@[x].peer == p);
                        }
                        if final(self).known_link(p) {
                            let x = choose|x: int|
                                0 <= x < self.connected@.len() && self.connected@[x].peer == p;
                            assert(c0[x].peer == p);
                        }
                    }
                    assert forall|p: u64|
                        p != peer implies #[trigger] final(self).link_up(p) == old(self).link_up(
                        p,
                    ) by {
                        if old(self).link_up(p) {
                            let x = choose|x: int| 0 <= x < c0.len() && c0[x].peer == p && c0[x].up;
                            assert(self.connected@[x].peer == p && self.connected@[x].up);
                        }
                        if final(self).link_up(p) {
                            let x = choose|x: int|
                                0 <= x < self.connected@.len() && self.connected@[x].peer == p
                                    && self.connected@[x].up;
                            assert(c0[x].peer == p && c0[x].up);
                        }
                    }
                }
                if success && !was_up {
                    return true;
                }
                false
            },
            None => {
                self.connected.push(LinkRecord { peer, up: success });
                proof {
                    Self::lemma_delivery_state_eq(old(self), self);
                    assert(final(self).known_link(peer)) by {
                        assert(self.connected@[c0.len() as int].peer == peer);
                    }
                    assert(!old(self).known_link(peer)) by {
                        if old(self).known_link(peer) {
                            let x = choose|x: int| 0 <= x < c0.len() && c0[x].peer == peer;
                        }
                    }
                    assert(!old(self).link_up(peer)) by {
                        if old(self).link_up(peer) {
                            let x = choose|x: int|
                                0 <= x < c0.len() && c0[x].peer == peer && c0[x].up;
                        }
                    }
                    assert(self.connected@[c0.len() as int].peer == peer);
                    assert(final(self).link_up(peer) == success) by {
                        if success {
                            assert(self.connected@[c0.len() as int].up);
                        } else {
                            if final(self).link_up(peer) {
                                let x = choose|x: int|
                                    0 <= x < self.connected@.len() && self.connected@[x].peer
                                        == peer && self.connected@[x].up;
                                if x < c0.len() {
                                    assert(c0[x].peer == peer);
                                }
                            }
                        }
                    }
                    assert forall|p: u64|
                        p != peer implies #[trigger] final(self).known_link(p) == old(self).known_link(p) by {
                        if old(self).known_link(p) {
                            let x = choose|x: int| 0 <= x < c0.len() && c0[x].peer == p;
                            assert(self.connected@[x].peer == p);
                        }
                        if final(self).known_link(p) {
                            let x = choose|x: int|
                                0 <= x < self.connected@.len() && self.connected@[x].peer == p;
                            assert(x < c0.len());
                            assert(c0[x].peer == p);
                        }
                    }
                    assert forall|p: u64|
                        p != peer implies #[trigger] final(self).link_up(p) == old(self).link_up(
                        p,
                    ) by {
                        if old(self).link_up(p) {
                            let x = choose|x: int| 0 <= x < c0.len() && c0[x].peer == p && c0[x].up;
                            assert(self.connected@[x].peer == p && self.connected@[x].up);
                        }
                        if final(self).link_up(p) {
                            let x = choose|x: int|
                                0 <= x < self.connected@.len() && self.connected@[x].peer == p
                                    && self.connected@[x].up;
                            assert(x < c0.len());
                            assert(c0[x].peer == p && c0[x].up);
                        }
                    }
                    assert forall|i2: int, j2: int|
                        0 <= i2 < j2 < self.connected@.len() implies self.connected@[i2].peer
                        != self.connected@[j2].peer by {
                        if j2 == c0.len() {
                            assert(c0[i2].peer != peer);
                        }
                    }
                }
                false
            },
        }
    }

    /// The coordinator's invariant keeps the send buffer FIFO-ordered:
    /// sequence ids strictly increase along it.
    pub proof fn lemma_wf_buffer_fifo(&self)
        requires
            self.wf(),
        ensures
            fifo_ordered(self.buffer()),
    {
    }

    /// Whether delivery state is kept for `peer`; inbound ordered messages
    /// are checked against it before they may reach the engine.
    pub fn knows_peer(&self, peer: u64) -> (b: bool)
        requires
            self.wf(),
        ensures
            b == self.is_peer(peer),
    {
        let n = self.delivered_msgs.len();
        let mut i: usize = 0;
        while i < n
            invariant
                0 <= i <= self.delivered_msgs@.len(),
                n == self.delivered_msgs@.len(),
                forall|j: int| 0 <= j < i ==> self.delivered_msgs@[j].peer != peer,
            decreases self.delivered_msgs@.len() - i,
        {
            let rec: &PeerRecord = &self.delivered_msgs[i];
            if rec.peer == peer {
                return true;
            }
            i = i + 1;
        }
        proof {
            if self.is_peer(peer) {
                let x = choose|x: int|
                    0 <= x < self.delivered_msgs@.len() && self.delivered_msgs@[x].peer == peer;
            }
        }
        false
    }

    /// Checks an inbound ordered message against the sender's delivered
    /// set: an already-seen sequence id is dropped (the result is false
    /// and nothing changes); a new one is recorded and must be forwarded
    /// to the engine, exactly once.
    pub fn receive_ordered(&mut self, sender: u64, sequence_id: u64) -> (deliver: bool)
        requires
            old(self).wf(),
            old(self).is_peer(sender),
        ensures
            final(self).wf(),
            deliver == delivers(old(self).delivered(sender), sequence_id),
            final(self).delivered(sender) == old(self).delivered(sender).insert(sequence_id),
            forall|p: u64|
                p != sender ==> final(self).delivered(p) == old(self).delivered(p),
            final(self).buffer() == old(self).buffer(),
            final(self).current_sequence() == old(self).current_sequence(),
            forall|p: u64| #[trigger] final(self).is_peer(p) == old(self).is_peer(p),
            forall|p: u64| #[trigger] final(self).known_link(p) == old(self).known_link(p),
            forall|p: u64| #[trigger] final(self).link_up(p) == old(self).link_up(p),
    {
        let ghost d0 = self.delivered_msgs@;
        let n = self.delivered_msgs.len();
        let mut i: usize = 0;
        let mut found: Option<usize> = None;
        while i < n
            invariant
                0 <= i <= d0.len(),
                n == d0.len(),
                self.delivered_msgs@ == d0,
                match found {
                    Some(w) => 0 <= w < i && d0[w as int].peer == sender,
                    None => forall|j: int| 0 <= j < i ==> d0[j].peer != sender,
                },
            decreases d0.len() - i,
        {
            if found.is_none() {
                let rec: &PeerRecord = &self.delivered_msgs[i];
                if rec.peer == sender {
                    found = Some(i);
                }
            }
            i = i + 1;
        }
        let w: usize;
        match found {
            Some(w0) => {
                w = w0;
            },
            None => {
                proof {
                    let x = choose|x: int| 0 <= x < d0.len() && d0[x].peer == sender;
                    assert(false);
                }
                return false;
            },
        }
        let ghost rec0 = d0[w as int];
        let seen = contains_u64(&self.delivered_msgs[w].delivered, sequence_id);
        proof {
            assert(old(self).delivered(sender).contains(sequence_id) == rec0.delivered@.contains(
                sequence_id,
            )) by {
                if old(self).delivered(sender).contains(sequence_id) {
                    let x = choose|x: int|
                        0 <= x < d0.len() && d0[x].peer == sender && d0[x].delivered@.contains(
                            sequence_id,
                        );
                    if x != w {
                        assert(d0[x].peer != d0[w as int].peer);
                    }
                }
            }
        }
        if seen {
            proof {
                Self::lemma_delivery_state_eq(old(self), self);
                Self::lemma_link_state_eq(old(self), self);
                assert(old(self).delivered(sender).insert(sequence_id) =~= old(self).delivered(
                    sender,
                ));
            }
            return false;
        }
        let mut rec = self.delivered_msgs.remove(w);
        rec.delivered.push(sequence_id);
        let ghost rec1 = rec;
        self.delivered_msgs.insert(w, rec);
        proof {
            Self::lemma_link_state_eq(old(self), self);
            assert(self.delivered_msgs@ =~= d0.update(w as int, rec1));
            assert(rec1.peer == sender);
            assert(rec1.delivered@ == rec0.delivered@.push(sequence_id));
            assert(final(self).delivered(sender) =~= old(self).delivered(sender).insert(
                sequence_id,
            )) by {
                assert forall|s: u64|
                    final(self).delivered(sender).contains(s) implies old(self).delivered(
                    sender,
                ).insert(sequence_id).contains(s) by {
                    let x = choose|x: int|
                        0 <= x < self.delivered_msgs@.len() && self.delivered_msgs@[x].peer
                            == sender && self.delivered_msgs@[x].delivered@.contains(s);
                    if x != w {
                        assert(d0[x].peer != d0[w as int].peer);
                    } else {
                        if s != sequence_id {
                            assert(rec0.delivered@.contains(s)) by {
                                let y = choose|y: int|
                                    0 <= y < rec1.delivered@.len() && rec1.delivered@[y] == s;
                                assert(rec1.delivered@[y] == rec0.delivered@.push(sequence_id)[y]);
                                if y < rec0.delivered@.len() {
                                    assert(rec0.delivered@[y] == s);
                                }
                            }
                        }
                    }
                }
                assert forall|s: u64|
                    old(self).delivered(sender).insert(sequence_id).contains(s) implies final(self).delivered(sender).contains(s) by {
                    if s == sequence_id {
                        assert(rec1.delivered@.contains(s)) by {
                            assert(rec1.delivered@[rec0.delivered@.len() as int] == sequence_id);
                        }
                        assert(self.delivered_msgs@[w as int].peer == sender
                            && self.delivered_msgs@[w as int].delivered@.contains(s));
                    } else {
                        let x = choose|x: int|
                            0 <= x < d0.len() && d0[x].peer == sender && d0[x].delivered@.contains(
                                s,
                            );
                        if x == w {
                            assert(rec1.delivered@.contains(s)) by {
                                let y = choose|y: int|
                                    0 <= y < rec0.delivered@.len() && rec0.delivered@[y] == s;
                                assert(rec1.delivered@[y] == s);
                            }
                            assert(self.delivered_msgs@[w as int].delivered@.contains(s));
                        } else {
                            assert(self.delivered_msgs@[x].peer == sender
                                && self.delivered_msgs@[x].delivered@.contains(s));
                        }
                    }
                }
            }
            assert forall|p: u64|
                p != sender implies final(self).delivered(p) == old(self).delivered(p) by {
                assert(final(self).delivered(p) =~= old(self).delivered(p)) by {
                    assert forall|s: u64|
                        final(self).delivered(p).contains(s) implies old(self).delivered(
                        p,
                    ).contains(s) by {
                        let x = choose|x: int|
                            0 <= x < self.delivered_msgs@.len() && self.delivered_msgs@[x].peer == p
                                && self.delivered_msgs@[x].delivered@.contains(s);
                        assert(x != w);
                        assert(d0[x].peer == p && d0[x].delivered@.contains(s));
                    }
                    assert forall|s: u64|
                        old(self).delivered(p).contains(s) implies final(self).delivered(
                        p,
                    ).contains(s) by {
                        let x = choose|x: int|
                            0 <= x < d0.len() && d0[x].peer == p && d0[x].delivered@.contains(s);
                        assert(x != w);
                        assert(self.delivered_msgs@[x].peer == p
                            && self.delivered_msgs@[x].delivered@.contains(s));
                    }
                }
            }
            assert forall|p: u64| #[trigger]
                final(self).is_peer(p) == old(self).is_peer(p) by {
                if old(self).is_peer(p) {
                    let x = choose|x: int| 0 <= x < d0.len() && d0[x].peer == p;
                    assert(self.delivered_msgs@[x].peer == p);
                }
                if final(self).is_peer(p) {
                    let x = choose|x: int|
                        0 <= x < self.delivered_msgs@.len() && self.delivered_msgs@[x].peer == p;
                    assert(d0[x].peer == p);
                }
            }
        }
        true
    }
}

/// Whether the list already holds `x`.
fn contains_u64(v: &Vec<u64>, x: u64) -> (r: bool)
    ensures
        r == v@.contains(x),
{
    let n = v.len();
    let mut i: usize = 0;
    while i < n
        invariant
            0 <= i <= v@.len(),
            n == v@.len(),
            forall|j: int| 0 <= j < i ==> v@[j] != x,
        decreases v@.len() - i,
    {
        if v[i] == x {
            return true;
        }
        i = i + 1;
    }
    proof {
        if v@.contains(x) {
            let y = choose|y: int| 0 <= y < v@.len() && v@[y] == x;
        }
    }
    false
}

/// Exactly-once delivery: once a sequence id is recorded for a sender,
/// delivering the identical pair again is a duplicate and is dropped.
pub proof fn lemma_duplicate_dropped(delivered: Set<u64>, sequence_id: u64)
    ensures
        !delivers(delivered.insert(sequence_id), sequence_id),
{
}

/// FIFO ordering: while the earliest buffered ordered message has not been
/// confirmed sent, every other buffered ordered message carries a greater
/// sequence number. The sender walks the buffer in order and stops at the
/// first failure, and `mark_sent` removes only the confirmed prefix, so no
/// message can be sent ahead of a failed one.
pub proof fn lemma_no_overtaking<M>(b: Seq<OutgoingMessage<M>>, j: int)
    requires
        fifo_ordered(b),
        0 < j < b.len(),
    ensures
        b[0].sequence_id < b[j].sequence_id,
{
}

} // verus!
