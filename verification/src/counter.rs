//! Crash-safe counters. A counter's value is persisted by the caller as
//! decimal bytes in two redundant locations; recovery prefers the first
//! location and falls back to the second when the first is missing or does
//! not parse. This module holds the parsing, the rendering, the increment
//! and the recovery rule, and the proof that a crash between the two
//! redundant writes cannot make the recovered value regress.

use vstd::prelude::*;

verus! {

/// The byte is an ASCII decimal digit.
pub open spec fn is_dec_digit(b: u8) -> bool {
    48 <= b <= 57
}

/// Every byte of the sequence is an ASCII decimal digit.
pub open spec fn all_dec_digits(s: Seq<u8>) -> bool {
    forall|i: int| 0 <= i < s.len() ==> is_dec_digit(#[trigger] s[i])
}

/// The number the digit sequence denotes, most significant digit first.
pub open spec fn dec_value(s: Seq<u8>) -> int
    decreases s.len(),
{
    if s.len() == 0 {
        0
    } else {
        dec_value(s.drop_last()) * 10 + (s.last() - 48)
    }
}

/// What parsing a persisted location yields: the denoted number, if the
/// bytes are a nonempty digit string whose value fits in a `u64`.
pub open spec fn parsed(s: Seq<u8>) -> Option<u64> {
    if s.len() > 0 && all_dec_digits(s) && dec_value(s) <= u64::MAX {
        Some(dec_value(s) as u64)
    } else {
        None
    }
}

/// The value recovery yields from the two redundant locations: the first
/// location that parses wins; with neither, the counter restarts at 0.
pub open spec fn recovered_value(first: Option<Seq<u8>>, second: Option<Seq<u8>>) -> u64 {
    if first is Some && parsed(first->0) is Some {
        parsed(first->0)->0
    } else if second is Some && parsed(second->0) is Some {
        parsed(second->0)->0
    } else {
        0
    }
}

proof fn lemma_dec_value_nonneg(s: Seq<u8>)
    requires
        all_dec_digits(s),
    ensures
        dec_value(s) >= 0,
    decreases s.len(),
{
    if s.len() > 0 {
        assert(all_dec_digits(s.drop_last()));
        lemma_dec_value_nonneg(s.drop_last());
    }
}

/// A digit string denotes at least what any of its prefixes denotes.
proof fn lemma_dec_value_prefix_le(s: Seq<u8>, i: int)
    requires
        all_dec_digits(s),
        0 <= i <= s.len(),
    ensures
        dec_value(s.take(i)) <= dec_value(s),
    decreases s.len() - i,
{
    if i < s.len() {
        lemma_dec_value_prefix_le(s, i + 1);
        let t = s.take(i + 1);
        assert(t.drop_last() =~= s.take(i));
        assert(all_dec_digits(s.take(i)));
        lemma_dec_value_nonneg(s.take(i));
        assert(dec_value(t) == dec_value(s.take(i)) * 10 + (s[i] - 48));
        assert(dec_value(s.take(i)) <= dec_value(s.take(i)) * 10) by (nonlinear_arith)
            requires
                dec_value(s.take(i)) >= 0,
        ;
    } else {
        assert(s.take(i) =~= s);
    }
}

/// Reads a counter value from one persisted location: a nonempty string of
/// decimal digits denoting a number that fits in a `u64`.
pub fn parse_u64(s: &[u8]) -> (r: Option<u64>)
    ensures
        r == parsed(s@),
{
    if s.len() == 0 {
        return None;
    }
    let mut acc: u64 = 0;
    let mut i: usize = 0;
    while i < s.len()
        invariant
            0 <= i <= s@.len(),
            all_dec_digits(s@.take(i as int)),
            acc == dec_value(s@.take(i as int)),
        decreases s@.len() - i,
    {
        let b = s[i];
        if b < 48 || b > 57 {
            assert(!is_dec_digit(s@[i as int]));
            return None;
        }
        let d = (b - 48) as u64;
        if acc > (u64::MAX - d) / 10 {
            proof {
                assert(s@.take(i as int + 1).drop_last() =~= s@.take(i as int));
                assert(dec_value(s@.take(i as int + 1)) == acc * 10 + d);
                assert(acc * 10 + d > u64::MAX) by (nonlinear_arith)
                    requires
                        acc > (u64::MAX - d) / 10,
                        0 <= d <= 9,
                        acc >= 0,
                ;
                if all_dec_digits(s@) {
                    lemma_dec_value_prefix_le(s@, i as int + 1);
                }
            }
            return None;
        }
        proof {
            assert(acc * 10 + d <= u64::MAX) by (nonlinear_arith)
                requires
                    acc <= (u64::MAX - d) / 10,
                    0 <= d <= 9,
                    acc >= 0,
            ;
            assert(s@.take(i as int + 1).drop_last() =~= s@.take(i as int));
        }
        acc = acc * 10 + d;
        i = i + 1;
    }
    proof {
        assert(s@.take(i as int) =~= s@);
    }
    Some(acc)
}

/// Renders a counter value as the decimal bytes the two persisted
/// locations hold; `parse_u64` reads the rendering back exactly.
pub fn render_u64(n: u64) -> (r: Vec<u8>)
    ensures
        r@.len() > 0,
        all_dec_digits(r@),
        dec_value(r@) == n,
    decreases n,
{
    if n < 10 {
        let mut r: Vec<u8> = Vec::new();
        r.push(48 + n as u8);
        proof {
            assert(r@.drop_last() =~= Seq::<u8>::empty());
            assert(dec_value(Seq::<u8>::empty()) == 0);
            assert(dec_value(r@) == n);
        }
        r
    } else {
        let mut r = render_u64(n / 10);
        let ghost prefix = r@;
        let d = (n % 10) as u8;
        r.push(48 + d);
        proof {
            assert(r@.drop_last() =~= prefix);
            assert(r@.last() == 48 + d);
            assert(dec_value(r@) == dec_value(prefix) * 10 + d);
            assert(n == (n / 10) * 10 + n % 10);
            assert(forall|i: int|
                0 <= i < r@.len() ==> is_dec_digit(#[trigger] r@[i]));
        }
        r
    }
}

/// A monotonically increasing integer generator whose owner persists every
/// new value to two redundant locations before using it.
pub struct DurableCounter {
    pub value: u64,
}

impl DurableCounter {
    /// A counter starting from nothing persisted.
    pub fn new() -> (r: Self)
        ensures
            r.value == 0,
    {
        DurableCounter { value: 0 }
    }

    /// Rebuilds the counter from the two persisted locations, preferring
    /// the first and falling back to the second when it does not parse.
    pub fn recover(first: Option<&[u8]>, second: Option<&[u8]>) -> (r: Self)
        ensures
            r.value == recovered_value(
                match first {
                    Some(s) => Some(s@),
                    None => None,
                },
                match second {
                    Some(s) => Some(s@),
                    None => None,
                },
            ),
    {
        if let Some(bytes) = first {
            if let Some(v) = parse_u64(bytes) {
                return DurableCounter { value: v };
            }
        }
        if let Some(bytes) = second {
            if let Some(v) = parse_u64(bytes) {
                return DurableCounter { value: v };
            }
        }
        DurableCounter { value: 0 }
    }

    /// The next value: durably greater than every value returned before,
    /// provided the owner persists `render()` before handing it out.
    pub fn next(&mut self) -> (r: u64)
        requires
            old(self).value < u64::MAX,
        ensures
            final(self).value == old(self).value + 1,
            r == final(self).value,
    {
        self.value = self.value + 1;
        self.value
    }

    /// The bytes the owner writes to both persisted locations.
    pub fn render(&self) -> (r: Vec<u8>)
        ensures
            parsed(r@) == Some(self.value),
    {
        render_u64(self.value)
    }
}

/// A generator of globally unique command identities `(node, counter)`:
/// unique across nodes by the node id, and per node strictly increasing.
pub struct CommandIdGen {
    pub node_id: u64,
    pub counter: DurableCounter,
}

impl CommandIdGen {
    /// Rebuilds the generator from this node's id and the counter's two
    /// persisted locations.
    pub fn recover(node_id: u64, first: Option<&[u8]>, second: Option<&[u8]>) -> (r: Self)
        ensures
            r.node_id == node_id,
            r.counter.value == recovered_value(
                match first {
                    Some(s) => Some(s@),
                    None => None,
                },
                match second {
                    Some(s) => Some(s@),
                    None => None,
                },
            ),
    {
        CommandIdGen { node_id, counter: DurableCounter::recover(first, second) }
    }

    /// A fresh command identity; the owner persists `persist_bytes()`
    /// before submitting a command under it.
    pub fn next_id(&mut self) -> (id: (u64, u64))
        requires
            old(self).counter.value < u64::MAX,
        ensures
            id.0 == old(self).node_id,
            id.1 == old(self).counter.value + 1,
            final(self).node_id == old(self).node_id,
            final(self).counter.value == old(self).counter.value + 1,
    {
        let c = self.counter.next();
        (self.node_id, c)
    }

    /// The bytes the owner writes to the counter's two persisted locations.
    pub fn persist_bytes(&self) -> (r: Vec<u8>)
        ensures
            parsed(r@) == Some(self.counter.value),
    {
        self.counter.render()
    }
}

/// Durable-counter crash safety: suppose both locations last held the bytes
/// of `confirmed`, the first location was rewritten, and the process stopped
/// before the second write. The first location then holds either the bytes
/// of a value no smaller than `confirmed`, or bytes that do not parse (a
/// torn write); the second still holds `confirmed`. Either way, recovery
/// yields a value no smaller than `confirmed`.
pub proof fn lemma_recovery_never_regresses(
    first: Option<Seq<u8>>,
    second: Seq<u8>,
    confirmed: u64,
)
    requires
        parsed(second) == Some(confirmed),
        first matches Some(s) ==> (parsed(s) is None || parsed(s)->0 >= confirmed),
    ensures
        recovered_value(first, Some(second)) >= confirmed,
{
}

} // verus!
