//! The rumor / broadcast store.
//!
//! A priority queue of rumors wrapped with a send count and an insertion
//! ordinal. The next rumor to piggyback is the least disseminated one: fewer
//! `sends` first, then smaller insertion `id` (FIFO tiebreak). Wire
//! serialization is out of scope for the core, so the serialized-size
//! tiebreak degenerates and the order is the total order `(sends, id)`.
//!
//! The store also owns the dissemination budget: a rumor is re-enqueued after
//! a piggyback only while `sends < max_sends - 1`, where
//! `max_sends = ceil(3 * log10(n + 2))` for a membership of size `n`.

use vstd::multiset::Multiset;
use vstd::prelude::*;

use crate::msg::Rumor;

verus! {

/// Ceiling on the membership size, so that `(n + 2)^3` (the argument of the
/// dissemination-budget logarithm) stays within `u128` arithmetic.
pub const MAX_MEMBERS: u64 = 1_000_000_000_000;

/// The successor of a wrapping counter.
pub open spec fn wrap_inc_spec(x: u64) -> u64 {
    if x == u64::MAX {
        0
    } else {
        (x + 1) as u64
    }
}

/// Advance a wrapping counter.
pub fn wrap_inc(x: u64) -> (r: u64)
    ensures
        r == wrap_inc_spec(x),
{
    if x == u64::MAX {
        0
    } else {
        x + 1
    }
}

/// `m * m * m`.
pub open spec fn cube(m: int) -> int {
    m * m * m
}

/// The least `k` with `10^k >= m`, computed by counting rounding divisions
/// by ten; `ceil(log10(m))` for `m >= 1`.
pub open spec fn ceil_log10(m: nat) -> nat
    decreases m,
{
    if m <= 1 {
        0
    } else {
        1 + ceil_log10(((m + 9) / 10) as nat)
    }
}

/// The per-rumor send budget for a membership of `n` peers:
/// `ceil(3 * log10(n + 2))`, written over integers as the least `k` with
/// `10^k >= (n + 2)^3`.
pub open spec fn max_sends_spec(n: nat) -> nat {
    ceil_log10(cube(n as int + 2) as nat)
}

/// `10^k`.
pub open spec fn pow10(k: nat) -> nat
    decreases k,
{
    if k == 0 {
        1
    } else {
        10 * pow10((k - 1) as nat)
    }
}

/// `ceil_log10(m)` is at most any `k` whose power of ten reaches `m`.
pub proof fn lemma_ceil_log10_le(m: nat, k: nat)
    requires
        m <= pow10(k),
    ensures
        ceil_log10(m) <= k,
    decreases k,
{
    if m <= 1 {
    } else {
        assert(pow10(0) == 1);
        assert(k >= 1);
        assert(pow10(k) == 10 * pow10((k - 1) as nat));
        assert((m + 9) / 10 <= pow10((k - 1) as nat));
        lemma_ceil_log10_le(((m + 9) / 10) as nat, (k - 1) as nat);
    }
}

/// The send budget never exceeds 37 while the membership respects
/// `MAX_MEMBERS`, and it is at least 1.
pub proof fn lemma_max_sends_bounds(n: nat)
    requires
        n <= MAX_MEMBERS,
    ensures
        1 <= max_sends_spec(n) <= 37,
{
    let m = n as int + 2;
    assert(cube(m) <= cube(1_000_000_000_002)) by (nonlinear_arith)
        requires
            2 <= m <= 1_000_000_000_002,
    ;
    assert(pow10(37) == 10_000_000_000_000_000_000_000_000_000_000_000_000) by {
        reveal_with_fuel(pow10, 40);
    }
    assert(cube(1_000_000_000_002) == 1_000_000_000_006_000_000_000_012_000_000_000_008)
        by (nonlinear_arith);
    assert(cube(1_000_000_000_002) <= pow10(37));
    lemma_ceil_log10_le(cube(m) as nat, 37);
    assert(cube(m) >= 8) by (nonlinear_arith)
        requires
            m >= 2,
    ;
    assert(ceil_log10(cube(m) as nat) >= 1);
}

/// Compute the send budget `max_sends = ceil(3 * log10(n + 2))` for a
/// membership of `n` peers.
pub fn max_sends(n: u64) -> (r: u64)
    requires
        n <= MAX_MEMBERS,
    ensures
        r == max_sends_spec(n as nat),
        1 <= r <= 37,
{
    proof {
        lemma_max_sends_bounds(n as nat);
    }
    let m: u128 = (n as u128) + 2;
    proof {
        assert((m as int) * (m as int) <= 1_000_000_000_002 * 1_000_000_000_002
            && (m as int) * (m as int) * (m as int)
            <= 1_000_000_000_006_000_000_000_012_000_000_000_008) by (nonlinear_arith)
            requires
                2 <= m <= 1_000_000_000_002,
        ;
    }
    let c: u128 = m * m * m;
    let mut x: u128 = c;
    let mut k: u64 = 0;
    while x > 1
        invariant
            1 <= x <= c,
            c == cube(m as int),
            c <= 1_000_000_000_006_000_000_000_012_000_000_000_008,
            n <= MAX_MEMBERS,
            m == n + 2,
            k + ceil_log10(x as nat) == ceil_log10(c as nat),
            ceil_log10(c as nat) <= 37,
        decreases x,
    {
        assert(ceil_log10(x as nat) == 1 + ceil_log10(((x + 9) / 10) as nat));
        x = (x + 9) / 10;
        k = k + 1;
    }
    assert(ceil_log10(x as nat) == 0);
    k
}

/// A rumor wrapped with its dissemination state.
#[derive(Clone, Copy, Debug, PartialEq, Eq, Structural)]
pub struct Broadcast {
    /// The rumor itself.
    pub msg: Rumor,
    /// Insertion ordinal, used as the FIFO tiebreak.
    pub id: u64,
    /// How many outgoing messages have carried this entry so far.
    pub sends: u64,
}

/// The total priority order on broadcast entries: fewer `sends` first, then
/// smaller insertion `id`.
pub open spec fn bc_le(a: Broadcast, b: Broadcast) -> bool {
    a.sends < b.sends || (a.sends == b.sends && a.id <= b.id)
}

/// The store: a bag of broadcast entries ordered by `bc_le`, plus the next
/// insertion ordinal.
pub struct BroadcastStore {
    entries: Vec<Broadcast>,
    next_id: u64,
}

impl BroadcastStore {
    /// The bag of entries currently held.
    pub closed spec fn contents(&self) -> Multiset<Broadcast> {
        self.entries@.to_multiset()
    }

    /// The ordinal the next pushed rumor will receive.
    pub closed spec fn next_id(&self) -> u64 {
        self.next_id
    }

    pub fn new() -> (s: Self)
        ensures
            s.contents() == Multiset::<Broadcast>::empty(),
            s.next_id() == 0,
    {
        proof {
            broadcast use vstd::seq_lib::group_to_multiset_ensures;

            assert(Seq::<Broadcast>::empty().to_multiset() =~= Multiset::<Broadcast>::empty());
        }
        BroadcastStore { entries: Vec::new(), next_id: 0 }
    }

    /// Enqueue a fresh rumor with `sends = 0` and the next ordinal.
    pub fn push(&mut self, rumor: Rumor)
        ensures
            final(self).contents() == old(self).contents().insert(
                Broadcast { msg: rumor, id: old(self).next_id(), sends: 0 },
            ),
            final(self).next_id() == wrap_inc_spec(old(self).next_id()),
    {
        proof {
            broadcast use vstd::seq_lib::group_to_multiset_ensures;

        }
        let b = Broadcast { msg: rumor, id: self.next_id, sends: 0 };
        self.entries.push(b);
        self.next_id = wrap_inc(self.next_id);
        proof {
            assert(self.entries@ == old(self).entries@.push(b));
            assert(self.entries@.to_multiset() =~= old(self).entries@.to_multiset().insert(b));
        }
    }

    /// Re-enqueue a previously popped entry after a successful piggyback,
    /// charging one more send against its budget.
    pub fn replay_broadcast(&mut self, b: Broadcast)
        requires
            b.sends < u64::MAX,
        ensures
            final(self).contents() == old(self).contents().insert(
                Broadcast { msg: b.msg, id: b.id, sends: (b.sends + 1) as u64 },
            ),
            final(self).next_id() == old(self).next_id(),
    {
        proof {
            broadcast use vstd::seq_lib::group_to_multiset_ensures;

        }
        let bumped = Broadcast { msg: b.msg, id: b.id, sends: b.sends + 1 };
        self.entries.push(bumped);
        proof {
            assert(self.entries@.to_multiset() =~= old(self).entries@.to_multiset().insert(
                bumped,
            ));
        }
    }

    /// Remove and return the entry least disseminated so far, if any: a
    /// `bc_le`-least element of the bag.
    pub fn pop(&mut self) -> (r: Option<Broadcast>)
        ensures
            r is None ==> old(self).contents().len() == 0 && *final(self) == *old(self),
            r matches Some(b) ==> {
                &&& old(self).contents().contains(b)
                &&& final(self).contents() == old(self).contents().remove(b)
                &&& final(self).next_id() == old(self).next_id()
                &&& forall|e: Broadcast| old(self).contents().contains(e) ==> bc_le(b, e)
            },
    {
        proof {
            broadcast use vstd::seq_lib::group_to_multiset_ensures;

        }
        if self.entries.len() == 0 {
            proof {
                assert(self.entries@.to_multiset().len() == 0);
            }
            return None;
        }
        let mut best: usize = 0;
        let mut j: usize = 1;
        while j < self.entries.len()
            invariant
                0 < self.entries@.len(),
                best < j,
                j <= self.entries@.len(),
                forall|i: int|
                    0 <= i < j ==> bc_le(self.entries@[best as int], #[trigger] self.entries@[i]),
            decreases self.entries@.len() - j,
        {
            let e = self.entries[j];
            let cur = self.entries[best];
            if e.sends < cur.sends || (e.sends == cur.sends && e.id < cur.id) {
                best = j;
            }
            j = j + 1;
        }
        let b = self.entries.remove(best);
        proof {
            assert(old(self).entries@.contains(b));
            assert(old(self).entries@.to_multiset().contains(b));
            assert(self.entries@.to_multiset() =~= old(self).entries@.to_multiset().remove(b));
            assert forall|e: Broadcast| old(self).contents().contains(e) implies bc_le(b, e) by {
                assert(old(self).entries@.contains(e));
                let i = choose|i: int|
                    0 <= i < old(self).entries@.len() && old(self).entries@[i] == e;
                assert(bc_le(b, old(self).entries@[i]));
            }
        }
        Some(b)
    }
}

} // verus!
