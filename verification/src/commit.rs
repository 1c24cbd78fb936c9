//! The incremental Merkle commitment.
//!
//! A `Commitment` accepts leaf digests one at a time and keeps one pending
//! digest per tree level, exactly as a binary counter keeps one carry bit
//! per position: appending a leaf merges carries upward until it reaches an
//! empty level.  Finalizing folds the remaining pending digests from the
//! lowest occupied level upward into a single root digest.
//!
//! The model ties the pending slots to the ordered sequence of appended
//! leaf digests: slot `i` is occupied exactly when bit `i` of the leaf
//! count is set, and then holds the root of the complete subtree over the
//! corresponding segment of `pow2(i)` consecutive leaves.

use vstd::prelude::*;

use vstd::arithmetic::div_mod::lemma_basic_div;
use vstd::arithmetic::div_mod::lemma_breakdown;
use vstd::arithmetic::div_mod::lemma_div_denominator;
use vstd::arithmetic::div_mod::lemma_div_is_ordered;
use vstd::arithmetic::div_mod::lemma_div_multiples_vanish;
use vstd::arithmetic::div_mod::lemma_fundamental_div_mod;
use vstd::arithmetic::div_mod::lemma_fundamental_div_mod_converse_mod;
use vstd::arithmetic::div_mod::lemma_mod_decreases;
use vstd::arithmetic::div_mod::lemma_mod_division_less_than_divisor;
use vstd::arithmetic::div_mod::lemma_mod_multiples_vanish;
use vstd::arithmetic::div_mod::lemma_multiply_divide_lt;
use vstd::arithmetic::div_mod::lemma_small_div_converse;
use vstd::arithmetic::div_mod::lemma_small_mod;
use vstd::arithmetic::power2::lemma2_to64;
use vstd::arithmetic::power2::lemma2_to64_rest;
use vstd::arithmetic::power2::lemma_pow2_adds;
use vstd::arithmetic::power2::lemma_pow2_pos;
use vstd::arithmetic::power2::lemma_pow2_strictly_increases;
use vstd::arithmetic::power2::pow2;

use crate::digest::Digest;
use crate::hash::node_digest;
use crate::hash::node_hash;

verus! {

/// The two caller mistakes the commitment can report.
#[derive(Clone, Copy, PartialEq, Eq, Structural, Debug)]
pub enum CommitError {
    /// An append was attempted beyond the declared capacity.
    CapacityExceeded,
    /// A finalize was attempted before any leaf was appended.
    EmptyCommitment,
}

/// The root digest of a complete binary subtree over `leaves`, which is
/// meaningful when the length is a power of two: a single leaf is its own
/// root, and a longer block is the node hash of the roots of its two
/// halves, left half before right half.
pub open spec fn block_root(leaves: Seq<Seq<u8>>) -> Seq<u8>
    decreases leaves.len(),
{
    if leaves.len() == 0 {
        Seq::empty()
    } else if leaves.len() == 1 {
        leaves[0]
    } else {
        let half = leaves.len() as int / 2;
        node_digest(block_root(leaves.take(half)), block_root(leaves.skip(half)))
    }
}

/// The largest power of two that is at most `n`, for `n >= 1`.
pub open spec fn top_block(n: nat) -> nat
    decreases n,
{
    if n <= 1 {
        1
    } else {
        2 * top_block(n / 2)
    }
}

/// The root digest over an ordered, possibly unbalanced leaf sequence.
///
/// The sequence decomposes into complete blocks of strictly decreasing
/// power-of-two sizes, largest (and earliest) first.  The root folds these
/// block roots from the lowest level upward: the running digest starts at
/// the smallest (latest) block and is combined with each next larger block
/// `b` as `node_digest(running, root of b)`.
pub open spec fn commitment_root(leaves: Seq<Seq<u8>>) -> Seq<u8>
    recommends
        leaves.len() >= 1,
    decreases leaves.len(),
    via commitment_root_decreases
{
    let t = top_block(leaves.len()) as int;
    if leaves.len() <= t {
        block_root(leaves)
    } else {
        node_digest(commitment_root(leaves.skip(t)), block_root(leaves.take(t)))
    }
}

#[via_fn]
proof fn commitment_root_decreases(leaves: Seq<Seq<u8>>) {
    lemma_top_block_pos(leaves.len());
}

/// Whether pending slot `i` is occupied when `n` leaves have been appended:
/// exactly when bit `i` of `n` is set.
pub open spec fn slot_occupied(n: nat, i: nat) -> bool {
    n % pow2(i + 1) >= pow2(i)
}

/// The index of the first leaf of the segment covered by slot `i`.
pub open spec fn slot_lo(n: nat, i: nat) -> int {
    n - n % pow2(i + 1)
}

/// The index one past the last leaf of the segment covered by slot `i`.
pub open spec fn slot_hi(n: nat, i: nat) -> int {
    n - n % pow2(i)
}

/// The digests held by the occupied slots, from the lowest level upward.
pub open spec fn occupied_digests_of(slots: Seq<Option<Digest>>) -> Seq<Digest>
    decreases slots.len(),
{
    if slots.len() == 0 {
        Seq::empty()
    } else {
        let rest = occupied_digests_of(slots.drop_last());
        match slots.last() {
            Some(d) => rest.push(d),
            None => rest,
        }
    }
}

/// `top_block` is always at least one.
proof fn lemma_top_block_pos(n: nat)
    ensures
        top_block(n) >= 1,
    decreases n,
{
    if n > 1 {
        lemma_top_block_pos(n / 2);
    }
}

/// `pow2(i + 1)` is twice `pow2(i)`, and both are positive.
proof fn lemma_pow2_double(i: nat)
    ensures
        pow2(i + 1) == 2 * pow2(i),
        pow2(i) >= 1,
{
    lemma_pow2_pos(i);
    lemma_pow2_adds(i, 1);
    lemma2_to64();
}

/// On the range `pow2(i) <= m < pow2(i + 1)`, the top block has size
/// exactly `pow2(i)`.
proof fn lemma_top_block_of_range(i: nat, m: nat)
    requires
        pow2(i) <= m < pow2(i + 1),
    ensures
        top_block(m) == pow2(i),
    decreases i,
{
    lemma_pow2_double(i);
    if i == 0 {
        lemma2_to64();
        assert(m == 1);
    } else {
        lemma_pow2_double((i - 1) as nat);
        lemma_top_block_of_range((i - 1) as nat, m / 2);
        assert(pow2((i - 1) as nat) <= m / 2 < pow2(i)) by {
            lemma_div_is_ordered(pow2(i) as int, m as int, 2);
            lemma_div_multiples_vanish(pow2((i - 1) as nat) as int, 2);
            lemma_multiply_divide_lt(m as int, pow2(i) as int, 2);
        }
        assert(m >= 2);
    }
}

/// Splits the remainder of `n` modulo `pow2(i + 1)` around bit `i`: it is
/// the remainder modulo `pow2(i)`, plus `pow2(i)` exactly when slot `i` is
/// occupied.
proof fn lemma_slot_split(n: nat, i: nat)
    ensures
        n % pow2(i) < pow2(i),
        n % pow2(i + 1) < pow2(i + 1),
        slot_occupied(n, i) ==> n % pow2(i + 1) == pow2(i) + n % pow2(i),
        !slot_occupied(n, i) ==> n % pow2(i + 1) == n % pow2(i),
{
    lemma_pow2_double(i);
    lemma_breakdown(n as int, pow2(i) as int, 2);
    lemma_mod_division_less_than_divisor(n as int, pow2(i) as int);
    lemma_mod_division_less_than_divisor(n as int, pow2(i + 1) as int);
    let b = (n as int / pow2(i) as int) % 2;
    lemma_mod_division_less_than_divisor(n as int / pow2(i) as int, 2);
    assert(n as int % (pow2(i) as int * 2) == pow2(i) as int * b + n as int % pow2(i) as int);
    assert(pow2(i) as int * 2 == pow2(i + 1) as int);
    assert(0 <= b);
    assert(b < 2);
    if b == 0 {
        assert(pow2(i) as int * b == 0) by (nonlinear_arith)
            requires b == 0;
        assert(n % pow2(i + 1) == n % pow2(i));
    } else {
        assert(b == 1);
        assert(pow2(i) as int * b == pow2(i) as int) by (nonlinear_arith)
            requires b == 1;
        assert(n % pow2(i + 1) == pow2(i) + n % pow2(i));
    }
}

/// A remainder modulo a larger power of two leaves remainders modulo a
/// smaller power of two unchanged.
proof fn lemma_mod_pow2_mod(n: nat, i: nat, k: nat)
    requires
        i <= k,
    ensures
        (n % pow2(k)) % pow2(i) == n % pow2(i),
{
    lemma_pow2_pos(i);
    lemma_pow2_pos(k);
    lemma_pow2_adds(i, (k - i) as nat);
    let q = n as int / pow2(k) as int;
    let r = n as int % pow2(k) as int;
    lemma_fundamental_div_mod(n as int, pow2(k) as int);
    assert(n as int == pow2(i) as int * (pow2((k - i) as nat) as int * q) + r) by {
        assert(pow2(k) as int * q == pow2(i) as int * (pow2((k - i) as nat) as int * q))
            by (nonlinear_arith)
            requires pow2(k) == pow2(i) * pow2((k - i) as nat);
    }
    lemma_mod_multiples_vanish(pow2((k - i) as nat) as int * q, r, pow2(i) as int);
}

/// Incrementing `n` either increments the remainder or wraps it to zero.
proof fn lemma_mod_increment(n: nat, m: nat)
    requires
        m > 0,
    ensures
        n % m < m - 1 ==> (n + 1) % m == n % m + 1,
        n % m == m - 1 ==> (n + 1) % m == 0,
{
    let q = n as int / m as int;
    let r = n as int % m as int;
    lemma_fundamental_div_mod(n as int, m as int);
    lemma_mod_division_less_than_divisor(n as int, m as int);
    if r < m - 1 {
        assert(n as int + 1 == q * m as int + (r + 1)) by (nonlinear_arith)
            requires
                n as int == m as int * q + r,
            ;
        lemma_fundamental_div_mod_converse_mod(n as int + 1, m as int, q, r + 1);
    } else {
        assert(n + 1 == (q + 1) * m as int + 0) by (nonlinear_arith)
            requires n as int == q * m as int + r, r == m - 1;
        lemma_fundamental_div_mod_converse_mod(n as int + 1, m as int, q + 1, 0);
    }
}

/// The remainder of `pow2(k) - 1` modulo a smaller power of two
/// `pow2(i)` is `pow2(i) - 1`: a block of ones keeps its low ones.
proof fn lemma_all_ones_mod(i: nat, k: nat)
    requires
        i <= k,
    ensures
        (pow2(k) - 1) % pow2(i) as int == pow2(i) - 1,
{
    lemma_pow2_pos(i);
    lemma_pow2_pos((k - i) as nat);
    lemma_pow2_adds(i, (k - i) as nat);
    let c = pow2((k - i) as nat) as int;
    assert(pow2(k) - 1 == (c - 1) * pow2(i) as int + (pow2(i) - 1)) by (nonlinear_arith)
        requires pow2(k) == pow2(i) * pow2((k - i) as nat), c == pow2((k - i) as nat) as int;
    lemma_fundamental_div_mod_converse_mod(
        pow2(k) - 1,
        pow2(i) as int,
        c - 1,
        pow2(i) as int - 1,
    );
}

/// While the low `i` bits of `n` are all ones and bit `i` is also set, the
/// low `i + 1` bits are all ones.
proof fn lemma_trailing_step(n: nat, i: nat)
    requires
        n % pow2(i) == pow2(i) - 1,
        slot_occupied(n, i),
    ensures
        n % pow2(i + 1) == pow2(i + 1) - 1,
{
    lemma_slot_split(n, i);
    lemma_pow2_double(i);
}

/// Appending into empty slot `i` when the low `i` bits of `n` are all ones:
/// slot `i` becomes occupied and covers the last `pow2(i)` leaves.
proof fn lemma_append_this_slot(n: nat, i: nat)
    requires
        n % pow2(i) == pow2(i) - 1,
        !slot_occupied(n, i),
    ensures
        slot_occupied(n + 1, i),
        (n + 1) % pow2(i + 1) == pow2(i),
        (n + 1) % pow2(i) == 0,
    decreases 0nat,
{
    lemma_slot_split(n, i);
    lemma_pow2_double(i);
    lemma_mod_increment(n, pow2(i));
    lemma_mod_increment(n, pow2(i + 1));
    lemma_slot_split(n + 1, i);
}

/// After the carry settles in slot `i`, every lower slot is empty.
proof fn lemma_append_lower_slot(n: nat, i: nat, k: nat)
    requires
        k < i,
        n % pow2(i) == pow2(i) - 1,
    ensures
        !slot_occupied(n + 1, k),
        (n + 1) % pow2(k + 1) == 0,
{
    lemma_pow2_pos(i);
    lemma_pow2_pos(k + 1);
    lemma_pow2_pos((i - k - 1) as nat);
    let q = n as int / pow2(i) as int;
    lemma_fundamental_div_mod(n as int, pow2(i) as int);
    lemma_pow2_adds(k + 1, (i - k - 1) as nat);
    assert(n + 1 == (pow2((i - k - 1) as nat) as int * (q + 1)) * pow2(k + 1) as int + 0)
        by (nonlinear_arith)
        requires
            n as int == q * pow2(i) as int + (pow2(i) - 1),
            pow2(i) == pow2(k + 1) * pow2((i - k - 1) as nat);
    lemma_fundamental_div_mod_converse_mod(
        n as int + 1,
        pow2(k + 1) as int,
        pow2((i - k - 1) as nat) as int * (q + 1),
        0,
    );
    lemma_slot_split(n + 1, k);
    lemma_mod_pow2_mod(n + 1, k, k + 1);
    lemma_pow2_double(k);
}

/// Appending does not touch slots above the one the carry settles in:
/// their occupancy and their leaf segments are unchanged.
proof fn lemma_append_upper_slot(n: nat, i: nat, k: nat)
    requires
        k > i,
        n % pow2(i) == pow2(i) - 1,
        !slot_occupied(n, i),
    ensures
        slot_occupied(n + 1, k) <==> slot_occupied(n, k),
        slot_lo(n + 1, k) == slot_lo(n, k),
        slot_hi(n + 1, k) == slot_hi(n, k),
{
    lemma_slot_split(n, i);
    assert(n % pow2(i + 1) == pow2(i) - 1);
    // The low i + 1 bits of n are not all ones, so no remainder modulo a
    // larger power of two is all ones either, and incrementing cannot wrap.
    assert forall|m: nat| i + 1 <= m implies n % pow2(m) < pow2(m) - 1 by {
        lemma_mod_pow2_mod(n, i + 1, m);
        lemma_all_ones_mod(i + 1, m);
        lemma_slot_split(n, (m - 1) as nat);
        lemma_pow2_double((m - 1) as nat);
        lemma_pow2_double(i);
        if n % pow2(m) == pow2(m) - 1 {
            assert((n % pow2(m)) % pow2(i + 1) == pow2(i + 1) - 1);
            assert(n % pow2(i + 1) == pow2(i + 1) - 1);
        }
    }
    lemma_pow2_pos(k);
    lemma_pow2_pos(k + 1);
    lemma_mod_increment(n, pow2(k));
    lemma_mod_increment(n, pow2(k + 1));
    lemma_slot_split(n, k);
    lemma_slot_split(n + 1, k);
    lemma_pow2_double(k);
    if !slot_occupied(n, k) && slot_occupied(n + 1, k) {
        // Slot k could only flip on if the low k bits of n were all ones.
        assert(n % pow2(k + 1) + 1 >= pow2(k));
        assert(n % pow2(k + 1) == n % pow2(k));
        assert(n % pow2(k) == pow2(k) - 1);
    }
    assert((n + 1) % pow2(k + 1) == n % pow2(k + 1) + 1);
    assert((n + 1) % pow2(k) == n % pow2(k) + 1);
}

/// The segment covered by a slot lies inside the appended leaves, and an
/// occupied slot covers exactly `pow2(i)` of them.
proof fn lemma_slot_in_range(n: nat, i: nat)
    ensures
        0 <= slot_lo(n, i) <= slot_hi(n, i) <= n,
        slot_occupied(n, i) ==> slot_hi(n, i) - slot_lo(n, i) == pow2(i),
        !slot_occupied(n, i) ==> slot_hi(n, i) == slot_lo(n, i),
{
    lemma_pow2_pos(i);
    lemma_pow2_pos(i + 1);
    lemma_slot_split(n, i);
    lemma_mod_decreases(n, pow2(i + 1));
    lemma_mod_decreases(n, pow2(i));
}

/// A block of a power-of-two length splits into its two halves.
proof fn lemma_block_root_split(s: Seq<Seq<u8>>, i: nat)
    requires
        s.len() == pow2(i + 1),
    ensures
        block_root(s) == node_digest(
            block_root(s.take(pow2(i) as int)),
            block_root(s.skip(pow2(i) as int)),
        ),
{
    lemma_pow2_double(i);
    assert(s.len() as int / 2 == pow2(i)) by {
        lemma_div_multiples_vanish(pow2(i) as int, 2);
    }
    assert(s.len() >= 2);
}

/// A sequence whose length is exactly a power of two has its block root as
/// its commitment root.
proof fn lemma_commitment_root_block(s: Seq<Seq<u8>>, i: nat)
    requires
        s.len() == pow2(i),
    ensures
        commitment_root(s) == block_root(s),
{
    lemma_pow2_double(i);
    lemma_top_block_of_range(i, s.len());
}

/// Unfolds the commitment root one block: when the length lies strictly
/// between `pow2(i)` and `pow2(i + 1)`, the root combines the root of the
/// remaining suffix with the top block of `pow2(i)` leaves.
proof fn lemma_commitment_root_step(s: Seq<Seq<u8>>, i: nat)
    requires
        pow2(i) < s.len() < pow2(i + 1),
    ensures
        commitment_root(s) == node_digest(
            commitment_root(s.skip(pow2(i) as int)),
            block_root(s.take(pow2(i) as int)),
        ),
{
    lemma_top_block_of_range(i, s.len());
}

/// The incremental commitment: a bounded array of pending subtree digests,
/// one per level, a leaf counter and a declared capacity.
pub struct Commitment {
    pending: Vec<Option<Digest>>,
    leaf_count: u64,
    capacity: u64,
    leaves: Ghost<Seq<Seq<u8>>>,
}

impl Commitment {
    /// The ordered sequence of appended leaf digests, the model this
    /// structure commits to.
    pub closed spec fn leaves(self) -> Seq<Seq<u8>> {
        self.leaves@
    }

    /// How many leaves have been appended.
    pub closed spec fn count(self) -> nat {
        self.leaf_count as nat
    }

    /// The declared maximum number of leaves.
    pub closed spec fn cap(self) -> nat {
        self.capacity as nat
    }

    /// The number of tree levels the pending array can hold.
    pub closed spec fn levels(self) -> nat {
        self.pending@.len() as nat
    }

    /// The pending slots, lowest level first.
    pub closed spec fn slots(self) -> Seq<Option<Digest>> {
        self.pending@
    }

    /// Well-formedness: the counter respects the capacity, the pending
    /// array has room for every bit of any admissible count, slot `i` is
    /// occupied exactly when bit `i` of the count is set, and an occupied
    /// slot holds the block root of its segment of appended leaves.
    pub closed spec fn wf(self) -> bool {
        &&& self.count() <= self.cap()
        &&& 1 <= self.levels() <= 64
        &&& self.cap() < pow2(self.levels())
        &&& self.leaves@.len() == self.count()
        &&& forall|i: int|
            0 <= i < self.levels() ==> ((#[trigger] self.pending@[i]) is Some <==> slot_occupied(
                self.count(),
                i as nat,
            ))
        &&& forall|i: int|
            0 <= i < self.levels() && self.pending@[i] is Some
                ==> ((#[trigger] self.pending@[i])->Some_0)@ == block_root(
                self.leaves@.subrange(
                    slot_lo(self.count(), i as nat),
                    slot_hi(self.count(), i as nat),
                ),
            )
    }

    /// Creates an empty commitment that will accept at most `capacity`
    /// leaves.  The pending array gets one slot per bit of any admissible
    /// leaf count.
    pub fn new(capacity: u64) -> (c: Commitment)
        ensures
            c.wf(),
            c.cap() == capacity,
            c.count() == 0,
            c.leaves() == Seq::<Seq<u8>>::empty(),
    {
        let mut levels: usize = 0;
        let mut rem: u64 = capacity;
        proof {
            lemma2_to64();
        }
        while rem > 0
            invariant
                levels <= 64,
                rem == capacity as nat / pow2(levels as nat),
            decreases rem,
        {
            proof {
                lemma_pow2_pos(levels as nat);
                lemma_pow2_double(levels as nat);
                assert(pow2(levels as nat) <= capacity) by {
                    if capacity < pow2(levels as nat) {
                        lemma_basic_div(capacity as int, pow2(levels as nat) as int);
                    }
                }
                assert(levels < 64) by {
                    if levels >= 64 {
                        lemma2_to64_rest();
                    }
                }
                lemma_div_denominator(capacity as int, pow2(levels as nat) as int, 2);
            }
            rem = rem / 2;
            levels = levels + 1;
        }
        proof {
            lemma_pow2_pos(levels as nat);
            lemma_small_div_converse(capacity as int, pow2(levels as nat) as int);
        }
        if levels == 0 {
            levels = 1;
            proof {
                lemma2_to64();
            }
        }
        let mut pending: Vec<Option<Digest>> = Vec::new();
        while pending.len() < levels
            invariant
                pending@.len() <= levels,
                forall|i: int| 0 <= i < pending@.len() ==> (#[trigger] pending@[i]) is None,
            decreases levels - pending@.len(),
        {
            pending.push(None);
        }
        let c = Commitment { pending, leaf_count: 0, capacity, leaves: Ghost(Seq::empty()) };
        proof {
            assert forall|i: int| 0 <= i < c.levels() implies ((#[trigger] c.slots()[i]) is Some
                <==> slot_occupied(0, i as nat)) by {
                lemma_pow2_pos(i as nat);
                lemma_pow2_pos(i as nat + 1);
                lemma_small_mod(0, pow2(i as nat + 1));
            }
        }
        c
    }

    /// How many leaves have been appended so far.
    pub fn leaf_count(&self) -> (n: u64)
        ensures
            n as nat == self.count(),
    {
        self.leaf_count
    }

    /// The declared maximum number of leaves.
    pub fn capacity(&self) -> (n: u64)
        ensures
            n as nat == self.cap(),
    {
        self.capacity
    }

    /// The digests currently held by occupied pending slots, lowest tree
    /// level first.
    pub fn occupied_slots(&self) -> (v: Vec<Digest>)
        ensures
            v@ == occupied_digests_of(self.slots()),
    {
        let mut v: Vec<Digest> = Vec::new();
        let mut i: usize = 0;
        while i < self.pending.len()
            invariant
                i <= self.pending@.len(),
                v@ == occupied_digests_of(self.pending@.take(i as int)),
            decreases self.pending@.len() - i,
        {
            proof {
                assert(self.pending@.take(i + 1).drop_last() =~= self.pending@.take(i as int));
                assert(self.pending@.take(i + 1).last() == self.pending@[i as int]);
            }
            match self.pending[i] {
                Some(d) => {
                    v.push(d);
                },
                None => {},
            }
            i = i + 1;
        }
        proof {
            assert(self.pending@.take(self.pending@.len() as int) =~= self.pending@);
        }
        v
    }

    /// Appends one leaf digest.
    ///
    /// Fails with `CapacityExceeded`, leaving the commitment unchanged,
    /// exactly when the declared capacity has already been reached;
    /// otherwise the leaf enters as a carry at level zero, merges upward
    /// through occupied slots (each merge hashing the previously pending
    /// digest on the left and the arriving carry on the right) and settles
    /// in the first empty slot.
    pub fn append(&mut self, leaf: &Digest) -> (r: Result<(), CommitError>)
        requires
            old(self).wf(),
        ensures
            final(self).wf(),
            final(self).cap() == old(self).cap(),
            r is Ok <==> old(self).count() < old(self).cap(),
            r is Ok ==> final(self).count() == old(self).count() + 1,
            r is Ok ==> final(self).leaves() == old(self).leaves().push(leaf@),
            r is Err ==> *final(self) == *old(self) && r->Err_0 == CommitError::CapacityExceeded,
    {
        if self.leaf_count >= self.capacity {
            return Err(CommitError::CapacityExceeded);
        }
        let ghost n = self.leaf_count as nat;
        let ghost new_leaves = self.leaves@.push(leaf@);
        let mut carry: Digest = *leaf;
        let mut i: usize = 0;
        proof {
            lemma2_to64();
            assert(new_leaves.subrange(n as int, n as int + 1) =~= seq![leaf@]);
        }
        while self.pending[i].is_some()
            invariant
                old(self).wf(),
                n == old(self).count(),
                n + 1 <= old(self).cap(),
                new_leaves == old(self).leaves().push(leaf@),
                self.capacity == old(self).capacity,
                self.leaf_count == old(self).leaf_count,
                self.leaves == old(self).leaves,
                self.pending@.len() == old(self).pending@.len(),
                i < self.pending@.len(),
                n % pow2(i as nat) == pow2(i as nat) - 1,
                carry@ == block_root(new_leaves.subrange(n as int + 1 - pow2(i as nat), n as int + 1)),
                forall|k: int| 0 <= k < i ==> (#[trigger] self.pending@[k]) is None,
                forall|k: int|
                    i <= k < self.pending@.len() ==> #[trigger] self.pending@[k] == old(
                        self,
                    ).pending@[k],
            decreases self.pending@.len() - i,
        {
            let existing = self.pending[i].unwrap();
            proof {
                let gi = i as nat;
                assert(slot_occupied(n, gi));
                lemma_trailing_step(n, gi);
                lemma_slot_split(n, gi);
                lemma_slot_in_range(n, gi);
                lemma_pow2_double(gi);
                // The slot's segment is the left half, the carry the right
                // half, of the block of the last pow2(gi + 1) new leaves.
                let lo = slot_lo(n, gi);
                let hi = slot_hi(n, gi);
                assert(lo == n + 1 - pow2(gi + 1));
                assert(hi == n + 1 - pow2(gi));
                let merged = new_leaves.subrange(n as int + 1 - pow2(gi + 1), n as int + 1);
                lemma_block_root_split(merged, gi);
                assert(merged.take(pow2(gi) as int) =~= old(self).leaves().subrange(lo, hi));
                assert(merged.skip(pow2(gi) as int) =~= new_leaves.subrange(
                    n as int + 1 - pow2(gi),
                    n as int + 1,
                ));
                // The loop can never run past the top slot: that would mean
                // every admissible count's bits were already set.
                lemma_trailing_step(n, gi);
                assert(i + 1 < self.pending@.len()) by {
                    if i + 1 == self.pending@.len() {
                        lemma_mod_decreases(n, pow2(gi + 1));
                        lemma_pow2_pos(gi + 1);
                        assert(n >= pow2(gi + 1) - 1);
                        assert(old(self).cap() < pow2(gi + 1));
                    }
                }
            }
            carry = node_hash(&existing, &carry);
            self.pending.set(i, None);
            i = i + 1;
        }
        proof {
            let gi = i as nat;
            assert(!slot_occupied(n, gi));
            lemma_append_this_slot(n, gi);
        }
        self.pending.set(i, Some(carry));
        self.leaf_count = self.leaf_count + 1;
        self.leaves = Ghost(new_leaves);
        proof {
            let gi = i as nat;
            let n1 = n + 1;
            assert forall|k: int| 0 <= k < self.levels() implies ((#[trigger] self.pending@[k])
                is Some <==> slot_occupied(n1, k as nat)) by {
                if k < i {
                    lemma_append_lower_slot(n, gi, k as nat);
                    lemma_pow2_pos(k as nat);
                    lemma_slot_split(n1, k as nat);
                } else if k > i {
                    lemma_append_upper_slot(n, gi, k as nat);
                }
            }
            assert forall|k: int|
                0 <= k < self.levels() && self.pending@[k] is Some implies ((
            #[trigger] self.pending@[k])->Some_0)@ == block_root(
                new_leaves.subrange(slot_lo(n1, k as nat), slot_hi(n1, k as nat)),
            ) by {
                let gk = k as nat;
                if k == i {
                    lemma_append_this_slot(n, gi);
                    assert(slot_lo(n1, gi) == n1 - pow2(gi));
                    assert(slot_hi(n1, gi) == n1);
                } else {
                    assert(k > i);
                    lemma_append_upper_slot(n, gi, gk);
                    assert(slot_lo(n1, gk) == slot_lo(n, gk));
                    assert(slot_hi(n1, gk) == slot_hi(n, gk));
                    lemma_slot_in_range(n, gk);
                    assert(new_leaves.subrange(slot_lo(n, gk), slot_hi(n, gk)) =~= old(
                        self,
                    ).leaves().subrange(slot_lo(n, gk), slot_hi(n, gk)));
                }
            }
        }
        Ok(())
    }

    /// Produces the root digest over every appended leaf, in order.
    ///
    /// Fails with `EmptyCommitment` exactly when no leaf has been appended:
    /// there is no meaningful root for an empty set, and no sentinel digest
    /// is ever substituted for one.  The commitment itself is not changed,
    /// so finalizing again without an intervening append returns the same
    /// root.
    pub fn finalize(&self) -> (r: Result<Digest, CommitError>)
        requires
            self.wf(),
        ensures
            r is Ok <==> self.count() >= 1,
            r is Ok ==> (r->Ok_0)@ == commitment_root(self.leaves()),
            r is Err ==> r->Err_0 == CommitError::EmptyCommitment,
    {
        if self.leaf_count == 0 {
            return Err(CommitError::EmptyCommitment);
        }
        let ghost n = self.leaf_count as nat;
        let mut acc: Option<Digest> = None;
        let mut i: usize = 0;
        proof {
            lemma2_to64();
            lemma_small_mod(0, pow2(0));
        }
        while i < self.pending.len()
            invariant
                self.wf(),
                n == self.count(),
                1 <= n,
                i <= self.pending@.len(),
                n % pow2(i as nat) == 0 ==> acc is None,
                n % pow2(i as nat) > 0 ==> acc is Some && (acc->Some_0)@ == commitment_root(
                    self.leaves().skip(n - n % pow2(i as nat)),
                ),
            decreases self.pending@.len() - i,
        {
            let ghost gi = i as nat;
            let ghost m = n % pow2(gi);
            proof {
                lemma_slot_split(n, gi);
                lemma_slot_in_range(n, gi);
            }
            match self.pending[i] {
                Some(d) => {
                    proof {
                        assert(slot_occupied(n, gi));
                        assert(n % pow2(gi + 1) == pow2(gi) + m);
                        assert(d@ == block_root(
                            self.leaves().subrange(slot_lo(n, gi), slot_hi(n, gi)),
                        ));
                    }
                    match acc {
                        None => {
                            proof {
                                let suffix = self.leaves().skip(n - pow2(gi));
                                assert(m == 0);
                                assert(suffix =~= self.leaves().subrange(
                                    slot_lo(n, gi),
                                    slot_hi(n, gi),
                                ));
                                lemma_commitment_root_block(suffix, gi);
                            }
                            acc = Some(d);
                        },
                        Some(a) => {
                            proof {
                                let m1 = n % pow2(gi + 1);
                                let suffix = self.leaves().skip(n - m1);
                                lemma_pow2_double(gi);
                                assert(pow2(gi) < suffix.len() < pow2(gi + 1));
                                lemma_commitment_root_step(suffix, gi);
                                assert(suffix.skip(pow2(gi) as int) =~= self.leaves().skip(
                                    n - m,
                                ));
                                assert(suffix.take(pow2(gi) as int) =~= self.leaves().subrange(
                                    slot_lo(n, gi),
                                    slot_hi(n, gi),
                                ));
                            }
                            acc = Some(node_hash(&a, &d));
                        },
                    }
                },
                None => {
                    proof {
                        assert(!slot_occupied(n, gi));
                        assert(n % pow2(gi + 1) == m);
                    }
                },
            }
            i = i + 1;
        }
        proof {
            lemma_small_mod(n, pow2(self.levels()));
            assert(self.leaves().skip(0) =~= self.leaves());
        }
        match acc {
            Some(d) => Ok(d),
            None => {
                proof {
                    assert(false);
                }
                Err(CommitError::EmptyCommitment)
            },
        }
    }
}

/// Builds a commitment over the given leaf digests, sized exactly to them,
/// and finalizes it: the returned root is the commitment root of the leaf
/// digest sequence, and an empty input is the one failure.
pub fn generate_merkle_tree(leaves: &Vec<Digest>) -> (r: Result<(Commitment, Digest), CommitError>)
    ensures
        r is Ok <==> leaves@.len() >= 1,
        r is Ok ==> ((r->Ok_0).1)@ == commitment_root(
            leaves@.map_values(|d: Digest| d@),
        ),
        r is Ok ==> (r->Ok_0).0.wf() && (r->Ok_0).0.leaves() == leaves@.map_values(
            |d: Digest| d@,
        ) && (r->Ok_0).0.count() == leaves@.len(),
        r is Err ==> r->Err_0 == CommitError::EmptyCommitment,
{
    if leaves.len() == 0 {
        return Err(CommitError::EmptyCommitment);
    }
    let ghost all = leaves@.map_values(|d: Digest| d@);
    let mut c = Commitment::new(leaves.len() as u64);
    let mut i: usize = 0;
    while i < leaves.len()
        invariant
            c.wf(),
            i <= leaves@.len(),
            c.cap() == leaves@.len(),
            c.count() == i,
            all == leaves@.map_values(|d: Digest| d@),
            c.leaves() == all.take(i as int),
        decreases leaves@.len() - i,
    {
        let res = c.append(&leaves[i]);
        proof {
            assert(res is Ok);
            assert(all.take(i as int).push(leaves@[i as int]@) =~= all.take(i + 1));
        }
        i = i + 1;
    }
    proof {
        assert(all.take(all.len() as int) =~= all);
    }
    match c.finalize() {
        Ok(root) => Ok((c, root)),
        Err(e) => {
            proof {
                assert(false);
            }
            Err(e)
        },
    }
}

/// Determinism: the root digest is a function of the ordered leaf digest
/// sequence alone.  Two well-formed commitments holding the same leaves in
/// the same order finalize to the same root, whatever their capacities or
/// how their appends were interleaved with failed ones.
pub proof fn lemma_root_deterministic(a: Commitment, b: Commitment)
    requires
        a.wf(),
        b.wf(),
        a.leaves() == b.leaves(),
        a.leaves().len() >= 1,
    ensures
        commitment_root(a.leaves()) == commitment_root(b.leaves()),
{
}

/// Single-leaf identity: a commitment over exactly one leaf has that leaf's
/// digest as its root, with no extra hashing layer.
pub proof fn lemma_single_leaf(leaves: Seq<Seq<u8>>)
    requires
        leaves.len() == 1,
    ensures
        commitment_root(leaves) == leaves[0],
{
}

/// Power-of-two collapse: when the number of appended leaves is an exact
/// power of two, exactly one pending slot is occupied, and the digest it
/// holds is already the root of the whole commitment.
pub proof fn lemma_power_of_two_collapse(c: Commitment, k: nat)
    requires
        c.wf(),
        c.count() == pow2(k),
    ensures
        occupied_digests_of(c.slots()).len() == 1,
        occupied_digests_of(c.slots())[0]@ == commitment_root(c.leaves()),
{
    let n = c.count();
    lemma_pow2_pos(k);
    assert(k < c.levels()) by {
        if k >= c.levels() {
            lemma_pow2_le(c.levels(), k);
        }
    }
    assert forall|i: int| 0 <= i < c.levels() && i != k implies !((#[trigger] c.slots()[i])
        is Some) by {
        let gi = i as nat;
        lemma_pow2_pos(gi);
        lemma_pow2_pos(gi + 1);
        if i < k {
            lemma_pow2_adds(gi + 1, (k - i - 1) as nat);
            lemma_mod_multiples_vanish(pow2((k - i - 1) as nat) as int, 0, pow2(gi + 1) as int);
            assert(n as int == pow2(gi + 1) as int * pow2((k - i - 1) as nat) as int + 0)
                by (nonlinear_arith)
                requires n == pow2(k), pow2(k) == pow2(gi + 1) * pow2((k - i - 1) as nat);
        } else {
            lemma_pow2_strictly_increases(k, gi);
            lemma_pow2_double(gi);
            lemma_small_mod(n, pow2(gi + 1));
        }
    }
    assert(slot_occupied(n, k)) by {
        lemma_pow2_double(k);
        lemma_small_mod(n, pow2(k + 1));
    }
    lemma_occupied_single(c.slots(), k as int);
    assert(occupied_digests_of(c.slots())[0] == c.slots()[k as int]->Some_0);
    lemma_pow2_double(k);
    lemma_small_mod(n, pow2(k + 1));
    lemma_mod_multiples_vanish(1, 0, pow2(k) as int);
    assert(n % pow2(k) == 0) by {
        assert(n as int == pow2(k) as int * 1 + 0);
    }
    assert(c.leaves().subrange(slot_lo(n, k), slot_hi(n, k)) =~= c.leaves());
    lemma_commitment_root_block(c.leaves(), k);
}

/// `pow2` is monotone.
proof fn lemma_pow2_le(i: nat, k: nat)
    requires
        i <= k,
    ensures
        pow2(i) <= pow2(k),
{
    if i < k {
        lemma_pow2_strictly_increases(i, k);
    }
}

/// A slot sequence with exactly one occupied slot yields exactly that
/// digest.
proof fn lemma_occupied_single(slots: Seq<Option<Digest>>, k: int)
    requires
        0 <= k < slots.len(),
        slots[k] is Some,
        forall|i: int| 0 <= i < slots.len() && i != k ==> !((#[trigger] slots[i]) is Some),
    ensures
        occupied_digests_of(slots) == seq![slots[k]->Some_0],
    decreases slots.len(),
{
    if k == slots.len() - 1 {
        lemma_occupied_none(slots.drop_last());
        assert(occupied_digests_of(slots) =~= seq![slots[k]->Some_0]);
    } else {
        lemma_occupied_single(slots.drop_last(), k);
    }
}

/// A slot sequence with no occupied slot yields nothing.
proof fn lemma_occupied_none(slots: Seq<Option<Digest>>)
    requires
        forall|i: int| 0 <= i < slots.len() ==> !((#[trigger] slots[i]) is Some),
    ensures
        occupied_digests_of(slots) == Seq::<Digest>::empty(),
    decreases slots.len(),
{
    if slots.len() > 0 {
        lemma_occupied_none(slots.drop_last());
    }
}

} // verus!
