//! The pool's admission state machine: a fixed set of connection slots and
//! the bounded leasing discipline over them.
//!
//! The pool never creates slots beyond its configured size and never grants
//! a slot that is already out. A lease names exactly one slot; releasing
//! consumes the lease, so release happens at most once per lease. The
//! waiting itself — suspending a caller until a slot frees up — is the
//! runtime's affair; this state machine decides admission.

use vstd::prelude::*;

verus! {

/// How many of the flags are set.
pub open spec fn count_true(s: Seq<bool>) -> int
    decreases s.len(),
{
    if s.len() == 0 {
        0
    } else {
        count_true(s.drop_last()) + if s.last() {
            1int
        } else {
            0int
        }
    }
}

/// The count is bounded by the number of flags.
pub proof fn lemma_count_true_bounds(s: Seq<bool>)
    ensures
        0 <= count_true(s) <= s.len(),
    decreases s.len(),
{
    if s.len() > 0 {
        lemma_count_true_bounds(s.drop_last());
    }
}

/// Flipping one flag moves the count by exactly that flag's change.
proof fn lemma_count_true_update(s: Seq<bool>, i: int, b: bool)
    requires
        0 <= i < s.len(),
    ensures
        count_true(s.update(i, b)) == count_true(s) - (if s[i] {
            1int
        } else {
            0int
        }) + (if b {
            1int
        } else {
            0int
        }),
    decreases s.len(),
{
    if i == s.len() - 1 {
        assert(s.update(i, b).drop_last() =~= s.drop_last());
    } else {
        assert(s.update(i, b).drop_last() =~= s.drop_last().update(i, b));
        lemma_count_true_update(s.drop_last(), i, b);
    }
}

/// When every flag is set the count is the length.
proof fn lemma_count_true_full(s: Seq<bool>)
    requires
        forall|i: int| 0 <= i < s.len() ==> s[i],
    ensures
        count_true(s) == s.len(),
    decreases s.len(),
{
    if s.len() > 0 {
        lemma_count_true_full(s.drop_last());
    }
}

/// A lease: the exclusive grant of one connection slot to one caller.
/// It cannot be copied, and releasing it gives it up, so each lease is
/// released exactly once.
pub struct Lease {
    slot: usize,
}

impl Lease {
    /// The index of the slot this lease grants.
    pub closed spec fn slot_spec(&self) -> int {
        self.slot as int
    }

    /// The index of the slot this lease grants.
    pub fn slot(&self) -> (r: usize)
        ensures
            r as int == self.slot_spec(),
    {
        self.slot
    }
}

/// The admission state of a pool: one flag per connection slot, set while
/// the slot is out on lease.
pub struct Pool {
    leased: Vec<bool>,
}

/// One admission transition: `slot` was free and becomes leased; no other
/// slot changes, and the outstanding count grows by one.
pub open spec fn acquire_step(pre: Pool, post: Pool, slot: int) -> bool {
    &&& 0 <= slot < pre.size()
    &&& !pre.is_leased(slot)
    &&& post.is_leased(slot)
    &&& post.size() == pre.size()
    &&& (forall|j: int|
        0 <= j < pre.size() && j != slot ==> (post.is_leased(j) <==> pre.is_leased(j)))
    &&& post.leased_count() == pre.leased_count() + 1
}

impl Pool {
    /// The configured number of connection slots.
    pub closed spec fn size(&self) -> int {
        self.leased@.len() as int
    }

    /// Whether slot `i` is currently out on lease.
    pub closed spec fn is_leased(&self, i: int) -> bool {
        0 <= i < self.size() && self.leased@[i]
    }

    /// How many leases are outstanding.
    pub closed spec fn leased_count(&self) -> int {
        count_true(self.leased@)
    }

    /// A fresh pool of `size` slots, none of them leased.
    pub fn new(size: usize) -> (p: Pool)
        ensures
            p.size() == size,
            p.leased_count() == 0,
            forall|i: int| !p.is_leased(i),
    {
        let mut leased: Vec<bool> = Vec::new();
        let mut i: usize = 0;
        while i < size
            invariant
                i <= size,
                leased@.len() == i,
                forall|j: int| 0 <= j < i ==> !leased@[j],
                count_true(leased@) == 0,
            decreases size - i,
        {
            let ghost prev = leased@;
            leased.push(false);
            proof {
                assert(leased@.drop_last() =~= prev);
            }
            i = i + 1;
        }
        Pool { leased }
    }

    /// Grants a lease on some free slot, or nothing when every slot is out.
    /// A lease is granted exactly when fewer than `size` are outstanding.
    pub fn acquire(&mut self) -> (r: Option<Lease>)
        ensures
            match r {
                Some(l) => acquire_step(*old(self), *final(self), l.slot_spec()),
                None => *final(self) == *old(self) && old(self).leased_count() == old(self).size(),
            },
    {
        let n = self.leased.len();
        let mut i: usize = 0;
        while i < n
            invariant
                i <= n,
                n == self.leased@.len(),
                *self == *old(self),
                forall|j: int| 0 <= j < i ==> self.leased@[j],
            decreases n - i,
        {
            if !self.leased[i] {
                let ghost prev = self.leased@;
                self.leased.set(i, true);
                proof {
                    lemma_count_true_update(prev, i as int, true);
                }
                return Some(Lease { slot: i });
            }
            i = i + 1;
        }
        proof {
            lemma_count_true_full(self.leased@);
        }
        None
    }

    /// Whether slot `i` is currently out on lease.
    pub fn leased(&self, i: usize) -> (r: bool)
        ensures
            r == self.is_leased(i as int),
    {
        i < self.leased.len() && self.leased[i]
    }

    /// Takes a lease back: its slot becomes free again. Consuming the lease
    /// here is what makes release happen exactly once per lease.
    pub fn release(&mut self, lease: Lease)
        requires
            old(self).is_leased(lease.slot_spec()),
        ensures
            final(self).size() == old(self).size(),
            !final(self).is_leased(lease.slot_spec()),
            forall|j: int|
                0 <= j < old(self).size() && j != lease.slot_spec() ==> (final(self).is_leased(j)
                    <==> old(self).is_leased(j)),
            final(self).leased_count() == old(self).leased_count() - 1,
    {
        let ghost prev = self.leased@;
        let slot = lease.slot;
        self.leased.set(slot, false);
        proof {
            lemma_count_true_update(prev, slot as int, false);
        }
    }
}

/// Admission bound: however the pool has been driven, at most `size` leases
/// are outstanding at any instant.
pub proof fn lemma_admission_bound(p: Pool)
    ensures
        p.leased_count() <= p.size(),
{
    lemma_count_true_bounds(p.leased@);
}

/// Slot exclusivity: a slot already out on lease is never the slot of a
/// newly granted lease, so two concurrently outstanding leases name
/// different connections.
pub proof fn lemma_slot_exclusivity(pre: Pool, post: Pool, held: int, granted: int)
    requires
        pre.is_leased(held),
        acquire_step(pre, post, granted),
    ensures
        held != granted,
{
}

} // verus!
