//! The mathematical model of a fixed-capacity slot pool, and the laws that
//! hold of it.
//!
//! A pool is a fixed number of slots. Each slot index is either *free*
//! (waiting on the free stack) or *on loan* (held by exactly one live
//! guard). Handing out a slot pops the free stack; giving it back pushes the
//! index again. Neither step touches what the slots hold, so a slot that is
//! handed out a second time still holds what its last borrower wrote.

use vstd::prelude::*;

verus! {

/// Why the pool turned a request down.
#[derive(Debug, Clone, Copy, PartialEq, Eq, Structural)]
pub enum PoolError {
    /// The guard does not stand for a slot that this pool has on loan.
    NotOnLoan,
    /// The slot is on loan but nothing has been written to it yet.
    Uninitialized,
}

/// The abstract state of a pool holding values of type `T`.
#[verifier::ext_equal]
pub struct PoolModel<T> {
    /// Number of slots, fixed when the pool is made.
    pub capacity: nat,
    /// Indices not on loan, as a stack: the last element is handed out next.
    pub free: Seq<nat>,
    /// Indices currently held by a live guard.
    pub loaned: Set<nat>,
    /// What each slot holds: `None` until a value has been written to it.
    pub slots: Seq<Option<T>>,
}

/// One call on a pool, as a value.
pub enum PoolOp<T> {
    /// Ask for a slot.
    Allocate,
    /// Give back the slot with this index.
    Release(nat),
    /// Store a value in the slot with this index.
    Write(nat, T),
    /// Take the value out of the slot with this index.
    Take(nat),
}

impl<T> PoolModel<T> {
    /// The state of a pool that has just been made with `capacity` slots:
    /// every index is free, none is on loan, no slot holds a value. The free
    /// stack runs from `capacity - 1` at the bottom to `0` at the top, so low
    /// indices are handed out first.
    pub open spec fn fresh(capacity: nat) -> Self {
        PoolModel {
            capacity,
            free: Seq::new(capacity, |k: int| (capacity - 1 - k) as nat),
            loaned: Set::empty(),
            slots: Seq::new(capacity, |k: int| None),
        }
    }

    /// The bookkeeping invariant: the free stack holds no index twice and
    /// none out of range, and an index is on loan exactly when it is in range
    /// and not free.
    pub open spec fn wf(self) -> bool {
        &&& self.slots.len() == self.capacity
        &&& self.free.no_duplicates()
        &&& forall|k: int| 0 <= k < self.free.len() ==> #[trigger] self.free[k] < self.capacity
        &&& forall|i: nat|
            #[trigger] self.loaned.contains(i) <==> (i < self.capacity && !self.free.contains(i))
    }

    /// How often index `i` occurs among the free indices and the live guards
    /// taken together.
    pub open spec fn occurrences(self, i: nat) -> nat {
        self.free.to_multiset().count(i) + if self.loaned.contains(i) {
            1nat
        } else {
            0nat
        }
    }

    /// The index that the next allocation hands out, if any slot is free.
    pub open spec fn next_index(self) -> Option<nat> {
        if self.free.len() == 0 {
            None
        } else {
            Some(self.free.last())
        }
    }

    /// The state after one allocation: the top of the free stack goes on
    /// loan. An exhausted pool stays as it is.
    pub open spec fn allocate(self) -> Self {
        if self.free.len() == 0 {
            self
        } else {
            PoolModel {
                free: self.free.drop_last(),
                loaned: self.loaned.insert(self.free.last()),
                ..self
            }
        }
    }

    /// The state after giving back index `i`: it goes on top of the free
    /// stack. An index that is not on loan is turned down and changes nothing.
    pub open spec fn release(self, i: nat) -> Self {
        if self.loaned.contains(i) {
            PoolModel { free: self.free.push(i), loaned: self.loaned.remove(i), ..self }
        } else {
            self
        }
    }

    /// The state after writing `value` through the guard for index `i`.
    /// Without such a guard nothing changes.
    pub open spec fn write(self, i: nat, value: T) -> Self {
        if self.loaned.contains(i) {
            PoolModel { slots: self.slots.update(i as int, Some(value)), ..self }
        } else {
            self
        }
    }

    /// The state after taking the value out of the slot through the guard for
    /// index `i`: the slot is unwritten again. Without such a guard nothing
    /// changes.
    pub open spec fn take(self, i: nat) -> Self {
        if self.loaned.contains(i) {
            PoolModel { slots: self.slots.update(i as int, None), ..self }
        } else {
            self
        }
    }

    /// What reading through the guard for index `i` gives.
    pub open spec fn read(self, i: nat) -> Result<T, PoolError> {
        if !self.loaned.contains(i) {
            Err(PoolError::NotOnLoan)
        } else {
            match self.slots[i as int] {
                Some(value) => Ok(value),
                None => Err(PoolError::Uninitialized),
            }
        }
    }

    /// The state after one call.
    pub open spec fn step(self, op: PoolOp<T>) -> Self {
        match op {
            PoolOp::Allocate => self.allocate(),
            PoolOp::Release(i) => self.release(i),
            PoolOp::Write(i, value) => self.write(i, value),
            PoolOp::Take(i) => self.take(i),
        }
    }

    /// The state after the calls `ops`, made in order.
    pub open spec fn run(self, ops: Seq<PoolOp<T>>) -> Self
        decreases ops.len(),
    {
        if ops.len() == 0 {
            self
        } else {
            self.run(ops.drop_last()).step(ops.last())
        }
    }

    /// The state after `count` allocations in a row.
    pub open spec fn allocate_many(self, count: nat) -> Self
        decreases count,
    {
        if count == 0 {
            self
        } else {
            self.allocate_many((count - 1) as nat).allocate()
        }
    }

    /// How many allocations in a row succeed from this state.
    pub open spec fn allocations_available(self) -> nat
        decreases self.free.len(),
    {
        if self.free.len() == 0 {
            0
        } else {
            1 + self.allocate().allocations_available()
        }
    }

    /// A fresh pool satisfies the bookkeeping invariant.
    pub proof fn lemma_fresh_wf(capacity: nat)
        ensures
            Self::fresh(capacity).wf(),
    {
        let m = Self::fresh(capacity);
        assert forall|i: nat| #[trigger]
            m.loaned.contains(i) <==> (i < m.capacity && !m.free.contains(i)) by {
            if i < capacity {
                assert(m.free[capacity - 1 - i] == i);
            }
        }
    }

    /// An allocation preserves the bookkeeping invariant. The index it hands
    /// out is in range and was held by no live guard.
    pub proof fn lemma_allocate_wf(self)
        requires
            self.wf(),
        ensures
            self.allocate().wf(),
            self.next_index() matches Some(i) ==> i < self.capacity && !self.loaned.contains(i)
                && self.allocate().loaned.contains(i),
    {
        if self.free.len() > 0 {
            let top = self.free.last();
            let after = self.allocate();
            assert(self.free.contains(top));
            assert forall|i: nat| #[trigger]
                after.loaned.contains(i) <==> (i < after.capacity && !after.free.contains(i)) by {
                if i == top {
                    if after.free.contains(i) {
                        let k = choose|k: int| 0 <= k < after.free.len() && after.free[k] == i;
                        assert(self.free[k] == self.free[self.free.len() - 1]);
                    }
                } else {
                    if self.free.contains(i) {
                        let k = choose|k: int| 0 <= k < self.free.len() && self.free[k] == i;
                        assert(after.free[k] == i);
                    }
                    if after.free.contains(i) {
                        let k = choose|k: int| 0 <= k < after.free.len() && after.free[k] == i;
                        assert(self.free[k] == i);
                    }
                }
            }
        }
    }

    /// Giving an index back preserves the bookkeeping invariant, whether the
    /// index was on loan or is turned down.
    pub proof fn lemma_release_wf(self, i: nat)
        requires
            self.wf(),
        ensures
            self.release(i).wf(),
    {
        if self.loaned.contains(i) {
            let after = self.release(i);
            assert(after.free[after.free.len() - 1] == i);
            assert forall|j: nat| #[trigger]
                after.loaned.contains(j) <==> (j < after.capacity && !after.free.contains(j)) by {
                if j != i {
                    if self.free.contains(j) {
                        let k = choose|k: int| 0 <= k < self.free.len() && self.free[k] == j;
                        assert(after.free[k] == j);
                    }
                    if after.free.contains(j) {
                        let k = choose|k: int| 0 <= k < after.free.len() && after.free[k] == j;
                        assert(self.free[k] == j);
                    }
                }
            }
            assert forall|a: int, b: int|
                0 <= a < after.free.len() && 0 <= b < after.free.len() && a != b implies after.free[a]
                != after.free[b] by {
                if a == self.free.len() {
                    assert(self.free[b] == after.free[b]);
                    assert(self.free.contains(self.free[b]));
                } else if b == self.free.len() {
                    assert(self.free[a] == after.free[a]);
                    assert(self.free.contains(self.free[a]));
                }
            }
        }
    }

    /// Every call preserves the bookkeeping invariant.
    pub proof fn lemma_step_wf(self, op: PoolOp<T>)
        requires
            self.wf(),
        ensures
            self.step(op).wf(),
    {
        match op {
            PoolOp::Allocate => self.lemma_allocate_wf(),
            PoolOp::Release(i) => self.lemma_release_wf(i),
            PoolOp::Write(i, value) => {},
            PoolOp::Take(i) => {},
        }
    }

    /// An index changes sides in two ways only: the index on top of the free
    /// stack goes on loan by an allocation, and an index on loan becomes free
    /// when it is given back. No call moves any other index, and none moves
    /// an index on loan to a second guard.
    pub proof fn lemma_step_moves(self, op: PoolOp<T>, i: nat)
        requires
            self.wf(),
        ensures
            !self.loaned.contains(i) && self.step(op).loaned.contains(i) ==> op is Allocate
                && self.next_index() == Some(i),
            self.loaned.contains(i) && !self.step(op).loaned.contains(i) ==> op == PoolOp::<
                T,
            >::Release(i) && self.step(op).next_index() == Some(i),
    {
        self.lemma_step_wf(op);
    }

    /// Under any sequence of calls, in any order, the bookkeeping invariant
    /// holds after every call.
    pub proof fn lemma_run_wf(self, ops: Seq<PoolOp<T>>)
        requires
            self.wf(),
        ensures
            self.run(ops).wf(),
        decreases ops.len(),
    {
        if ops.len() > 0 {
            self.lemma_run_wf(ops.drop_last());
            self.run(ops.drop_last()).lemma_step_wf(ops.last());
        }
    }

    /// In a state that satisfies the bookkeeping invariant, the free indices
    /// and the indices held by live guards together are exactly
    /// `0, ..., capacity - 1`, each once: an index in range occurs once among
    /// them, any other index not at all.
    pub proof fn lemma_indices_partition(self, i: nat)
        requires
            self.wf(),
        ensures
            self.occurrences(i) == if i < self.capacity {
                1nat
            } else {
                0nat
            },
    {
        broadcast use vstd::seq_lib::group_to_multiset_ensures;

        self.free.lemma_multiset_has_no_duplicates();
        if self.free.contains(i) {
            let k = choose|k: int| 0 <= k < self.free.len() && self.free[k] == i;
            assert(self.free[k] < self.capacity);
            assert(self.free.to_multiset().count(i) > 0);
            assert(self.free.to_multiset().contains(i));
        } else {
            assert(self.free.to_multiset().count(i) == 0);
        }
    }

    /// Starting from a fresh pool and making any calls in any order, the free
    /// indices and the indices held by live guards are exactly
    /// `0, ..., capacity - 1`, each once, after every call.
    pub proof fn lemma_run_partition(capacity: nat, ops: Seq<PoolOp<T>>, i: nat)
        ensures
            Self::fresh(capacity).run(ops).capacity == capacity,
            Self::fresh(capacity).run(ops).occurrences(i) == if i < capacity {
                1nat
            } else {
                0nat
            },
    {
        Self::lemma_fresh_wf(capacity);
        Self::fresh(capacity).lemma_run_wf(ops);
        Self::fresh(capacity).lemma_run_capacity(ops);
        Self::fresh(capacity).run(ops).lemma_indices_partition(i);
    }

    /// No call changes the capacity.
    pub proof fn lemma_run_capacity(self, ops: Seq<PoolOp<T>>)
        ensures
            self.run(ops).capacity == self.capacity,
        decreases ops.len(),
    {
        if ops.len() > 0 {
            self.lemma_run_capacity(ops.drop_last());
        }
    }

    /// What a fresh pool looks like after `count` allocations in a row, for
    /// `count` up to the capacity: the indices below `count` are on loan, in
    /// the order in which they were handed out, and the rest is still free.
    pub proof fn lemma_fresh_allocate_many(capacity: nat, count: nat)
        requires
            count <= capacity,
        ensures
            Self::fresh(capacity).allocate_many(count).capacity == capacity,
            Self::fresh(capacity).allocate_many(count).free == Seq::new(
                (capacity - count) as nat,
                |k: int| (capacity - 1 - k) as nat,
            ),
            Self::fresh(capacity).allocate_many(count).loaned == Set::new(|i: nat| i < count),
            Self::fresh(capacity).allocate_many(count).slots == Self::fresh(capacity).slots,
        decreases count,
    {
        let after = Self::fresh(capacity).allocate_many(count);
        let free = Seq::new((capacity - count) as nat, |k: int| (capacity - 1 - k) as nat);
        let loaned = Set::new(|i: nat| i < count);
        if count == 0 {
            assert(after.free =~= free);
            assert(after.loaned =~= loaned);
        } else {
            Self::lemma_fresh_allocate_many(capacity, (count - 1) as nat);
            let before = Self::fresh(capacity).allocate_many((count - 1) as nat);
            assert(before.free.len() == capacity - count + 1);
            assert(before.free.last() == count - 1);
            assert(after == before.allocate());
            assert(after.free =~= free);
            assert(after.loaned =~= loaned);
        }
    }

    /// On a fresh pool exactly `capacity` allocations in a row succeed. The
    /// allocation that follows `count` earlier ones hands out index `count`,
    /// which no live guard holds, so no two guards ever share an index. Once
    /// `capacity` guards are live, every further allocation finds nothing.
    pub proof fn lemma_fresh_serves_exactly_capacity(capacity: nat, count: nat)
        ensures
            count < capacity ==> Self::fresh(capacity).allocate_many(count).next_index() == Some(
                count,
            ) && !Self::fresh(capacity).allocate_many(count).loaned.contains(count),
            count >= capacity ==> Self::fresh(capacity).allocate_many(count).next_index() is None,
        decreases count,
    {
        if count <= capacity {
            Self::lemma_fresh_allocate_many(capacity, count);
        } else {
            Self::lemma_fresh_serves_exactly_capacity(capacity, (count - 1) as nat);
        }
    }

    /// The number of allocations in a row that succeed is the length of the
    /// free stack.
    pub proof fn lemma_allocations_available(self)
        ensures
            self.allocations_available() == self.free.len(),
        decreases self.free.len(),
    {
        if self.free.len() > 0 {
            self.allocate().lemma_allocations_available();
        }
    }

    /// Giving back the index of one live guard makes exactly one more
    /// allocation succeed. With every slot on loan before, exactly one
    /// allocation succeeds afterwards: the first, which hands the same index
    /// out again, and not the second.
    pub proof fn lemma_release_frees_one_slot(self, i: nat)
        requires
            self.loaned.contains(i),
        ensures
            self.release(i).allocations_available() == self.allocations_available() + 1,
            self.free.len() == 0 ==> self.release(i).next_index() == Some(i) && self.release(
                i,
            ).allocate().next_index() is None,
    {
        self.lemma_allocations_available();
        self.release(i).lemma_allocations_available();
    }

    /// A value written through a guard is what a read through the same guard
    /// returns, as long as the guard is live.
    pub proof fn lemma_write_then_read(self, i: nat, value: T)
        requires
            self.wf(),
            self.loaned.contains(i),
        ensures
            self.write(i, value).read(i) == Ok::<T, PoolError>(value),
    {
    }

    /// A slot whose value was taken out reads as unwritten until it is
    /// written again.
    pub proof fn lemma_take_then_read(self, i: nat)
        requires
            self.wf(),
            self.loaned.contains(i),
        ensures
            self.take(i).read(i) == Err::<T, PoolError>(PoolError::Uninitialized),
    {
    }

    /// Reuse keeps the stored value. When an index is given back and the next
    /// allocation hands the same index out again, the pool is in the state it
    /// was in before: the new guard reads what the previous holder left in
    /// the slot, or finds the slot unwritten if the previous holder never
    /// wrote. The pool does not clear a slot when it is given back.
    pub proof fn lemma_reuse_keeps_value(self, i: nat)
        requires
            self.wf(),
            self.loaned.contains(i),
        ensures
            self.release(i).next_index() == Some(i),
            self.release(i).allocate() == self,
            self.release(i).allocate().read(i) == self.read(i),
    {
        let back = self.release(i).allocate();
        assert(back.free =~= self.free);
        assert(back.loaned =~= self.loaned);
        assert(back =~= self);
    }

    /// Capacity is conserved: the number of live guards plus the length of
    /// the free stack is the capacity.
    pub proof fn lemma_capacity_conserved(self)
        requires
            self.wf(),
        ensures
            self.loaned.finite(),
            self.loaned.len() + self.free.len() == self.capacity,
    {
        let all = Set::new(|i: nat| i < self.capacity);
        let free_set = self.free.to_set();
        lemma_range_set(self.capacity);
        self.free.unique_seq_to_set();
        assert(free_set.finite()) by {
            vstd::seq_lib::seq_to_set_is_finite(self.free);
        }
        assert(self.loaned =~= all.difference(free_set));
        assert(free_set.subset_of(all)) by {
            assert forall|i: nat| free_set.contains(i) implies all.contains(i) by {
                let k = choose|k: int| 0 <= k < self.free.len() && self.free[k] == i;
                assert(self.free[k] < self.capacity);
            }
        }
        vstd::set_lib::lemma_set_difference_len(all, free_set);
        assert(all.intersect(free_set) =~= free_set);
    }
}

/// The set of the naturals below `n` is finite and has `n` elements.
pub proof fn lemma_range_set(n: nat)
    ensures
        Set::new(|i: nat| i < n).finite(),
        Set::new(|i: nat| i < n).len() == n,
    decreases n,
{
    let s = Set::new(|i: nat| i < n);
    if n == 0 {
        assert(s =~= Set::empty());
    } else {
        let prev = Set::new(|i: nat| i < (n - 1) as nat);
        lemma_range_set((n - 1) as nat);
        assert(s =~= prev.insert((n - 1) as nat));
    }
}

} // verus!
