//! A fixed-capacity pool of reusable slots with checked handles.
//!
//! The pool owns `capacity` slots and a stack of the indices that are free.
//! [`MemoryPool::allocate`] pops an index and wraps it in a [`PoolGuard`];
//! [`MemoryPool::release`] takes the guard back and pushes its index. Values
//! are read and written through the guard. After construction no call
//! allocates: only indices move.
//!
//! Two policies are fixed here. A slot is not cleared when it is given back:
//! the next guard for the same index reads what the previous holder left,
//! unless that holder took its value out with [`MemoryPool::take`]. And
//! misuse is reported, never silent: reading a slot that holds no value, or
//! presenting a guard that does not stand for a slot on loan, returns a
//! [`PoolError`] and leaves the pool as it was.
//!
//! The pool is changed only through `&mut self`, so it serves one owner at a
//! time.

use crate::pool_model::{PoolError, PoolModel};
use vstd::prelude::*;

verus! {

/// A handle for one slot that a pool has on loan. It cannot be copied, and
/// only [`MemoryPool::allocate`] makes one. Hand it back with
/// [`MemoryPool::release`]: a guard that is dropped instead keeps its slot on
/// loan for good, which loses capacity but nothing else.
///
/// A guard belongs to the pool that made it. A pool knows a guard by its
/// index alone: it turns down a guard whose index it does not have on loan,
/// but it cannot tell the guard of another pool from its own where the index
/// is on loan in both.
#[must_use]
#[derive(Debug)]
pub struct PoolGuard {
    index: usize,
}

impl View for PoolGuard {
    type V = nat;

    closed spec fn view(&self) -> nat {
        self.index as nat
    }
}

impl PoolGuard {
    /// The index of the slot that this guard stands for.
    pub fn index(&self) -> (i: usize)
        ensures
            i == self@,
    {
        self.index
    }
}

/// The storage and bookkeeping of a pool.
struct PoolCore<T> {
    /// One entry per slot: `None` until a value has been written.
    slots: Vec<Option<T>>,
    /// The free indices, top of the stack last.
    free_list: Vec<usize>,
    /// One flag per slot: whether a live guard holds it.
    on_loan: Vec<bool>,
    capacity: usize,
}

impl<T> PoolCore<T> {
    spec fn model(self) -> PoolModel<T> {
        PoolModel {
            capacity: self.capacity as nat,
            free: Seq::new(self.free_list@.len(), |k: int| self.free_list@[k] as nat),
            loaned: Set::new(|i: nat| i < self.on_loan@.len() && self.on_loan@[i as int]),
            slots: self.slots@,
        }
    }

    spec fn wf(self) -> bool {
        &&& self.model().wf()
        &&& self.on_loan@.len() == self.capacity
    }

    /// A pool without slots, which stands in while the real one is worked on.
    fn empty() -> (core: Self)
        ensures
            core.wf(),
            core.capacity == 0,
    {
        let core = PoolCore {
            slots: Vec::new(),
            free_list: Vec::new(),
            on_loan: Vec::new(),
            capacity: 0,
        };
        proof {
            assert(core.model().free =~= PoolModel::<T>::fresh(0).free);
            assert(core.model().loaned =~= PoolModel::<T>::fresh(0).loaned);
            assert(core.model().slots =~= PoolModel::<T>::fresh(0).slots);
            PoolModel::<T>::lemma_fresh_wf(0);
        }
        core
    }

    /// Whether `index` is the index of a slot on loan.
    fn holds(&self, index: usize) -> (held: bool)
        requires
            self.wf(),
        ensures
            held == self.model().loaned.contains(index as nat),
    {
        index < self.capacity && self.on_loan[index]
    }

    /// Puts `index` back on the free stack.
    fn deallocate(&mut self, index: usize)
        requires
            old(self).wf(),
            old(self).model().loaned.contains(index as nat),
        ensures
            final(self).wf(),
            final(self).model() == old(self).model().release(index as nat),
    {
        self.on_loan[index] = false;
        self.free_list.push(index);
        proof {
            let before = old(self).model();
            let after = self.model();
            before.lemma_release_wf(index as nat);
            assert(after.free =~= before.release(index as nat).free);
            assert(after.loaned =~= before.release(index as nat).loaned);
            assert(after =~= before.release(index as nat));
        }
    }
}

/// A pool of `capacity` slots for values of type `T`.
pub struct MemoryPool<T> {
    core: PoolCore<T>,
}

impl<T> View for MemoryPool<T> {
    type V = PoolModel<T>;

    closed spec fn view(&self) -> PoolModel<T> {
        self.core.model()
    }
}

impl<T> MemoryPool<T> {
    #[verifier::type_invariant]
    spec fn inv(self) -> bool {
        self.core.wf()
    }

    /// Makes a pool with `capacity` slots, all free and none written. Storage
    /// for the slots and the free stack is reserved here, where the allocator
    /// grants it, so that later calls need none. Low indices are handed out
    /// first.
    pub fn new(capacity: usize) -> (pool: Self)
        ensures
            pool@ == PoolModel::<T>::fresh(capacity as nat),
            pool@.wf(),
    {
        let mut slots: Vec<Option<T>> = Vec::new();
        let mut free_list: Vec<usize> = Vec::new();
        let mut on_loan: Vec<bool> = Vec::new();
        let _ = slots.try_reserve(capacity);
        let _ = free_list.try_reserve(capacity);
        let _ = on_loan.try_reserve(capacity);
        let mut i: usize = 0;
        while i < capacity
            invariant
                i <= capacity,
                slots@.len() == i,
                free_list@.len() == i,
                on_loan@.len() == i,
                forall|k: int| 0 <= k < i ==> slots@[k] is None,
                forall|k: int| 0 <= k < i ==> free_list@[k] == capacity - 1 - k,
                forall|k: int| 0 <= k < i ==> !on_loan@[k],
            decreases capacity - i,
        {
            slots.push(None);
            on_loan.push(false);
            free_list.push(capacity - i - 1);
            i += 1;
        }
        let core = PoolCore { slots, free_list, on_loan, capacity };
        proof {
            let fresh = PoolModel::<T>::fresh(capacity as nat);
            assert(core.model().free =~= fresh.free);
            assert(core.model().loaned =~= fresh.loaned);
            assert(core.model().slots =~= fresh.slots);
            assert(core.model() =~= fresh);
            PoolModel::<T>::lemma_fresh_wf(capacity as nat);
        }
        MemoryPool { core }
    }

    /// The number of slots.
    pub fn capacity(&self) -> (n: usize)
        ensures
            n == self@.capacity,
            self@.wf(),
    {
        proof {
            use_type_invariant(self);
        }
        self.core.capacity
    }

    /// The number of free slots, which is the number of allocations in a row
    /// that succeed from here.
    pub fn available(&self) -> (n: usize)
        ensures
            n == self@.free.len(),
            n == self@.allocations_available(),
            self@.wf(),
    {
        proof {
            use_type_invariant(self);
            self@.lemma_allocations_available();
        }
        self.core.free_list.len()
    }

    /// The number of slots on loan, which is the number of live guards.
    pub fn in_use(&self) -> (n: usize)
        ensures
            self@.loaned.finite(),
            n == self@.loaned.len(),
            n + self@.free.len() == self@.capacity,
            self@.wf(),
    {
        proof {
            use_type_invariant(self);
            self@.lemma_capacity_conserved();
        }
        self.core.capacity - self.core.free_list.len()
    }

    /// Hands out the slot on top of the free stack, if there is one. The
    /// guard's index is in range and was held by no live guard, so no two
    /// live guards ever stand for the same slot. With no free slot it returns
    /// `None` and changes nothing. What the slot holds is not touched: a slot
    /// handed out for the first time is unwritten, one handed out again holds
    /// what was last written to it.
    pub fn allocate(&mut self) -> (guard: Option<PoolGuard>)
        ensures
            final(self)@ == old(self)@.allocate(),
            final(self)@.wf(),
            match guard {
                Some(g) => old(self)@.next_index() == Some(g@) && g@ < old(self)@.capacity
                    && !old(self)@.loaned.contains(g@) && final(self)@.loaned.contains(g@),
                None => old(self)@.next_index() is None,
            },
    {
        proof {
            use_type_invariant(&*self);
        }
        let mut core = PoolCore::empty();
        core::mem::swap(&mut core, &mut self.core);
        let ghost before = core.model();
        proof {
            before.lemma_allocate_wf();
        }
        let guard = match core.free_list.pop() {
            Some(index) => {
                core.on_loan[index] = true;
                proof {
                    assert(before.free[before.free.len() - 1] == index);
                    assert(core.model().free =~= before.allocate().free);
                    assert(core.model().loaned =~= before.allocate().loaned);
                    assert(core.model() =~= before.allocate());
                }
                Some(PoolGuard { index })
            },
            None => {
                proof {
                    assert(core.model().free =~= before.free);
                    assert(core.model() =~= before);
                }
                None
            },
        };
        self.core = core;
        guard
    }

    /// Takes a guard back and puts its slot on top of the free stack, so that
    /// the next allocation hands out the same index. The slot keeps its value.
    /// A guard that does not stand for a slot on loan here is turned down
    /// with [`PoolError::NotOnLoan`], and the pool stays as it was.
    pub fn release(&mut self, guard: PoolGuard) -> (done: Result<(), PoolError>)
        ensures
            final(self)@ == old(self)@.release(guard@),
            final(self)@.wf(),
            done is Ok <==> old(self)@.loaned.contains(guard@),
            done is Err ==> done == Err::<(), PoolError>(PoolError::NotOnLoan),
    {
        proof {
            use_type_invariant(&*self);
        }
        let mut core = PoolCore::empty();
        core::mem::swap(&mut core, &mut self.core);
        let done = if core.holds(guard.index) {
            core.deallocate(guard.index);
            Ok(())
        } else {
            Err(PoolError::NotOnLoan)
        };
        self.core = core;
        done
    }

    /// Stores `value` in the slot that `guard` stands for, in place of what
    /// the slot held. A guard that does not stand for a slot on loan here is
    /// turned down with [`PoolError::NotOnLoan`], and the pool stays as it
    /// was.
    pub fn write(&mut self, guard: &PoolGuard, value: T) -> (done: Result<(), PoolError>)
        ensures
            final(self)@ == old(self)@.write(guard@, value),
            final(self)@.wf(),
            done is Ok <==> old(self)@.loaned.contains(guard@),
            done is Err ==> done == Err::<(), PoolError>(PoolError::NotOnLoan),
    {
        proof {
            use_type_invariant(&*self);
        }
        let mut core = PoolCore::empty();
        core::mem::swap(&mut core, &mut self.core);
        let ghost before = core.model();
        let done = if core.holds(guard.index) {
            core.slots[guard.index] = Some(value);
            proof {
                assert(core.model().loaned =~= before.loaned);
                assert(core.model().free =~= before.free);
                assert(core.model() =~= before.write(guard@, value));
            }
            Ok(())
        } else {
            Err(PoolError::NotOnLoan)
        };
        self.core = core;
        done
    }

    /// Takes the value out of the slot that `guard` stands for and leaves the
    /// slot unwritten, as it was when the pool was made. The pool itself never
    /// clears a slot, so this is how a holder wipes its slot before giving it
    /// back. A slot that holds no value gives [`PoolError::Uninitialized`]; a
    /// guard that does not stand for a slot on loan here gives
    /// [`PoolError::NotOnLoan`]. Either way the pool stays as it was.
    pub fn take(&mut self, guard: &PoolGuard) -> (value: Result<T, PoolError>)
        ensures
            final(self)@ == old(self)@.take(guard@),
            final(self)@.wf(),
            match value {
                Ok(v) => old(self)@.read(guard@) == Ok::<T, PoolError>(v),
                Err(e) => old(self)@.read(guard@) == Err::<T, PoolError>(e),
            },
    {
        proof {
            use_type_invariant(&*self);
        }
        let mut core = PoolCore::empty();
        core::mem::swap(&mut core, &mut self.core);
        let ghost before = core.model();
        let value = if core.holds(guard.index) {
            let mut slot: Option<T> = None;
            core::mem::swap(&mut slot, &mut core.slots[guard.index]);
            proof {
                assert(core.model().loaned =~= before.loaned);
                assert(core.model().free =~= before.free);
                assert(core.model() =~= before.take(guard@));
            }
            match slot {
                Some(v) => Ok(v),
                None => Err(PoolError::Uninitialized),
            }
        } else {
            Err(PoolError::NotOnLoan)
        };
        self.core = core;
        value
    }

    /// The value in the slot that `guard` stands for. A slot that holds no
    /// value, because it was never written or its value was taken out, gives
    /// [`PoolError::Uninitialized`]; a guard that does not stand for a slot on
    /// loan here gives [`PoolError::NotOnLoan`].
    pub fn read(&self, guard: &PoolGuard) -> (value: Result<&T, PoolError>)
        ensures
            match value {
                Ok(v) => self@.read(guard@) == Ok::<T, PoolError>(*v),
                Err(e) => self@.read(guard@) == Err::<T, PoolError>(e),
            },
    {
        proof {
            use_type_invariant(self);
        }
        if self.core.holds(guard.index) {
            match &self.core.slots[guard.index] {
                Some(v) => Ok(v),
                None => Err(PoolError::Uninitialized),
            }
        } else {
            Err(PoolError::NotOnLoan)
        }
    }
}

} // verus!
