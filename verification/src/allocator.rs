use vstd::prelude::*;

use crate::reference::TalkDataHandle;

verus! {

/// The abstract state of an allocator: the value in each slot (`None` for a free slot), the
/// reference count of each slot, and the free slots in the order they will be reused (last first)
pub struct AllocatorState<TValue> {
    pub slots: Seq<Option<TValue>>,
    pub counts: Seq<nat>,
    pub free: Seq<usize>,
}

impl<TValue> AllocatorState<TValue> {
    /// True if `pos` is a slot of this allocator
    pub open spec fn contains(self, pos: int) -> bool {
        0 <= pos < self.slots.len()
    }

    /// True if the slot is on the free list
    pub open spec fn is_free(self, pos: int) -> bool {
        exists|k: int| 0 <= k < self.free.len() && self.free[k] == pos
    }

    /// A slot is in use exactly when its count is non-zero, and the free list holds each unused
    /// slot exactly once
    pub open spec fn wf(self) -> bool {
        &&& self.slots.len() == self.counts.len()
        &&& forall|i: int|
            #![trigger self.slots[i]]
            0 <= i < self.slots.len() ==> ((self.counts[i] == 0) <==> (self.slots[i] is None))
        &&& forall|i: int|
            #![trigger self.slots[i]]
            0 <= i < self.slots.len() ==> ((self.slots[i] is None) <==> self.is_free(i))
        &&& forall|k: int| 0 <= k < self.free.len() ==> #[trigger] self.free[k] < self.slots.len()
        &&& self.free.no_duplicates()
    }

    /// Storing a value: it goes in the most recently freed slot if there is one, otherwise in a
    /// new slot at the end, with a reference count of 1
    pub open spec fn store(self, value: TValue) -> (AllocatorState<TValue>, usize) {
        if self.free.len() > 0 {
            let pos = self.free.last();
            (
                AllocatorState {
                    slots: self.slots.update(pos as int, Some(value)),
                    counts: self.counts.update(pos as int, 1),
                    free: self.free.drop_last(),
                },
                pos,
            )
        } else {
            (
                AllocatorState {
                    slots: self.slots.push(Some(value)),
                    counts: self.counts.push(1),
                    free: self.free,
                },
                self.slots.len() as usize,
            )
        }
    }

    /// Retaining a handle: adds one to its reference count if it is in use
    pub open spec fn retain(self, pos: int) -> AllocatorState<TValue> {
        if self.counts[pos] > 0 {
            AllocatorState { counts: self.counts.update(pos, self.counts[pos] + 1), ..self }
        } else {
            self
        }
    }

    /// Releasing a handle: removes one from its reference count if it is in use, freeing the
    /// slot (and handing back its value) when the count reaches 0
    pub open spec fn release(self, pos: int) -> (AllocatorState<TValue>, Option<TValue>) {
        if self.counts[pos] == 0 {
            (self, None)
        } else if self.counts[pos] == 1 {
            (
                AllocatorState {
                    slots: self.slots.update(pos, None),
                    counts: self.counts.update(pos, 0),
                    free: self.free.push(pos as usize),
                },
                self.slots[pos],
            )
        } else {
            (AllocatorState { counts: self.counts.update(pos, (self.counts[pos] - 1) as nat), ..self }, None)
        }
    }
}

///
/// Typical implementation of the allocator for a class: stores values, hands out handles to them
/// and keeps a reference count for each handle
///
pub struct TalkStandardAllocator<TValue> {
    /// The data store
    data: Vec<Option<TValue>>,
    /// Reference counts for each allocated item in the data store (data is dropped when the count
    /// reaches 0)
    reference_counts: Vec<usize>,
    /// Items in the data array that have been freed and are available for reallocation
    free_slots: Vec<usize>,
}

impl<TValue> View for TalkStandardAllocator<TValue> {
    type V = AllocatorState<TValue>;

    closed spec fn view(&self) -> AllocatorState<TValue> {
        AllocatorState {
            slots: self.data@,
            counts: Seq::new(self.reference_counts@.len(), |i: int| self.reference_counts@[i] as nat),
            free: self.free_slots@,
        }
    }
}

impl<TValue> TalkStandardAllocator<TValue> {
    /// The allocator's vectors agree with each other
    pub closed spec fn sizes_agree(&self) -> bool {
        self.data@.len() == self.reference_counts@.len()
    }

    /// Creates an allocator with no values in it
    pub fn empty() -> (result: TalkStandardAllocator<TValue>)
        ensures
            result@.wf(),
            result@.slots.len() == 0,
            result@.free.len() == 0,
    {
        let result = TalkStandardAllocator {
            data: Vec::new(),
            reference_counts: Vec::new(),
            free_slots: Vec::new(),
        };
        assert(result@.counts =~= Seq::<nat>::empty());
        result
    }

    /// Stores a value in this allocator and returns a handle to it
    pub fn store(&mut self, value: TValue) -> (result: TalkDataHandle)
        requires
            old(self)@.wf(),
        ensures
            final(self)@.wf(),
            (final(self)@, result.0) == old(self)@.store(value),
    {
        let ghost old_view = self@;
        proof {
            self.lemma_sizes();
        }
        if let Some(pos) = self.free_slots.pop() {
            proof {
                assert(old_view.free[old_view.free.len() - 1] == pos);
                assert(old_view.is_free(pos as int));
                assert(old_view.slots[pos as int] is None);
            }
            self.data.set(pos, Some(value));
            self.reference_counts.set(pos, 1);
            assert(self@.counts =~= old_view.counts.update(pos as int, 1));
            assert(self@.free =~= old_view.free.drop_last());
            assert forall|i: int| 0 <= i < self@.slots.len() implies ((#[trigger] self@.slots[i]
                is None) <==> self@.is_free(i)) by {
                if i == pos as int {
                    if self@.is_free(i) {
                        let k = choose|k: int| 0 <= k < self@.free.len() && self@.free[k] == i;
                        assert(old_view.free[k] == old_view.free[old_view.free.len() - 1]);
                    }
                } else {
                    if old_view.is_free(i) {
                        let k = choose|k: int| 0 <= k < old_view.free.len() && old_view.free[k] == i;
                        assert(k != old_view.free.len() - 1);
                        assert(self@.free[k] == i);
                    }
                    if self@.is_free(i) {
                        let k = choose|k: int| 0 <= k < self@.free.len() && self@.free[k] == i;
                        assert(old_view.free[k] == i);
                    }
                }
            }
            TalkDataHandle(pos)
        } else {
            let pos = self.data.len();
            self.data.push(Some(value));
            self.reference_counts.push(1);
            assert(self@.counts =~= old_view.counts.push(1));
            assert(self@.slots =~= old_view.slots.push(Some(value)));
            TalkDataHandle(pos)
        }
    }

    /// The sizes of the abstract state match the vectors
    proof fn lemma_sizes(&self)
        requires
            self@.wf(),
        ensures
            self.sizes_agree(),
            self@.slots.len() == self.data@.len(),
            self@.counts.len() == self.reference_counts@.len(),
    {
    }

    /// Retrieves the data attached to a handle (which must not have been released)
    pub fn retrieve(&mut self, handle: TalkDataHandle) -> (result: &mut TValue)
        requires
            old(self)@.wf(),
            old(self)@.contains(handle.0 as int),
            old(self)@.slots[handle.0 as int] is Some,
        ensures
            Some(*result) == old(self)@.slots[handle.0 as int],
            final(self)@ == (AllocatorState {
                slots: old(self)@.slots.update(handle.0 as int, Some(*final(result))),
                ..old(self)@
            }),
            final(self)@.wf(),
    {
        let TalkDataHandle(pos) = handle;
        self.data[pos].as_mut().unwrap()
    }

    /// Adds to the reference count for a data handle (a released handle stays released)
    pub fn retain(&mut self, handle: TalkDataHandle)
        requires
            old(self)@.wf(),
            old(self)@.contains(handle.0 as int),
            old(self)@.counts[handle.0 as int] < usize::MAX,
        ensures
            final(self)@.wf(),
            final(self)@ == old(self)@.retain(handle.0 as int),
    {
        let TalkDataHandle(pos) = handle;
        let ghost old_view = self@;
        if self.reference_counts[pos] > 0 {
            let count = self.reference_counts[pos];
            self.reference_counts.set(pos, count + 1);
            assert(self@.counts =~= old_view.counts.update(pos as int, old_view.counts[pos as int] + 1));
            assert(self@.slots == old_view.slots);
            assert(self@.free == old_view.free);
            assert forall|i: int| 0 <= i < self@.slots.len() implies ((self@.counts[i] == 0) <==> (
            #[trigger] self@.slots[i] is None)) by {
                assert(old_view.slots[i] == self@.slots[i]);
            }
        }
    }

    /// Removes from the reference count for a data handle, freeing it if the count reaches 0;
    /// returns the value that was freed, which the caller is now responsible for releasing
    pub fn release(&mut self, handle: TalkDataHandle) -> (result: Option<TValue>)
        requires
            old(self)@.wf(),
            old(self)@.contains(handle.0 as int),
        ensures
            final(self)@.wf(),
            (final(self)@, result) == old(self)@.release(handle.0 as int),
    {
        let TalkDataHandle(pos) = handle;
        let ghost old_view = self@;
        if self.reference_counts[pos] > 0 {
            let count = self.reference_counts[pos] - 1;
            self.reference_counts.set(pos, count);
            if count == 0 {
                self.free_slots.push(pos);
                let freed = self.data[pos].take();
                proof {
                    assert(self@.counts =~= old_view.counts.update(pos as int, 0));
                    assert(self@.slots =~= old_view.slots.update(pos as int, None));
                    assert(!old_view.is_free(pos as int));
                    assert(!old_view.free.contains(pos));
                    assert forall|k: int| 0 <= k < self@.free.len() implies #[trigger] self@.free[k] < self@.slots.len() by {
                        if k < old_view.free.len() {
                            assert(self@.free[k] == old_view.free[k]);
                        }
                    }
                    assert forall|i: int| 0 <= i < self@.slots.len() implies ((#[trigger] self@.slots[i]
                        is None) <==> self@.is_free(i)) by {
                        if old_view.is_free(i) {
                            let k = choose|k: int| 0 <= k < old_view.free.len() && old_view.free[k] == i;
                            assert(self@.free[k] == i);
                        }
                        if i == pos as int {
                            assert(self@.free[old_view.free.len() as int] == pos);
                        } else if self@.is_free(i) {
                            let k = choose|k: int| 0 <= k < self@.free.len() && self@.free[k] == i;
                            assert(k < old_view.free.len());
                            assert(old_view.free[k] == i);
                        }
                    }
                }
                freed
            } else {
                assert(self@.counts =~= old_view.counts.update(pos as int, (old_view.counts[pos as int] - 1) as nat));
                None
            }
        } else {
            None
        }
    }
}


/// Retaining a live handle and then releasing it leaves the allocator as it was
pub proof fn law_release_undoes_retain<TValue>(state: AllocatorState<TValue>, pos: int)
    requires
        state.wf(),
        state.contains(pos),
        state.counts[pos] > 0,
    ensures
        state.retain(pos).release(pos) == (state, None::<TValue>),
{
    let retained = state.retain(pos);
    assert(retained.counts[pos] == state.counts[pos] + 1);
    assert(retained.release(pos).0.counts =~= state.counts);
}

/// A stored value can be read back through its handle until the handle is released; releasing
/// a freshly stored handle hands the value back, and the next store reuses that handle
pub proof fn law_store_release_reuse<TValue>(state: AllocatorState<TValue>, value: TValue, next: TValue)
    requires
        state.wf(),
        state.slots.len() < usize::MAX,
    ensures
        state.store(value).0.contains(state.store(value).1 as int),
        state.store(value).0.slots[state.store(value).1 as int] == Some(value),
        state.store(value).0.counts[state.store(value).1 as int] == 1,
        state.store(value).0.release(state.store(value).1 as int).1 == Some(value),
        state.store(value).0.release(state.store(value).1 as int).0.store(next).1 == state.store(
            value,
        ).1,
{
    assert(state.counts.len() == state.slots.len());
    if state.free.len() > 0 {
        assert(state.free[state.free.len() - 1] < state.slots.len());
    }
}

/// Handles in use are never handed out again: storing a value never picks a slot that holds a
/// value
pub proof fn law_store_uses_free_slot<TValue>(state: AllocatorState<TValue>, value: TValue)
    requires
        state.wf(),
        state.slots.len() <= usize::MAX,
    ensures
        state.contains(state.store(value).1 as int) ==> state.slots[state.store(value).1 as int]
            is None,
{
    if state.free.len() > 0 {
        let pos = state.free.last();
        assert(state.free[state.free.len() - 1] == pos);
        assert(state.is_free(pos as int));
    }
}

} // verus!
