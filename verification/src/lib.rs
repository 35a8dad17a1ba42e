//! A generational-index arena ("slot map"): values are stored densely for
//! fast iteration, while callers hold stable handles that are checked for
//! liveness before every access. Removing an element compacts storage in
//! O(1) by moving the last value into the vacated position; a per-slot
//! generation counter detects handles whose target has since been removed.
//!
//! A doubly-linked-list layer built on the arena lives in
//! [`linked_list_slot_map`]; it stores one [`Node`] per element and keeps the
//! previous/next relation consistent across splicing, unlinking and draining.

use vstd::prelude::*;

mod linked_list_slot_map;

pub use linked_list_slot_map::LinkedListSlotMap;
pub use linked_list_slot_map::LinkedListSlotMapHandle;
pub use linked_list_slot_map::LinkedListSlotMapIterator;
pub use linked_list_slot_map::RevLinkedListSlotMapIterator;
pub use linked_list_slot_map::RevRemoveLinkedListSlotMapIterator;
pub use linked_list_slot_map::chain_hits_slot;
pub use linked_list_slot_map::Node;

verus! {

/// A stable identifier for a value stored in a [`SlotMap`].
///
/// A handle pairs an index into the map's indirection table with the
/// generation that the slot had when the handle was minted. The handle stays
/// meaningful as other elements are removed and storage is compacted; once
/// its own slot is vacated the handle is permanently rejected by the
/// generation check.
///
/// Equality and ordering compare only the indirection index: a stale handle
/// and a fresh handle for the same slot compare equal. This is intentional
/// ("same slot identity"), but it means handles from different generations
/// must not be deduplicated in a set or map keyed by handle equality.
pub struct SlotMapHandle<T> {
    indirection_index: usize,
    generation: usize,
    phantom: core::marker::PhantomData<T>,
}

impl<T> SlotMapHandle<T> {
    /// The indirection-table index half of the handle's identity.
    pub closed spec fn idx(&self) -> usize {
        self.indirection_index
    }

    /// The generation the slot had when this handle was minted.
    pub closed spec fn gen(&self) -> usize {
        self.generation
    }

    /// The handle with the given raw parts; every handle is determined by
    /// its parts (see [`Self::lemma_handle_parts`]).
    pub closed spec fn handle_for(index: usize, generation: usize) -> Self {
        SlotMapHandle { indirection_index: index, generation, phantom: core::marker::PhantomData }
    }

    /// A handle has no identity beyond its raw parts.
    pub proof fn lemma_handle_parts(h: Self)
        ensures
            h == Self::handle_for(h.idx(), h.gen()),
    {
    }

    /// The raw parts of a handle built from raw parts.
    pub broadcast proof fn lemma_handle_for_parts(index: usize, generation: usize)
        ensures
            (#[trigger] Self::handle_for(index, generation)).idx() == index,
            Self::handle_for(index, generation).gen() == generation,
    {
    }

    /// Builds a handle directly from its raw parts, bypassing normal
    /// allocation. Intended for advanced uses such as rebuilding handles
    /// after structural persistence.
    pub fn from_index_and_generation(index: usize, generation: usize) -> (r: Self)
        ensures
            r == Self::handle_for(index, generation),
            r.idx() == index,
            r.gen() == generation,
    {
        Self { indirection_index: index, generation, phantom: core::marker::PhantomData }
    }

    /// The raw parts of the handle: `(indirection index, generation)`.
    pub fn index_and_generation(&self) -> (r: (usize, usize))
        ensures
            r.0 == self.idx(),
            r.1 == self.gen(),
    {
        (self.indirection_index, self.generation)
    }
}

impl<T> Clone for SlotMapHandle<T> {
    fn clone(&self) -> (r: Self)
        ensures
            r == *self,
    {
        Self {
            indirection_index: self.indirection_index,
            generation: self.generation,
            phantom: self.phantom,
        }
    }
}

impl<T> Copy for SlotMapHandle<T> {}

impl<T> PartialEq for SlotMapHandle<T> {
    /// Handles compare by indirection index alone: the generation is
    /// carried for liveness validation but does not take part in equality.
    fn eq(&self, other: &Self) -> (r: bool) {
        self.indirection_index == other.indirection_index
    }
}

impl<T> vstd::std_specs::cmp::PartialEqSpecImpl for SlotMapHandle<T> {
    open spec fn obeys_eq_spec() -> bool {
        true
    }

    open spec fn eq_spec(&self, other: &Self) -> bool {
        self.idx() == other.idx()
    }
}

impl<T> Eq for SlotMapHandle<T> {}

impl<T> PartialOrd for SlotMapHandle<T> {
    /// Handles order by indirection index alone, like equality.
    fn partial_cmp(&self, other: &Self) -> (r: Option<core::cmp::Ordering>) {
        if self.indirection_index < other.indirection_index {
            Some(core::cmp::Ordering::Less)
        } else if self.indirection_index == other.indirection_index {
            Some(core::cmp::Ordering::Equal)
        } else {
            Some(core::cmp::Ordering::Greater)
        }
    }
}

impl<T> vstd::std_specs::cmp::PartialOrdSpecImpl for SlotMapHandle<T> {
    open spec fn obeys_partial_cmp_spec() -> bool {
        true
    }

    open spec fn partial_cmp_spec(&self, other: &Self) -> Option<core::cmp::Ordering> {
        if self.idx() < other.idx() {
            Some(core::cmp::Ordering::Less)
        } else if self.idx() == other.idx() {
            Some(core::cmp::Ordering::Equal)
        } else {
            Some(core::cmp::Ordering::Greater)
        }
    }
}

/// One indirection-table entry: where the slot's value currently sits in
/// dense storage, and the slot's current generation.
#[derive(Clone, Copy)]
struct Entry {
    item_index: usize,
    generation: usize,
}

/// A container that stores values densely while handing out stable,
/// validity-checked [`SlotMapHandle`]s.
///
/// Every access is mediated by a generation check: a handle whose slot has
/// been vacated since the handle was minted is reported as absent rather
/// than resolving to an unrelated value. Lookups are also bounds-checked,
/// so a handle manufactured out of range is reported as absent as well.
pub struct SlotMap<T> {
    items: Vec<T>,
    item_to_indirection_index: Vec<usize>,
    indirection_indices: Vec<Entry>,
    free_indirection_indices: Vec<usize>,
}

impl<T> View for SlotMap<T> {
    type V = Seq<T>;

    /// The dense storage, in storage order. Positions shift on removal.
    closed spec fn view(&self) -> Seq<T> {
        self.items@
    }
}

impl<T: Clone> Clone for SlotMap<T> {
    /// Cloning preserves the whole structure: same tables, same slots, same
    /// free pool, and clones of the stored values in the same positions, so
    /// every handle valid in the original is valid in the clone.
    fn clone(&self) -> (r: Self)
        ensures
            r.owners() == self.owners(),
            r.num_slots() == self.num_slots(),
            r.free_slots() == self.free_slots(),
            r@.len() == self@.len(),
            forall|i: int|
                #![trigger r.slot_gen(i)]
                #![trigger r.slot_pos(i)]
                0 <= i < self.num_slots() ==> r.slot_gen(i) == self.slot_gen(i) && r.slot_pos(i)
                    == self.slot_pos(i),
            forall|p: int| 0 <= p < self@.len() ==> cloned::<T>(self@[p], #[trigger] r@[p]),
            self.inv() ==> r.inv(),
    {
        let r = SlotMap {
            items: self.items.clone(),
            item_to_indirection_index: self.item_to_indirection_index.clone(),
            indirection_indices: self.indirection_indices.clone(),
            free_indirection_indices: self.free_indirection_indices.clone(),
        };
        proof {
            assert forall|p: int|
                0 <= p < self.owners().len() implies self.owners()[p] == #[trigger] r.owners()[p] by {
                assert(cloned::<usize>(self.owners()[p], r.owners()[p]));
            }
            assert(r.owners() =~= self.owners());
            assert forall|j: int|
                0 <= j < self.free_slots().len() implies self.free_slots()[j] == #[trigger] r
                .free_slots()[j] by {
                assert(cloned::<usize>(self.free_slots()[j], r.free_slots()[j]));
            }
            assert(r.free_slots() =~= self.free_slots());
            assert forall|i: int|
                0 <= i < self.num_slots() implies #[trigger] r.slot_gen(i) == self.slot_gen(i)
                && #[trigger] r.slot_pos(i) == self.slot_pos(i) by {
                assert(cloned::<Entry>(
                    self.indirection_indices@[i],
                    r.indirection_indices@[i],
                ));
            }
            if self.inv() {
                Self::lemma_same_structure_inv(*self, r);
            }
        }
        r
    }
}

impl<T> SlotMap<T> {
    /// The back-reference table: for each dense position, the indirection
    /// index of the slot that currently owns it.
    pub closed spec fn owners(&self) -> Seq<usize> {
        self.item_to_indirection_index@
    }

    /// How many indirection-table slots have ever been allocated.
    pub closed spec fn num_slots(&self) -> nat {
        self.indirection_indices@.len()
    }

    /// The dense position recorded for slot `i` of the indirection table.
    pub closed spec fn slot_pos(&self, i: int) -> usize {
        self.indirection_indices@[i].item_index
    }

    /// The current generation of slot `i` of the indirection table.
    pub closed spec fn slot_gen(&self, i: int) -> usize {
        self.indirection_indices@[i].generation
    }

    /// The free-slot pool: indirection indices vacated by a removal and not
    /// yet reused, in stack (LIFO) order.
    pub closed spec fn free_slots(&self) -> Seq<usize> {
        self.free_indirection_indices@
    }

    /// Slot `i` currently owns a dense position (it holds a live value).
    pub open spec fn live(&self, i: int) -> bool {
        &&& 0 <= i < self.num_slots()
        &&& (self.slot_pos(i) as int) < self@.len()
        &&& self.owners()[self.slot_pos(i) as int] == i
    }

    /// The handle resolves to a live value: its slot is live and the slot's
    /// current generation equals the handle's.
    pub open spec fn handle_valid(&self, h: SlotMapHandle<T>) -> bool {
        &&& self.live(h.idx() as int)
        &&& self.slot_gen(h.idx() as int) == h.gen()
    }

    /// The value a valid handle resolves to.
    pub open spec fn value_of(&self, h: SlotMapHandle<T>) -> T
        recommends
            self.handle_valid(h),
    {
        self@[self.slot_pos(h.idx() as int) as int]
    }

    /// Dense position `p` and the indirection entry owning it agree.
    pub open spec fn owner_ok(&self, p: int) -> bool {
        &&& (self.owners()[p] as int) < self.num_slots()
        &&& self.slot_pos(self.owners()[p] as int) == p
    }

    /// The structural invariant tying the four tables together:
    /// - the back-reference table parallels dense storage;
    /// - every dense position's owning slot points back at that position;
    /// - pooled slots are in range, dead, and listed only once;
    /// - every allocated slot is either live or pooled.
    pub open spec fn inv(&self) -> bool {
        &&& self.owners().len() == self@.len()
        &&& forall|p: int| 0 <= p < self@.len() ==> #[trigger] self.owner_ok(p)
        &&& forall|j: int|
            #![trigger self.free_slots()[j]]
            0 <= j < self.free_slots().len() ==> {
                &&& (self.free_slots()[j] as int) < self.num_slots()
                &&& !self.live(self.free_slots()[j] as int)
            }
        &&& forall|j: int, k: int|
            0 <= j < k < self.free_slots().len()
                ==> #[trigger] self.free_slots()[j] != #[trigger] self.free_slots()[k]
        &&& forall|i: int|
            0 <= i < self.num_slots() ==> #[trigger] self.live(i) || self.free_slots().contains(
                i as usize,
            )
    }

    /// Two distinct live slots own distinct dense positions.
    pub proof fn lemma_live_positions_distinct(&self, i1: int, i2: int)
        requires
            self.live(i1),
            self.live(i2),
            i1 != i2,
        ensures
            self.slot_pos(i1) != self.slot_pos(i2),
    {
    }

    /// The index the next allocation will hand out: the pool head if the
    /// pool is nonempty, else a fresh slot.
    pub open spec fn next_handle_index(&self) -> usize {
        if self.free_slots().len() > 0 {
            self.free_slots().last()
        } else {
            self.num_slots() as usize
        }
    }

    /// The generation the next allocation will hand out: the pool head's
    /// generation plus one on reuse, else zero for a fresh slot.
    pub open spec fn next_handle_generation(&self) -> usize {
        if self.free_slots().len() > 0 {
            ((self.slot_gen(self.free_slots().last() as int) + 1) as usize)
        } else {
            0
        }
    }

    /// The machine limit on allocation: reusing a pooled slot increments its
    /// generation, which must not overflow.
    pub open spec fn can_allocate(&self) -> bool {
        self.free_slots().len() > 0 ==> self.slot_gen(self.free_slots().last() as int)
            < usize::MAX
    }

    /// An empty slot map.
    pub fn new() -> (r: Self)
        ensures
            r.inv(),
            r@ == Seq::<T>::empty(),
            r.owners() == Seq::<usize>::empty(),
            r.num_slots() == 0,
            r.free_slots() == Seq::<usize>::empty(),
    {
        Self {
            items: Vec::new(),
            indirection_indices: Vec::new(),
            item_to_indirection_index: Vec::new(),
            free_indirection_indices: Vec::new(),
        }
    }

    /// The number of live values.
    pub fn len(&self) -> (r: usize)
        ensures
            r == self@.len(),
    {
        self.items.len()
    }

    /// Computes, without mutating anything, the handle that the next call to
    /// `push` will return. The answer remains accurate only until the next
    /// mutating call.
    pub fn next_handle(&self) -> (r: SlotMapHandle<T>)
        requires
            self.inv(),
            self.can_allocate(),
        ensures
            r == SlotMapHandle::<T>::handle_for(
                self.next_handle_index(),
                self.next_handle_generation(),
            ),
            r.idx() == self.next_handle_index(),
            r.gen() == self.next_handle_generation(),
    {
        let n = self.free_indirection_indices.len();
        if n > 0 {
            let indirection_index = self.free_indirection_indices[n - 1];
            let generation = self.indirection_indices[indirection_index].generation + 1;
            SlotMapHandle::from_index_and_generation(indirection_index, generation)
        } else {
            SlotMapHandle::from_index_and_generation(self.indirection_indices.len(), 0)
        }
    }

    /// Appends the value to dense storage and mints a handle for it,
    /// reusing a pooled slot (with its generation incremented) when one is
    /// available. The handle equals what `next_handle` returned beforehand.
    pub fn push(&mut self, item: T) -> (r: SlotMapHandle<T>)
        requires
            old(self).inv(),
            old(self).can_allocate(),
        ensures
            final(self).inv(),
            r == SlotMapHandle::<T>::handle_for(
                old(self).next_handle_index(),
                old(self).next_handle_generation(),
            ),
            r.idx() == old(self).next_handle_index(),
            r.gen() == old(self).next_handle_generation(),
            final(self)@ == old(self)@.push(item),
            final(self).owners() == old(self).owners().push(r.idx()),
            final(self).handle_valid(r),
            final(self).value_of(r) == item,
            final(self).slot_pos(r.idx() as int) == old(self)@.len(),
            final(self).slot_gen(r.idx() as int) == r.gen(),
            !old(self).handle_valid(r),
            old(self).free_slots().len() > 0 ==> {
                &&& final(self).num_slots() == old(self).num_slots()
                &&& final(self).free_slots() == old(self).free_slots().drop_last()
                &&& r.gen() == old(self).slot_gen(r.idx() as int) + 1
            },
            old(self).free_slots().len() == 0 ==> {
                &&& final(self).num_slots() == old(self).num_slots() + 1
                &&& final(self).free_slots() == old(self).free_slots()
            },
            forall|i: int|
                #![trigger final(self).slot_gen(i)]
                #![trigger final(self).slot_pos(i)]
                0 <= i < old(self).num_slots() && i != r.idx() ==> final(self).slot_gen(i) == old(self).slot_gen(i) && final(self).slot_pos(i) == old(self).slot_pos(i),
            forall|i: int|
                0 <= i < old(self).num_slots() ==> #[trigger] final(self).slot_gen(i) >= old(self).slot_gen(i),
            forall|h2: SlotMapHandle<T>|
                old(self).handle_valid(h2) ==> #[trigger] final(self).handle_valid(h2) && final(self).value_of(h2) == old(self).value_of(h2),
            forall|h2: SlotMapHandle<T>|
                #[trigger] final(self).handle_valid(h2) ==> old(self).handle_valid(h2) || h2
                    == SlotMapHandle::<T>::handle_for(
                    old(self).next_handle_index(),
                    old(self).next_handle_generation(),
                ),
    {
        let ghost prev = *self;
        let item_index = self.items.len();
        self.items.push(item);
        let n = self.free_indirection_indices.len();
        let (indirection_index, generation) = if n > 0 {
            let indirection_index = self.free_indirection_indices[n - 1];
            self.free_indirection_indices.pop();
            let generation = self.indirection_indices[indirection_index].generation + 1;
            self.indirection_indices[indirection_index] = Entry { item_index, generation };
            (indirection_index, generation)
        } else {
            let indirection_index = self.indirection_indices.len();
            self.indirection_indices.push(Entry { item_index, generation: 0 });
            (indirection_index, 0)
        };
        self.item_to_indirection_index.push(indirection_index);
        let r = SlotMapHandle::from_index_and_generation(indirection_index, generation);
        proof {
            Self::lemma_push_restores_inv(prev, *self, r, item);
        }
        r
    }

    /// The bookkeeping facts behind `push`: the new state satisfies the
    /// invariant, and every previously valid handle still resolves to the
    /// same value.
    proof fn lemma_push_restores_inv(prev: Self, cur: Self, r: SlotMapHandle<T>, item: T)
        requires
            prev.inv(),
            prev.can_allocate(),
            r.idx() == prev.next_handle_index(),
            r.gen() == prev.next_handle_generation(),
            cur@ == prev@.push(item),
            cur.owners() == prev.owners().push(r.idx()),
            prev.free_slots().len() > 0 ==> {
                &&& cur.num_slots() == prev.num_slots()
                &&& cur.free_slots() == prev.free_slots().drop_last()
                &&& cur.slot_pos(r.idx() as int) == prev@.len()
                &&& cur.slot_gen(r.idx() as int) == r.gen()
                &&& forall|i: int|
                    #![trigger cur.slot_gen(i)]
                    #![trigger cur.slot_pos(i)]
                    0 <= i < prev.num_slots() && i != r.idx() ==> cur.slot_gen(i)
                        == prev.slot_gen(i) && cur.slot_pos(i) == prev.slot_pos(i)
            },
            prev.free_slots().len() == 0 ==> {
                &&& cur.num_slots() == prev.num_slots() + 1
                &&& cur.free_slots() == prev.free_slots()
                &&& cur.slot_pos(r.idx() as int) == prev@.len()
                &&& cur.slot_gen(r.idx() as int) == 0
                &&& forall|i: int|
                    #![trigger cur.slot_gen(i)]
                    #![trigger cur.slot_pos(i)]
                    0 <= i < prev.num_slots() ==> cur.slot_gen(i) == prev.slot_gen(i)
                        && cur.slot_pos(i) == prev.slot_pos(i)
            },
        ensures
            cur.inv(),
            cur.handle_valid(r),
            cur.value_of(r) == item,
            !prev.handle_valid(r),
            forall|h2: SlotMapHandle<T>|
                prev.handle_valid(h2) ==> #[trigger] cur.handle_valid(h2) && cur.value_of(h2)
                    == prev.value_of(h2),
            forall|h2: SlotMapHandle<T>|
                #[trigger] cur.handle_valid(h2) ==> prev.handle_valid(h2) || h2
                    == SlotMapHandle::<T>::handle_for(
                    prev.next_handle_index(),
                    prev.next_handle_generation(),
                ),
    {
        let ri = r.idx() as int;
        vstd::std_specs::vec::axiom_spec_len(&prev.indirection_indices);
        assert(prev.num_slots() <= usize::MAX);
        assert(!prev.live(ri));
        assert forall|p: int| 0 <= p < cur@.len() implies #[trigger] cur.owner_ok(p) by {
            if p < prev@.len() {
                assert(prev.owner_ok(p));
                assert(cur.owners()[p] == prev.owners()[p]);
                assert((prev.owners()[p] as int) != ri || prev.live(ri));
            }
        }
        assert forall|j: int|
            #![trigger cur.free_slots()[j]]
            0 <= j < cur.free_slots().len() implies {
            &&& (cur.free_slots()[j] as int) < cur.num_slots()
            &&& !cur.live(cur.free_slots()[j] as int)
        } by {
            assert(cur.free_slots()[j] == prev.free_slots()[j]);
            let f = prev.free_slots()[j] as int;
            assert(!prev.live(f));
            assert(f != ri) by {
                if prev.free_slots().len() > 0 {
                    assert(prev.free_slots()[prev.free_slots().len() - 1] == r.idx());
                }
            }
            assert(cur.slot_pos(f) == prev.slot_pos(f));
            if (prev.slot_pos(f) as int) < cur@.len() {
                if (prev.slot_pos(f) as int) < prev@.len() {
                    assert(cur.owners()[prev.slot_pos(f) as int] == prev.owners()[prev.slot_pos(
                        f,
                    ) as int]);
                } else {
                    assert(cur.owners()[prev.slot_pos(f) as int] == r.idx());
                }
            }
        }
        assert forall|i: int|
            0 <= i < cur.num_slots() implies #[trigger] cur.live(i) || cur.free_slots().contains(
            i as usize,
        ) by {
            if i == ri {
                assert(cur.owners()[cur.slot_pos(ri) as int] == r.idx());
                assert(cur.live(ri));
            } else {
                if prev.live(i) {
                    assert(cur.owners()[prev.slot_pos(i) as int] == prev.owners()[prev.slot_pos(
                        i,
                    ) as int]);
                    assert(cur.live(i));
                } else {
                    assert(prev.free_slots().contains(i as usize));
                    let j = choose|j: int|
                        0 <= j < prev.free_slots().len() && prev.free_slots()[j] == i as usize;
                    if prev.free_slots().len() > 0 && j == prev.free_slots().len() - 1 {
                        assert(i == ri);
                    } else {
                        assert(cur.free_slots()[j] == i as usize);
                        assert(cur.free_slots().contains(i as usize));
                    }
                }
            }
        }
        assert(cur.owners()[cur.slot_pos(ri) as int] == r.idx());
        assert(cur.live(ri));
        assert(cur.value_of(r) == item);
        assert forall|h2: SlotMapHandle<T>| prev.handle_valid(h2) implies #[trigger] cur
            .handle_valid(h2) && cur.value_of(h2) == prev.value_of(h2) by {
            let i = h2.idx() as int;
            assert(i != ri);
            assert(cur.owners()[prev.slot_pos(i) as int] == prev.owners()[prev.slot_pos(i) as int]);
            assert(cur@[prev.slot_pos(i) as int] == prev@[prev.slot_pos(i) as int]);
        }
        assert forall|h2: SlotMapHandle<T>| #[trigger] cur.handle_valid(h2) implies prev
            .handle_valid(h2) || h2 == SlotMapHandle::<T>::handle_for(
            prev.next_handle_index(),
            prev.next_handle_generation(),
        ) by {
            let i = h2.idx() as int;
            if i == ri {
                SlotMapHandle::lemma_handle_parts(h2);
            } else {
                assert(cur.slot_pos(i) == prev.slot_pos(i));
                if (cur.slot_pos(i) as int) < prev@.len() {
                    assert(cur.owners()[cur.slot_pos(i) as int] == prev.owners()[cur.slot_pos(
                        i,
                    ) as int]);
                } else {
                    assert(cur.owners()[cur.slot_pos(i) as int] == r.idx());
                }
            }
        }
    }


    /// Removes the value the handle refers to, permanently invalidating the
    /// handle. Absent when the handle is stale (its slot's generation has
    /// moved on), when its slot holds no live value, or when its index was
    /// never allocated; in those cases nothing is mutated, so a second
    /// removal through the same handle is also absent rather than an error.
    pub fn remove(&mut self, handle: SlotMapHandle<T>) -> (r: Option<T>)
        requires
            old(self).inv(),
            old(self).handle_valid(handle) ==> handle.gen() < usize::MAX,
        ensures
            final(self).inv(),
            !old(self).handle_valid(handle) ==> r.is_none() && *final(self) == *old(self),
            old(self).handle_valid(handle) ==> {
                let pos = old(self).slot_pos(handle.idx() as int) as int;
                &&& r == Some(old(self).value_of(handle))
                &&& final(self)@ == old(self)@.update(pos, old(self)@.last()).drop_last()
                &&& final(self).owners() == old(self).owners().update(
                    pos,
                    old(self).owners().last(),
                ).drop_last()
                &&& final(self).free_slots() == old(self).free_slots().push(handle.idx())
                &&& final(self).num_slots() == old(self).num_slots()
                &&& final(self).slot_gen(handle.idx() as int) == handle.gen() + 1
                &&& !final(self).handle_valid(handle)
                &&& forall|h2: SlotMapHandle<T>|
                    old(self).handle_valid(h2) && h2.idx() != handle.idx()
                        ==> #[trigger] final(self).handle_valid(h2)
                        && final(self).value_of(h2) == old(self).value_of(h2)
                &&& forall|h2: SlotMapHandle<T>|
                    #[trigger] final(self).handle_valid(h2)
                        ==> old(self).handle_valid(h2) && h2.idx() != handle.idx()
            },
            forall|i: int|
                #![trigger final(self).slot_gen(i)]
                0 <= i < old(self).num_slots()
                    ==> final(self).slot_gen(i) >= old(self).slot_gen(i),
            forall|i: int|
                #![trigger final(self).slot_gen(i)]
                0 <= i < old(self).num_slots() && i != handle.idx() ==> final(self).slot_gen(i)
                    == old(self).slot_gen(i),
    {
        let (index, generation) = handle.index_and_generation();
        match self.live_position(index) {
            Some(_) => {
                if self.indirection_indices[index].generation == generation {
                    Some(self.remove_at(index))
                } else {
                    None
                }
            },
            None => None,
        }
    }

    /// Removes the value held by the handle's slot without comparing
    /// generations: for callers that track liveness externally and know the
    /// slot is theirs. Absent only when the slot holds no live value at all.
    /// The slot's generation is still bumped, so every outstanding handle to
    /// it is invalidated.
    pub fn remove_unchecked_generation(&mut self, handle: SlotMapHandle<T>) -> (r: Option<T>)
        requires
            old(self).inv(),
            old(self).live(handle.idx() as int) ==> old(self).slot_gen(handle.idx() as int)
                < usize::MAX,
        ensures
            final(self).inv(),
            !old(self).live(handle.idx() as int) ==> r.is_none() && *final(self) == *old(self),
            old(self).live(handle.idx() as int) ==> {
                let pos = old(self).slot_pos(handle.idx() as int) as int;
                &&& r == Some(old(self)@[pos])
                &&& final(self)@ == old(self)@.update(pos, old(self)@.last()).drop_last()
                &&& final(self).owners() == old(self).owners().update(
                    pos,
                    old(self).owners().last(),
                ).drop_last()
                &&& final(self).free_slots() == old(self).free_slots().push(handle.idx())
                &&& final(self).num_slots() == old(self).num_slots()
                &&& final(self).slot_gen(handle.idx() as int) == old(self).slot_gen(
                    handle.idx() as int,
                ) + 1
                &&& !final(self).live(handle.idx() as int)
                &&& forall|h2: SlotMapHandle<T>|
                    old(self).handle_valid(h2) && h2.idx() != handle.idx()
                        ==> #[trigger] final(self).handle_valid(h2)
                        && final(self).value_of(h2) == old(self).value_of(h2)
                &&& forall|h2: SlotMapHandle<T>|
                    #[trigger] final(self).handle_valid(h2)
                        ==> old(self).handle_valid(h2) && h2.idx() != handle.idx()
            },
            forall|i: int|
                #![trigger final(self).slot_gen(i)]
                0 <= i < old(self).num_slots()
                    ==> final(self).slot_gen(i) >= old(self).slot_gen(i),
            forall|i: int|
                #![trigger final(self).slot_gen(i)]
                0 <= i < old(self).num_slots() && i != handle.idx() ==> final(self).slot_gen(i)
                    == old(self).slot_gen(i),
    {
        let (index, _) = handle.index_and_generation();
        match self.live_position(index) {
            Some(_) => Some(self.remove_at(index)),
            None => None,
        }
    }

    /// Looks the handle up: present with the stored value exactly when the
    /// handle is valid (its slot is live and the generations agree).
    pub fn get(&self, handle: SlotMapHandle<T>) -> (r: Option<&T>)
        requires
            self.inv(),
        ensures
            self.handle_valid(handle) ==> r.is_some() && *r.unwrap() == self.value_of(handle),
            !self.handle_valid(handle) ==> r.is_none(),
    {
        let (index, generation) = handle.index_and_generation();
        match self.live_position(index) {
            Some(pos) => {
                if self.indirection_indices[index].generation == generation {
                    Some(&self.items[pos])
                } else {
                    None
                }
            },
            None => None,
        }
    }

    /// Mutable lookup: present exactly when the handle is valid. Only the
    /// value behind the returned reference changes; every handle keeps its
    /// validity and every other value stays in place.
    pub fn get_mut(&mut self, handle: SlotMapHandle<T>) -> (r: Option<&mut T>)
        requires
            old(self).inv(),
        ensures
            old(self).handle_valid(handle) ==> r.is_some() && *r.unwrap() == old(self).value_of(
                handle,
            ) && final(self)@ == old(self)@.update(
                old(self).slot_pos(handle.idx() as int) as int,
                *final(r.unwrap()),
            ),
            !old(self).handle_valid(handle) ==> r.is_none() && *final(self) == *old(self),
            final(self).inv(),
            final(self).owners() == old(self).owners(),
            final(self).num_slots() == old(self).num_slots(),
            final(self).free_slots() == old(self).free_slots(),
            forall|i: int|
                #![trigger final(self).slot_gen(i)]
                #![trigger final(self).slot_pos(i)]
                0 <= i < old(self).num_slots() ==> final(self).slot_gen(i) == old(self).slot_gen(i)
                    && final(self).slot_pos(i) == old(self).slot_pos(i),
            forall|h2: SlotMapHandle<T>|
                #[trigger] final(self).handle_valid(h2) == old(self).handle_valid(h2),
            forall|h2: SlotMapHandle<T>|
                old(self).handle_valid(h2) && h2.idx() != handle.idx() ==> #[trigger] final(self).value_of(h2) == old(self).value_of(h2),
    {
        let ghost prev = *self;
        let (index, generation) = handle.index_and_generation();
        match self.live_position(index) {
            Some(pos) => {
                if self.indirection_indices[index].generation == generation {
                    let r = &mut self.items[pos];
                    proof {
                        Self::lemma_same_structure_inv(prev, *after_borrow(self));
                        assert forall|h2: SlotMapHandle<T>|
                            prev.handle_valid(h2) && h2.idx() != handle.idx()
                                implies #[trigger] after_borrow(self).value_of(h2) == prev.value_of(
                            h2,
                        ) by {
                            prev.lemma_live_positions_distinct(
                                h2.idx() as int,
                                handle.idx() as int,
                            );
                        }
                    }
                    Some(r)
                } else {
                    None
                }
            },
            None => None,
        }
    }

    /// Looks the slot up while skipping the generation comparison: for
    /// callers that track liveness through an external mechanism and want to
    /// avoid the branch. Present exactly when the slot currently holds a
    /// live value; a stale handle may thus resolve to a value unrelated to
    /// the one it originally identified.
    pub fn get_unchecked_generation(&self, handle: SlotMapHandle<T>) -> (r: Option<&T>)
        requires
            self.inv(),
        ensures
            self.live(handle.idx() as int) ==> r.is_some() && *r.unwrap() == self@[self.slot_pos(
                handle.idx() as int,
            ) as int],
            !self.live(handle.idx() as int) ==> r.is_none(),
    {
        let (index, _) = handle.index_and_generation();
        match self.live_position(index) {
            Some(pos) => Some(&self.items[pos]),
            None => None,
        }
    }

    /// Mutable lookup that skips the generation comparison, with the same
    /// caveats as `get_unchecked_generation`.
    pub fn get_mut_unchecked_generation(&mut self, handle: SlotMapHandle<T>) -> (r: Option<
        &mut T,
    >)
        requires
            old(self).inv(),
        ensures
            old(self).live(handle.idx() as int) ==> r.is_some() && *r.unwrap() == old(self)@[old(self).slot_pos(handle.idx() as int) as int] && final(self)@ == old(self)@.update(
                old(self).slot_pos(handle.idx() as int) as int,
                *final(r.unwrap()),
            ),
            !old(self).live(handle.idx() as int) ==> r.is_none() && *final(self) == *old(self),
            final(self).inv(),
            final(self).owners() == old(self).owners(),
            final(self).num_slots() == old(self).num_slots(),
            final(self).free_slots() == old(self).free_slots(),
            forall|i: int|
                #![trigger final(self).slot_gen(i)]
                #![trigger final(self).slot_pos(i)]
                0 <= i < old(self).num_slots() ==> final(self).slot_gen(i) == old(self).slot_gen(i)
                    && final(self).slot_pos(i) == old(self).slot_pos(i),
    {
        let ghost prev = *self;
        let (index, _) = handle.index_and_generation();
        match self.live_position(index) {
            Some(pos) => {
                let r = &mut self.items[pos];
                proof {
                    Self::lemma_same_structure_inv(prev, *after_borrow(self));
                }
                Some(r)
            },
            None => None,
        }
    }


    /// A state with the same bookkeeping tables and the same number of
    /// values as an invariant-satisfying state satisfies the invariant too:
    /// the invariant never constrains the stored values themselves.
    pub proof fn lemma_same_structure_inv(prev: Self, cur: Self)
        requires
            prev.inv(),
            cur@.len() == prev@.len(),
            cur.owners() == prev.owners(),
            cur.num_slots() == prev.num_slots(),
            cur.free_slots() == prev.free_slots(),
            forall|i: int|
                #![trigger cur.slot_gen(i)]
                #![trigger cur.slot_pos(i)]
                0 <= i < prev.num_slots() ==> cur.slot_gen(i) == prev.slot_gen(i)
                    && cur.slot_pos(i) == prev.slot_pos(i),
        ensures
            cur.inv(),
    {
        assert forall|p: int| 0 <= p < cur@.len() implies #[trigger] cur.owner_ok(p) by {
            assert(prev.owner_ok(p));
        }
        assert forall|j: int|
            #![trigger cur.free_slots()[j]]
            0 <= j < cur.free_slots().len() implies {
            &&& (cur.free_slots()[j] as int) < cur.num_slots()
            &&& !cur.live(cur.free_slots()[j] as int)
        } by {
            let f = prev.free_slots()[j] as int;
            assert(prev.free_slots()[j] == cur.free_slots()[j]);
            assert(!prev.live(f));
            assert(cur.slot_pos(f) == prev.slot_pos(f));
        }
        assert forall|i: int|
            0 <= i < cur.num_slots() implies #[trigger] cur.live(i) || cur.free_slots().contains(
            i as usize,
        ) by {
            if prev.live(i) {
                assert(cur.live(i));
            } else {
                assert(prev.free_slots().contains(i as usize));
            }
        }
    }


    /// Resolves a slot index and generation to the owned dense position:
    /// present exactly when that handle would be valid.
    fn valid_position(&self, index: usize, generation: usize) -> (r: Option<usize>)
        requires
            self.inv(),
        ensures
            match r {
                Some(p) => self.live(index as int) && self.slot_gen(index as int) == generation
                    && p == self.slot_pos(index as int),
                None => !(self.live(index as int) && self.slot_gen(index as int) == generation),
            },
    {
        match self.live_position(index) {
            Some(pos) => {
                if self.indirection_indices[index].generation == generation {
                    Some(pos)
                } else {
                    None
                }
            },
            None => None,
        }
    }

    /// Mutable access to two values at once. Aliasing is refused, never
    /// silently granted: when both handles resolve to the same slot the
    /// result is `(absent, absent)`. An invalid handle yields an absent
    /// side, exactly as `get_mut` would. Otherwise dense storage is split
    /// at the larger resolved position and the two references come from the
    /// two disjoint parts.
    pub fn get_mut_twice(&mut self, handle0: SlotMapHandle<T>, handle1: SlotMapHandle<T>) -> (r: (
        Option<&mut T>,
        Option<&mut T>,
    ))
        requires
            old(self).inv(),
        ensures
            final(self).inv(),
            final(self).owners() == old(self).owners(),
            final(self).num_slots() == old(self).num_slots(),
            final(self).free_slots() == old(self).free_slots(),
            final(self)@.len() == old(self)@.len(),
            forall|i: int|
                #![trigger final(self).slot_gen(i)]
                #![trigger final(self).slot_pos(i)]
                0 <= i < old(self).num_slots() ==> final(self).slot_gen(i) == old(self).slot_gen(i)
                    && final(self).slot_pos(i) == old(self).slot_pos(i),
            (!old(self).handle_valid(handle0) && !old(self).handle_valid(handle1)) ==> r.0.is_none()
                && r.1.is_none() && final(self)@ == old(self)@,
            (old(self).handle_valid(handle0) && old(self).handle_valid(handle1) && handle0.idx()
                == handle1.idx()) ==> r.0.is_none() && r.1.is_none() && final(self)@ == old(self)@,
            (old(self).handle_valid(handle0) && !old(self).handle_valid(handle1)) ==> r.1.is_none()
                && r.0.is_some() && *r.0.unwrap() == old(self).value_of(handle0) && final(self)@
                == old(self)@.update(
                old(self).slot_pos(handle0.idx() as int) as int,
                *final(r.0.unwrap()),
            ),
            (!old(self).handle_valid(handle0) && old(self).handle_valid(handle1)) ==> r.0.is_none()
                && r.1.is_some() && *r.1.unwrap() == old(self).value_of(handle1) && final(self)@
                == old(self)@.update(
                old(self).slot_pos(handle1.idx() as int) as int,
                *final(r.1.unwrap()),
            ),
            (old(self).handle_valid(handle0) && old(self).handle_valid(handle1) && handle0.idx()
                != handle1.idx()) ==> r.0.is_some() && r.1.is_some() && *r.0.unwrap() == old(
                self,
            ).value_of(handle0) && *r.1.unwrap() == old(self).value_of(handle1) && final(self)@
                == old(self)@.update(
                old(self).slot_pos(handle0.idx() as int) as int,
                *final(r.0.unwrap()),
            ).update(old(self).slot_pos(handle1.idx() as int) as int, *final(r.1.unwrap())),
    {
        let ghost prev = *self;
        let (index0, generation0) = handle0.index_and_generation();
        let (index1, generation1) = handle1.index_and_generation();
        let p0 = self.valid_position(index0, generation0);
        let p1 = self.valid_position(index1, generation1);
        match (p0, p1) {
            (None, None) => (None, None),
            (Some(a), None) => {
                let r0 = &mut self.items[a];
                proof {
                    Self::lemma_same_structure_inv(prev, *after_borrow(self));
                }
                (Some(r0), None)
            },
            (None, Some(b)) => {
                let r1 = &mut self.items[b];
                proof {
                    Self::lemma_same_structure_inv(prev, *after_borrow(self));
                }
                (None, Some(r1))
            },
            (Some(a), Some(b)) => {
                proof {
                    assert(prev.owner_ok(a as int));
                    assert(prev.owner_ok(b as int));
                }
                if a == b {
                    (None, None)
                } else if a < b {
                    let (left, right) = self.items.split_at_mut(b);
                    let (front, mid) = left.split_at_mut(a);
                    let r0 = mid.first_mut();
                    let r1 = right.first_mut();
                    proof {
                        assert(r0.is_some());
                        assert(r1.is_some());
                        assert((*after_borrow(self))@ =~= prev@.update(
                            a as int,
                            *final(r0.unwrap()),
                        ).update(b as int, *final(r1.unwrap())));
                        Self::lemma_same_structure_inv(prev, *after_borrow(self));
                    }
                    (r0, r1)
                } else {
                    let (left, right) = self.items.split_at_mut(a);
                    let (front, mid) = left.split_at_mut(b);
                    let r1 = mid.first_mut();
                    let r0 = right.first_mut();
                    proof {
                        assert(r0.is_some());
                        assert(r1.is_some());
                        assert((*after_borrow(self))@ =~= prev@.update(
                            a as int,
                            *final(r0.unwrap()),
                        ).update(b as int, *final(r1.unwrap())));
                        Self::lemma_same_structure_inv(prev, *after_borrow(self));
                    }
                    (r0, r1)
                }
            },
        }
    }


    /// A read-only view of dense storage, in storage order — not insertion
    /// order once removals have occurred.
    pub fn iter(&self) -> (r: &Vec<T>)
        ensures
            r@ == self@,
    {
        &self.items
    }

    /// A mutable view of dense storage, in storage order. As long as the
    /// caller only mutates values in place (the length is unchanged when
    /// the borrow ends), every handle keeps resolving to the same position
    /// and the invariant is preserved.
    pub fn iter_mut(&mut self) -> (r: &mut Vec<T>)
        requires
            old(self).inv(),
        ensures
            r@ == old(self)@,
            final(self)@ == final(r)@,
            final(self).owners() == old(self).owners(),
            final(self).num_slots() == old(self).num_slots(),
            final(self).free_slots() == old(self).free_slots(),
            forall|i: int|
                #![trigger final(self).slot_gen(i)]
                #![trigger final(self).slot_pos(i)]
                0 <= i < old(self).num_slots() ==> final(self).slot_gen(i) == old(self).slot_gen(i)
                    && final(self).slot_pos(i) == old(self).slot_pos(i),
            final(r)@.len() == old(self)@.len() ==> final(self).inv(),
    {
        let ghost prev = *self;
        let r = &mut self.items;
        proof {
            Self::lemma_same_structure_inv_cond(prev, *after_borrow(self));
        }
        r
    }

    /// Pairs each stored value with a handle rebuilt from the slot that
    /// currently owns its position, in storage order. Every returned handle
    /// is valid and resolves to its paired value.
    pub fn iter_with_handle(&self) -> (r: Vec<(&T, SlotMapHandle<T>)>)
        requires
            self.inv(),
        ensures
            r@.len() == self@.len(),
            forall|p: int|
                #![trigger r@[p]]
                0 <= p < self@.len() ==> {
                    &&& *r@[p].0 == self@[p]
                    &&& r@[p].1 == SlotMapHandle::<T>::handle_for(
                        self.owners()[p],
                        self.slot_gen(self.owners()[p] as int),
                    )
                    &&& self.handle_valid(r@[p].1)
                    &&& self.value_of(r@[p].1) == self@[p]
                },
    {
        let mut out: Vec<(&T, SlotMapHandle<T>)> = Vec::new();
        let n = self.items.len();
        let mut p: usize = 0;
        while p < n
            invariant
                self.inv(),
                n == self@.len(),
                p <= n,
                out@.len() == p,
                forall|q: int|
                    #![trigger out@[q]]
                    0 <= q < p ==> {
                        &&& *out@[q].0 == self@[q]
                        &&& out@[q].1 == SlotMapHandle::<T>::handle_for(
                            self.owners()[q],
                            self.slot_gen(self.owners()[q] as int),
                        )
                        &&& self.handle_valid(out@[q].1)
                        &&& self.value_of(out@[q].1) == self@[q]
                    },
            decreases n - p,
        {
            proof {
                assert(self.owner_ok(p as int));
            }
            let indirection_index = self.item_to_indirection_index[p];
            let generation = self.indirection_indices[indirection_index].generation;
            let handle = SlotMapHandle::from_index_and_generation(indirection_index, generation);
            out.push((&self.items[p], handle));
            p = p + 1;
        }
        out
    }

    /// The mutable variant of `iter_with_handle`: the handles for every
    /// dense position, in storage order, together with the mutable storage
    /// view that `iter_mut` returns.
    pub fn iter_mut_with_handle(&mut self) -> (r: (Vec<SlotMapHandle<T>>, &mut Vec<T>))
        requires
            old(self).inv(),
        ensures
            r.0@.len() == old(self)@.len(),
            forall|p: int|
                #![trigger r.0@[p]]
                0 <= p < old(self)@.len() ==> {
                    &&& r.0@[p] == SlotMapHandle::<T>::handle_for(
                        old(self).owners()[p],
                        old(self).slot_gen(old(self).owners()[p] as int),
                    )
                    &&& old(self).handle_valid(r.0@[p])
                    &&& old(self).slot_pos(r.0@[p].idx() as int) == p
                },
            r.1@ == old(self)@,
            final(self)@ == final(r.1)@,
            final(self).owners() == old(self).owners(),
            final(self).num_slots() == old(self).num_slots(),
            final(self).free_slots() == old(self).free_slots(),
            forall|i: int|
                #![trigger final(self).slot_gen(i)]
                #![trigger final(self).slot_pos(i)]
                0 <= i < old(self).num_slots() ==> final(self).slot_gen(i) == old(self).slot_gen(i)
                    && final(self).slot_pos(i) == old(self).slot_pos(i),
            final(r.1)@.len() == old(self)@.len() ==> final(self).inv(),
    {
        let ghost prev = *self;
        let mut handles: Vec<SlotMapHandle<T>> = Vec::new();
        let n = self.items.len();
        let mut p: usize = 0;
        while p < n
            invariant
                self.inv(),
                *self == prev,
                n == self@.len(),
                p <= n,
                handles@.len() == p,
                forall|q: int|
                    #![trigger handles@[q]]
                    0 <= q < p ==> {
                        &&& handles@[q] == SlotMapHandle::<T>::handle_for(
                            self.owners()[q],
                            self.slot_gen(self.owners()[q] as int),
                        )
                        &&& self.handle_valid(handles@[q])
                        &&& self.slot_pos(handles@[q].idx() as int) == q
                    },
            decreases n - p,
        {
            proof {
                assert(self.owner_ok(p as int));
            }
            let indirection_index = self.item_to_indirection_index[p];
            let generation = self.indirection_indices[indirection_index].generation;
            handles.push(SlotMapHandle::from_index_and_generation(indirection_index, generation));
            p = p + 1;
        }
        let r = &mut self.items;
        proof {
            Self::lemma_same_structure_inv_cond(prev, *after_borrow(self));
        }
        (handles, r)
    }


    /// As `lemma_same_structure_inv`, but with the length agreement as a
    /// hypothesis of the conclusion rather than of the lemma: for reasoning
    /// about a state whose storage is still mutably borrowed.
    proof fn lemma_same_structure_inv_cond(prev: Self, cur: Self)
        requires
            prev.inv(),
            cur.owners() == prev.owners(),
            cur.num_slots() == prev.num_slots(),
            cur.free_slots() == prev.free_slots(),
            forall|i: int|
                #![trigger cur.slot_gen(i)]
                #![trigger cur.slot_pos(i)]
                0 <= i < prev.num_slots() ==> cur.slot_gen(i) == prev.slot_gen(i)
                    && cur.slot_pos(i) == prev.slot_pos(i),
        ensures
            cur@.len() == prev@.len() ==> cur.inv(),
    {
        if cur@.len() == prev@.len() {
            Self::lemma_same_structure_inv(prev, cur);
        }
    }

    /// Once a handle is stale — its generation lies below its slot's
    /// current generation — no later state whose generations have only
    /// grown can make it valid again: a slot's generation never returns to
    /// a previous value, so rejection of a stale handle is permanent.
    pub proof fn lemma_stale_handle_stays_invalid(prev: Self, cur: Self, h: SlotMapHandle<T>)
        requires
            h.gen() < prev.slot_gen(h.idx() as int),
            cur.num_slots() >= prev.num_slots(),
            (h.idx() as int) < prev.num_slots(),
            forall|i: int|
                #![trigger cur.slot_gen(i)]
                0 <= i < prev.num_slots() ==> cur.slot_gen(i) >= prev.slot_gen(i),
        ensures
            !prev.handle_valid(h),
            !cur.handle_valid(h),
    {
        assert(cur.slot_gen(h.idx() as int) >= prev.slot_gen(h.idx() as int));
    }

    /// Resolves a slot index to the dense position it owns: absent when the
    /// index is out of range or the slot holds no live value.
    fn live_position(&self, index: usize) -> (r: Option<usize>)
        requires
            self.inv(),
        ensures
            match r {
                Some(p) => self.live(index as int) && p == self.slot_pos(index as int),
                None => !self.live(index as int),
            },
    {
        if index >= self.indirection_indices.len() {
            return None;
        }
        let pos = self.indirection_indices[index].item_index;
        if pos >= self.items.len() {
            return None;
        }
        if self.item_to_indirection_index[pos] != index {
            return None;
        }
        Some(pos)
    }

    /// Vacates slot `index`: bumps its generation, swap-removes its value
    /// from dense storage, patches the moved value's indirection entry, and
    /// returns the slot to the free pool.
    fn remove_at(&mut self, index: usize) -> (r: T)
        requires
            old(self).inv(),
            old(self).live(index as int),
            old(self).slot_gen(index as int) < usize::MAX,
        ensures
            final(self).inv(),
            ({
                let pos = old(self).slot_pos(index as int) as int;
                &&& r == old(self)@[pos]
                &&& final(self)@ == old(self)@.update(pos, old(self)@.last()).drop_last()
                &&& final(self).owners() == old(self).owners().update(
                    pos,
                    old(self).owners().last(),
                ).drop_last()
            }),
            final(self).free_slots() == old(self).free_slots().push(index),
            final(self).num_slots() == old(self).num_slots(),
            final(self).slot_gen(index as int) == old(self).slot_gen(index as int) + 1,
            !final(self).live(index as int),
            forall|i: int|
                #![trigger final(self).slot_gen(i)]
                0 <= i < old(self).num_slots() && i != index ==> final(self).slot_gen(i) == old(self).slot_gen(i),
            forall|h2: SlotMapHandle<T>|
                old(self).handle_valid(h2) && h2.idx() != index ==> #[trigger] final(self).handle_valid(h2) && final(self).value_of(h2) == old(self).value_of(h2),
            forall|h2: SlotMapHandle<T>|
                #[trigger] final(self).handle_valid(h2) ==> old(self).handle_valid(h2) && h2.idx()
                    != index,
    {
        let ghost prev = *self;
        let pos = self.indirection_indices[index].item_index;
        let generation = self.indirection_indices[index].generation;
        self.indirection_indices[index] = Entry { item_index: pos, generation: generation + 1 };
        proof {
            assert(prev.owner_ok(prev@.len() - 1));
        }
        let last_owner = self.item_to_indirection_index[self.items.len() - 1];
        let last_generation = self.indirection_indices[last_owner].generation;
        self.indirection_indices[last_owner] = Entry {
            item_index: pos,
            generation: last_generation,
        };
        let removed = self.items.swap_remove(pos);
        self.item_to_indirection_index.swap_remove(pos);
        self.free_indirection_indices.push(index);
        proof {
            Self::lemma_remove_restores_inv(prev, *self, index as int);
        }
        removed
    }

    /// The bookkeeping facts behind removal: the patched state satisfies the
    /// invariant, every other valid handle still resolves to its old value,
    /// and no handle becomes valid.
    proof fn lemma_remove_restores_inv(prev: Self, cur: Self, index: int)
        requires
            prev.inv(),
            prev.live(index),
            prev.slot_gen(index) < usize::MAX,
            ({
                let pos = prev.slot_pos(index) as int;
                let last_owner = prev.owners().last() as int;
                &&& cur@ == prev@.update(pos, prev@.last()).drop_last()
                &&& cur.owners() == prev.owners().update(pos, prev.owners().last()).drop_last()
                &&& cur.num_slots() == prev.num_slots()
                &&& cur.free_slots() == prev.free_slots().push(index as usize)
                &&& cur.slot_gen(index) == prev.slot_gen(index) + 1
                &&& cur.slot_pos(index) == pos
                &&& cur.slot_pos(last_owner) == pos
                &&& last_owner != index ==> cur.slot_gen(last_owner) == prev.slot_gen(last_owner)
                &&& forall|i: int|
                    #![trigger cur.slot_gen(i)]
                    #![trigger cur.slot_pos(i)]
                    0 <= i < prev.num_slots() && i != index && i != last_owner ==> cur.slot_gen(i)
                        == prev.slot_gen(i) && cur.slot_pos(i) == prev.slot_pos(i)
                &&& forall|i: int|
                    #![trigger cur.slot_gen(i)]
                    0 <= i < prev.num_slots() && i != index ==> cur.slot_gen(i) == prev.slot_gen(i)
            }),
        ensures
            cur.inv(),
            !cur.live(index),
            forall|h2: SlotMapHandle<T>|
                prev.handle_valid(h2) && h2.idx() != index ==> #[trigger] cur.handle_valid(h2)
                    && cur.value_of(h2) == prev.value_of(h2),
            forall|h2: SlotMapHandle<T>|
                #[trigger] cur.handle_valid(h2) ==> prev.handle_valid(h2) && h2.idx() != index,
    {
        let pos = prev.slot_pos(index) as int;
        let last_owner = prev.owners().last() as int;
        let oldlen = prev@.len();
        assert(prev.owner_ok(oldlen - 1));
        assert(prev.owner_ok(pos));
        assert(prev.owners()[pos] == index);
        assert(prev.slot_pos(last_owner) == oldlen - 1);
        assert(pos == oldlen - 1 ==> last_owner == index);
        assert(last_owner == index ==> pos == oldlen - 1);
        assert(!cur.live(index)) by {
            if (cur.slot_pos(index) as int) < cur@.len() {
                assert(cur.owners()[pos] == prev.owners().last());
                if (last_owner != index) {
                    assert(cur.owners()[pos] != index);
                }
            }
        }
        assert forall|p: int| 0 <= p < cur@.len() implies #[trigger] cur.owner_ok(p) by {
            assert(prev.owner_ok(p));
            if p == pos {
                assert(cur.owners()[p] == prev.owners().last());
                assert(cur.slot_pos(last_owner) == pos);
            } else {
                let o = prev.owners()[p] as int;
                assert(cur.owners()[p] == prev.owners()[p]);
                assert(o != index) by {
                    if o == index {
                        assert(prev.slot_pos(index) == p);
                    }
                }
                assert(o != last_owner) by {
                    if o == last_owner {
                        assert(prev.slot_pos(last_owner) == p);
                    }
                }
                assert(cur.slot_pos(o) == prev.slot_pos(o));
            }
        }
        assert forall|j: int|
            #![trigger cur.free_slots()[j]]
            0 <= j < cur.free_slots().len() implies {
            &&& (cur.free_slots()[j] as int) < cur.num_slots()
            &&& !cur.live(cur.free_slots()[j] as int)
        } by {
            if j < prev.free_slots().len() {
                let f = prev.free_slots()[j] as int;
                assert(cur.free_slots()[j] == prev.free_slots()[j]);
                assert(!prev.live(f));
                assert(f != index);
                assert(f != last_owner) by {
                    if f == last_owner {
                        assert(prev.live(last_owner));
                    }
                }
                assert(cur.slot_pos(f) == prev.slot_pos(f));
                assert(!cur.live(f)) by {
                    if (cur.slot_pos(f) as int) < cur@.len() {
                        if (cur.slot_pos(f) as int) == pos {
                            assert(cur.owners()[pos] == prev.owners().last());
                        } else {
                            assert(cur.owners()[cur.slot_pos(f) as int] == prev.owners()[cur
                                .slot_pos(f) as int]);
                            assert(prev.owner_ok(cur.slot_pos(f) as int));
                        }
                    }
                }
            } else {
                assert(cur.free_slots()[j] == index as usize);
            }
        }
        assert forall|j: int, k: int| 0 <= j < k < cur.free_slots().len() implies #[trigger] cur
            .free_slots()[j] != #[trigger] cur.free_slots()[k] by {
            if k == cur.free_slots().len() - 1 {
                assert(cur.free_slots()[k] == index as usize);
                assert(!prev.live(prev.free_slots()[j] as int));
            }
        }
        assert forall|i: int|
            0 <= i < cur.num_slots() implies #[trigger] cur.live(i) || cur.free_slots().contains(
            i as usize,
        ) by {
            vstd::std_specs::vec::axiom_spec_len(&prev.indirection_indices);
            if i == index {
                assert(cur.free_slots()[cur.free_slots().len() - 1] == index as usize);
                assert(cur.free_slots().contains(i as usize));
            } else if prev.live(i) {
                let p = prev.slot_pos(i) as int;
                assert(prev.owner_ok(p));
                if i == last_owner {
                    assert(cur.live(i)) by {
                        assert(cur.slot_pos(last_owner) == pos);
                        if pos < cur@.len() {
                            assert(cur.owners()[pos] == prev.owners().last());
                        } else {
                            assert(pos == oldlen - 1);
                        }
                    }
                } else {
                    assert(p != oldlen - 1) by {
                        if p == oldlen - 1 {
                            assert(prev.owners()[p] == i);
                        }
                    }
                    assert(p != pos) by {
                        if p == pos {
                            assert(prev.owners()[pos] == index);
                        }
                    }
                    assert(cur.owners()[p] == prev.owners()[p]);
                    assert(cur.slot_pos(i) == prev.slot_pos(i));
                    assert(cur.live(i));
                }
            } else {
                assert(prev.free_slots().contains(i as usize));
                let j = choose|j: int|
                    0 <= j < prev.free_slots().len() && prev.free_slots()[j] == i as usize;
                assert(cur.free_slots()[j] == i as usize);
                assert(cur.free_slots().contains(i as usize));
            }
        }
        assert forall|h2: SlotMapHandle<T>|
            prev.handle_valid(h2) && h2.idx() != index implies #[trigger] cur.handle_valid(h2)
            && cur.value_of(h2) == prev.value_of(h2) by {
            let i = h2.idx() as int;
            let p = prev.slot_pos(i) as int;
            assert(prev.owner_ok(p));
            if i == last_owner {
                assert(cur.slot_pos(i) == pos);
                assert(cur.slot_gen(i) == prev.slot_gen(i));
                if pos < cur@.len() {
                    assert(cur.owners()[pos] == prev.owners().last());
                    assert(cur@[pos] == prev@[oldlen - 1]);
                } else {
                    assert(pos == oldlen - 1);
                }
                assert(cur.handle_valid(h2));
                assert(cur.value_of(h2) == prev.value_of(h2));
            } else {
                assert(p != oldlen - 1) by {
                    if p == oldlen - 1 {
                        assert(prev.owners()[p] == i);
                    }
                }
                assert(p != pos) by {
                    if p == pos {
                        assert(prev.owners()[pos] == index);
                    }
                }
                assert(cur.owners()[p] == prev.owners()[p]);
                assert(cur@[p] == prev@[p]);
                assert(cur.slot_pos(i) == prev.slot_pos(i));
                assert(cur.slot_gen(i) == prev.slot_gen(i));
                assert(cur.handle_valid(h2));
            }
        }
        assert forall|h2: SlotMapHandle<T>| #[trigger] cur.handle_valid(h2) implies prev
            .handle_valid(h2) && h2.idx() != index by {
            let i = h2.idx() as int;
            assert(i != index);
            let p = cur.slot_pos(i) as int;
            assert(cur.owner_ok(p));
            if i == last_owner {
                assert(cur.slot_pos(i) == pos);
                assert(prev.live(i));
                assert(cur.slot_gen(i) == prev.slot_gen(i));
            } else {
                assert(prev.owner_ok(p)) by {
                    assert(0 <= p < cur@.len());
                }
                assert(cur.owners()[p] == prev.owners()[p] || p == pos);
                if p == pos {
                    assert(cur.owners()[pos] == prev.owners().last());
                    assert(i == last_owner);
                } else {
                    assert(prev.owners()[p] == i as usize);
                    assert(prev.slot_pos(i) == p);
                    assert(prev.live(i));
                }
                assert(cur.slot_gen(i) == prev.slot_gen(i));
            }
        }
    }
}

} // verus!
