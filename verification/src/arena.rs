use crate::storage::vec_capacity;
use std::marker::PhantomData;
use vstd::prelude::*;

verus! {

/// A typed handle into an [`Arena`]: the number of the slot that holds the item.
#[derive(Debug)]
pub struct ArenaId<T> {
    pub index: usize,
    pub _phantom: PhantomData<T>,
}

impl<T> ArenaId<T> {
    pub fn new(index: usize) -> (id: Self)
        ensures
            id.index == index,
    {
        Self { index, _phantom: PhantomData }
    }

    pub fn index(&self) -> (i: usize)
        ensures
            i == self.index,
    {
        self.index
    }
}

impl<T> Clone for ArenaId<T> {
    fn clone(&self) -> (id: Self)
        ensures
            id.index == self.index,
    {
        Self { index: self.index, _phantom: PhantomData }
    }
}

impl<T> Copy for ArenaId<T> {}

impl<T> PartialEq for ArenaId<T> {
    fn eq(&self, other: &Self) -> (r: bool) {
        self.index == other.index
    }
}

impl<T> vstd::std_specs::cmp::PartialEqSpecImpl for ArenaId<T> {
    open spec fn obeys_eq_spec() -> bool {
        true
    }

    open spec fn eq_spec(&self, other: &Self) -> bool {
        self.index == other.index
    }
}

impl<T> Eq for ArenaId<T> {}

impl<T> std::hash::Hash for ArenaId<T> {
    /// Feeds the slot number to the hasher through `usize`'s own `Hash::hash`, so
    /// that two handles which are equal hash alike. Nothing is claimed of the
    /// hasher's state.
    #[verifier::external_body]
    fn hash<H: std::hash::Hasher>(&self, state: &mut H) {
        self.index.hash(state);
    }
}

/// A slab of items addressed by [`ArenaId`]. A removed item leaves an empty slot
/// behind, and the most recently emptied slot is the first to be filled again.
#[derive(Debug, Clone, PartialEq)]
pub struct Arena<T> {
    items: Vec<Option<T>>,
    free_slots: Vec<usize>,
}

impl<T> Default for Arena<T> {
    fn default() -> (arena: Self)
        ensures
            arena@ == Seq::<Option<T>>::empty(),
            arena.free() == Seq::<usize>::empty(),
            arena.wf(),
    {
        Arena { items: Vec::new(), free_slots: Vec::new() }
    }
}

impl<T> Arena<T> {
    /// The slots in order: `Some` for a live item, `None` for an empty slot.
    pub closed spec fn view(&self) -> Seq<Option<T>> {
        self.items@
    }

    /// The empty slots that `insert` will fill, the next one last.
    pub closed spec fn free(&self) -> Seq<usize> {
        self.free_slots@
    }

    /// What the handle with slot number `index` stands for: the item in that slot,
    /// or `None` where the slot is empty or beyond the end.
    pub open spec fn slot(&self, index: usize) -> Option<T> {
        if index < self@.len() {
            self@[index as int]
        } else {
            None
        }
    }

    /// The free list names empty slots only, and each of them once.
    pub closed spec fn wf(&self) -> bool {
        &&& forall|k: int|
            0 <= k < self.free_slots@.len() ==> (#[trigger] self.free_slots@[k] as int)
                < self.items@.len() && self.items@[self.free_slots@[k] as int] is None
        &&& forall|j: int, k: int|
            0 <= j < k < self.free_slots@.len() ==> self.free_slots@[j] != self.free_slots@[k]
    }

    pub fn new() -> (arena: Self)
        ensures
            arena@ == Seq::<Option<T>>::empty(),
            arena.free() == Seq::<usize>::empty(),
            arena.wf(),
    {
        Arena { items: Vec::new(), free_slots: Vec::new() }
    }

    /// Stores `item` in the slot that was emptied last, or in a new slot at the end
    /// where none is empty, and returns that slot's handle.
    pub fn insert(&mut self, item: T) -> (id: ArenaId<T>)
        requires
            old(self).wf(),
        ensures
            final(self).wf(),
            old(self).free().len() > 0 ==> {
                &&& id.index == old(self).free().last()
                &&& id.index < old(self)@.len()
                &&& final(self)@ == old(self)@.update(id.index as int, Some(item))
                &&& final(self).free() == old(self).free().drop_last()
            },
            old(self).free().len() == 0 ==> {
                &&& id.index == old(self)@.len()
                &&& final(self)@ == old(self)@.push(Some(item))
                &&& final(self).free() == old(self).free()
            },
            final(self).slot(id.index) == Some(item),
            old(self).slot(id.index) is None,
            forall|other: usize|
                other != id.index ==> #[trigger] final(self).slot(other) == old(self).slot(other),
    {
        match self.free_slots.pop() {
            Some(index) => {
                self.items[index] = Some(item);
                ArenaId::new(index)
            },
            None => {
                let index: usize = self.items.len();
                self.items.push(Some(item));
                ArenaId::new(index)
            },
        }
    }

    /// Takes the item out of the slot that `id` names and marks the slot as the
    /// next to be filled. Returns `None`, and changes nothing, where the slot is
    /// empty or beyond the end.
    pub fn remove(&mut self, id: &ArenaId<T>) -> (removed: Option<T>)
        requires
            old(self).wf(),
        ensures
            final(self).wf(),
            removed == old(self).slot(id.index),
            removed is Some ==> {
                &&& final(self)@ == old(self)@.update(id.index as int, None)
                &&& final(self).free() == old(self).free().push(id.index)
            },
            removed is None ==> {
                &&& final(self)@ == old(self)@
                &&& final(self).free() == old(self).free()
            },
    {
        if id.index < self.items.len() {
            let removed_item = self.items[id.index].take();
            if removed_item.is_some() {
                self.free_slots.push(id.index);
            }
            removed_item
        } else {
            None
        }
    }

    /// A mutable borrow of the item that `id` names. What the caller leaves in it
    /// is what the slot holds afterwards; every other slot and the free list stay.
    pub fn get_mut(&mut self, id: &ArenaId<T>) -> (r: Option<&mut T>)
        requires
            old(self).wf(),
        ensures
            final(self).wf(),
            final(self).free() == old(self).free(),
            match r {
                Some(item) => {
                    &&& old(self).slot(id.index) == Some(*item)
                    &&& final(self)@ == old(self)@.update(id.index as int, Some(*final(item)))
                },
                None => {
                    &&& old(self).slot(id.index) is None
                    &&& final(self)@ == old(self)@
                },
            },
    {
        if id.index < self.items.len() {
            self.items[id.index].as_mut()
        } else {
            None
        }
    }

    /// Makes room for `size` more slots. The contents do not change.
    pub fn reserve(&mut self, size: usize)
        ensures
            final(self)@ == old(self)@,
            final(self).free() == old(self).free(),
            final(self).wf() == old(self).wf(),
    {
        self.items.reserve(size);
    }

    /// Starts a walk over the live items, from the first slot.
    pub fn iter(&self) -> (it: ArenaIterator<'_, T>)
        ensures
            it.slots() == self@,
            it.position() == 0,
    {
        ArenaIterator { arena: self, current: 0 }
    }

    /// Starts a walk over the live items by mutable borrow, from the first slot.
    pub fn iter_mut(&mut self) -> (it: ArenaIterMut<'_, T>)
        ensures
            *it.arena == *old(self),
            it.current == 0,
            *final(self) == *final(it.arena),
    {
        ArenaIterMut { arena: self, current: 0 }
    }

    /// Starts a walk that hands the live items out by value, from the first slot.
    pub fn into_iter(self) -> (it: ArenaIntoIterator<T>)
        ensures
            it.slots() == self@,
            it.position() == 0,
    {
        ArenaIntoIterator { arena: self, current: 0 }
    }

    /// The bytes that an arena with room for `capacity` slots occupies: the
    /// handle itself and the room for the slots, capped at the largest `usize`.
    pub open spec fn size_with(capacity: nat) -> nat {
        let bytes = vstd::layout::size_of::<&Arena<T>>() + capacity * vstd::layout::size_of::<
            Option<T>,
        >();
        if bytes > usize::MAX {
            usize::MAX as nat
        } else {
            bytes
        }
    }

    /// The bytes this arena occupies. How much room is allocated is up to the
    /// allocator; it is room for every slot in use at the least.
    pub fn mem_size(&self) -> (n: usize)
        ensures
            exists|capacity: nat| capacity >= self@.len() && n == Self::size_with(capacity),
    {
        let own: usize = std::mem::size_of::<&Arena<T>>();
        let per_slot: usize = std::mem::size_of::<Option<T>>();
        let capacity: usize = vec_capacity(&self.items);
        let n = match capacity.checked_mul(per_slot) {
            Some(slots) => match own.checked_add(slots) {
                Some(total) => total,
                None => usize::MAX,
            },
            None => usize::MAX,
        };
        assert(capacity as nat >= self@.len() && n == Self::size_with(capacity as nat));
        n
    }

    pub fn len(&self) -> (n: usize)
        ensures
            n == self@.len(),
    {
        self.items.len()
    }

    pub fn contains(&self, id: &ArenaId<T>) -> (b: bool)
        ensures
            b == self.slot(id.index).is_some(),
    {
        id.index < self.items.len() && self.items[id.index].is_some()
    }

    pub fn get(&self, id: &ArenaId<T>) -> (r: Option<&T>)
        ensures
            match r {
                Some(item) => self.slot(id.index) == Some(*item),
                None => self.slot(id.index) is None,
            },
    {
        if id.index < self.items.len() {
            self.items[id.index].as_ref()
        } else {
            None
        }
    }
}

/// Whether no slot of `slots` from `from` up to, not including, `to` holds an item.
pub open spec fn all_empty<T>(slots: Seq<Option<T>>, from: int, to: int) -> bool {
    forall|k: int| from <= k < to && 0 <= k < slots.len() ==> (#[trigger] slots[k]) is None
}

/// The numbers of the slots at or after `from` that hold an item, ascending.
pub open spec fn live_indices<T>(slots: Seq<Option<T>>, from: int) -> Seq<int>
    decreases slots.len() - from,
{
    if from < 0 || from >= slots.len() {
        Seq::empty()
    } else if slots[from] is Some {
        seq![from] + live_indices(slots, from + 1)
    } else {
        live_indices(slots, from + 1)
    }
}

/// Empty slots contribute nothing: skipping a run of them leaves the live
/// indices as they were.
pub proof fn lemma_live_indices_skip<T>(slots: Seq<Option<T>>, from: int, to: int)
    requires
        0 <= from <= to,
        all_empty(slots, from, to),
    ensures
        live_indices(slots, from) == live_indices(slots, to),
    decreases to - from,
{
    if from < to {
        if from < slots.len() {
            assert(slots[from] is None);
            lemma_live_indices_skip(slots, from + 1, to);
        } else {
            assert(live_indices(slots, from) == Seq::<int>::empty());
            assert(live_indices(slots, to) == Seq::<int>::empty());
        }
    }
}

/// A walk over the live items of an arena in slot order, by shared borrow.
pub struct ArenaIterator<'a, T> {
    arena: &'a Arena<T>,
    current: usize,
}

impl<'a, T> ArenaIterator<'a, T> {
    /// The slots of the arena that is walked.
    pub closed spec fn slots(&self) -> Seq<Option<T>> {
        self.arena@
    }

    /// The number of the first slot that has not been looked at yet.
    pub closed spec fn position(&self) -> int {
        self.current as int
    }

    /// The next live item at or after the position, with its handle; `None`
    /// once only empty slots are left.
    pub fn next(&mut self) -> (r: Option<(ArenaId<T>, &'a T)>)
        ensures
            final(self).slots() == old(self).slots(),
            match r {
                Some((id, item)) => {
                    &&& old(self).position() <= id.index < old(self).slots().len()
                    &&& old(self).slots()[id.index as int] == Some(*item)
                    &&& all_empty(old(self).slots(), old(self).position(), id.index as int)
                    &&& final(self).position() == id.index + 1
                },
                None => {
                    &&& all_empty(
                        old(self).slots(),
                        old(self).position(),
                        old(self).slots().len() as int,
                    )
                    &&& final(self).position() >= old(self).slots().len()
                    &&& final(self).position() >= old(self).position()
                },
            },
    {
        while self.current < self.arena.items.len()
            invariant
                self.arena == old(self).arena,
                old(self).current <= self.current,
                all_empty(self.arena@, old(self).current as int, self.current as int),
            decreases self.arena.items.len() - self.current,
        {
            let index: usize = self.current;
            self.current += 1;
            match &self.arena.items[index] {
                Some(item) => {
                    return Some((ArenaId::new(index), item));
                },
                None => {},
            }
        }
        None
    }
}

impl<'a, T> ArenaIterator<'a, T> {
    /// Every live item from the position on, with its handle, in slot order.
    pub fn collect(self) -> (out: Vec<(ArenaId<T>, &'a T)>)
        ensures
            out@.len() == live_indices(self.slots(), self.position()).len(),
            forall|i: int|
                0 <= i < out@.len() ==> {
                    let k = live_indices(self.slots(), self.position())[i];
                    &&& 0 <= k < self.slots().len()
                    &&& (#[trigger] out@[i]).0.index == k
                    &&& self.slots()[k] == Some(*out@[i].1)
                },
    {
        let ghost slots = self.slots();
        let ghost start = self.position();
        let mut it = self;
        let mut out: Vec<(ArenaId<T>, &'a T)> = Vec::new();
        let mut done = false;
        while !done
            invariant
                it.slots() == slots,
                0 <= start <= it.position(),
                live_indices(slots, start) == out@.map_values(
                    |e: (ArenaId<T>, &'a T)| e.0.index as int,
                ) + live_indices(slots, it.position()),
                forall|i: int|
                    0 <= i < out@.len() ==> 0 <= (#[trigger] out@[i]).0.index < slots.len()
                        && slots[out@[i].0.index as int] == Some(*out@[i].1),
                done ==> live_indices(slots, it.position()) == Seq::<int>::empty(),
            decreases
                    (if done {
                        0
                    } else if it.position() <= slots.len() {
                        slots.len() + 2 - it.position()
                    } else {
                        1
                    }),
        {
            let ghost before = it.position();
            let ghost prefix = out@.map_values(|e: (ArenaId<T>, &'a T)| e.0.index as int);
            match it.next() {
                Some((id, item)) => {
                    proof {
                        lemma_live_indices_skip(slots, before, id.index as int);
                    }
                    out.push((id, item));
                    assert(out@.map_values(|e: (ArenaId<T>, &'a T)| e.0.index as int)
                        == prefix.push(id.index as int));
                    assert(prefix.push(id.index as int) + live_indices(slots, id.index + 1)
                        == prefix + live_indices(slots, id.index as int));
                },
                None => {
                    proof {
                        if before < slots.len() {
                            lemma_live_indices_skip(slots, before, slots.len() as int);
                        }
                    }
                    done = true;
                },
            }
        }
        proof {
            let live = live_indices(slots, start);
            let ids = out@.map_values(|e: (ArenaId<T>, &'a T)| e.0.index as int);
            assert(ids + Seq::<int>::empty() == ids);
            assert forall|i: int| 0 <= i < out@.len() implies live[i] == (
            #[trigger] out@[i]).0.index by {
                assert(ids[i] == out@[i].0.index);
            }
        }
        out
    }
}

/// A walk over the live items of an arena in slot order, by mutable borrow.
pub struct ArenaIterMut<'a, T> {
    pub arena: &'a mut Arena<T>,
    pub current: usize,
}

impl<'a, T> ArenaIterMut<'a, T> {
    /// The slots of the arena that is walked, as they stand now.
    pub open spec fn slots(&self) -> Seq<Option<T>> {
        self.arena@
    }

    /// The number of the first slot that has not been looked at yet.
    pub open spec fn position(&self) -> int {
        self.current as int
    }

    /// The next live item at or after the position, with its handle, borrowed
    /// mutably; `None` once only empty slots are left.
    pub fn next(&mut self) -> (r: Option<(ArenaId<T>, &mut T)>)
        ensures
            *final(final(self).arena) == *final(old(self).arena),
            final(self).arena.free() == old(self).arena.free(),
            old(self).arena.wf() ==> final(self).arena.wf(),
            match r {
                Some((id, item)) => {
                    &&& old(self).position() <= id.index < old(self).slots().len()
                    &&& old(self).slots()[id.index as int] == Some(*item)
                    &&& all_empty(old(self).slots(), old(self).position(), id.index as int)
                    &&& final(self).position() == id.index + 1
                    &&& final(self).slots() == old(self).slots().update(
                        id.index as int,
                        Some(*final(item)),
                    )
                },
                None => {
                    &&& all_empty(
                        old(self).slots(),
                        old(self).position(),
                        old(self).slots().len() as int,
                    )
                    &&& final(self).position() >= old(self).slots().len()
                    &&& final(self).position() >= old(self).position()
                    &&& final(self).slots() == old(self).slots()
                },
            },
    {
        while self.current < self.arena.items.len()
            invariant
                *final(self.arena) == *final(old(self).arena),
                self.arena.free() == old(self).arena.free(),
                self.arena.wf() == old(self).arena.wf(),
                self.arena@ == old(self).arena@,
                old(self).current <= self.current,
                all_empty(self.arena@, old(self).current as int, self.current as int),
            decreases self.arena.items.len() - self.current,
        {
            let index: usize = self.current;
            self.current += 1;
            if self.arena.items[index].is_some() {
                let found = self.arena.items[index].as_mut();
                match found {
                    Some(item) => {
                        return Some((ArenaId::new(index), item));
                    },
                    None => {
                        return None;
                    },
                }
            }
        }
        None
    }
}

/// A walk over the live items of an arena in slot order that takes each item out.
pub struct ArenaIntoIterator<T> {
    arena: Arena<T>,
    current: usize,
}

impl<T> ArenaIntoIterator<T> {
    /// The slots of the arena that is walked, as they stand now.
    pub closed spec fn slots(&self) -> Seq<Option<T>> {
        self.arena@
    }

    /// The number of the first slot that has not been looked at yet.
    pub closed spec fn position(&self) -> int {
        self.current as int
    }

    /// The next live item at or after the position, with its handle; its slot is
    /// left empty. `None` once only empty slots are left.
    pub fn next(&mut self) -> (r: Option<(ArenaId<T>, T)>)
        ensures
            match r {
                Some((id, item)) => {
                    &&& old(self).position() <= id.index < old(self).slots().len()
                    &&& old(self).slots()[id.index as int] == Some(item)
                    &&& all_empty(old(self).slots(), old(self).position(), id.index as int)
                    &&& final(self).position() == id.index + 1
                    &&& final(self).slots() == old(self).slots().update(id.index as int, None)
                },
                None => {
                    &&& all_empty(
                        old(self).slots(),
                        old(self).position(),
                        old(self).slots().len() as int,
                    )
                    &&& final(self).position() >= old(self).slots().len()
                    &&& final(self).position() >= old(self).position()
                    &&& final(self).slots() == old(self).slots()
                },
            },
    {
        while self.current < self.arena.items.len()
            invariant
                self.arena@ == old(self).arena@,
                old(self).current <= self.current,
                all_empty(self.arena@, old(self).current as int, self.current as int),
            decreases self.arena.items.len() - self.current,
        {
            let index: usize = self.current;
            self.current += 1;
            match self.arena.items[index].take() {
                Some(item) => {
                    return Some((ArenaId::new(index), item));
                },
                None => {
                    assert(self.arena@ == old(self).arena@);
                },
            }
        }
        None
    }
}

impl<T> ArenaIntoIterator<T> {
    /// Every live item from the position on, with its handle, in slot order.
    pub fn collect(self) -> (out: Vec<(ArenaId<T>, T)>)
        ensures
            out@.len() == live_indices(self.slots(), self.position()).len(),
            forall|i: int|
                0 <= i < out@.len() ==> {
                    let k = live_indices(self.slots(), self.position())[i];
                    &&& 0 <= k < self.slots().len()
                    &&& (#[trigger] out@[i]).0.index == k
                    &&& self.slots()[k] == Some(out@[i].1)
                },
    {
        let ghost slots = self.slots();
        let ghost start = self.position();
        let mut it = self;
        let mut out: Vec<(ArenaId<T>, T)> = Vec::new();
        let mut done = false;
        while !done
            invariant
                it.slots().len() == slots.len(),
                forall|k: int|
                    it.position() <= k < slots.len() ==> (#[trigger] it.slots()[k]) == slots[k],
                0 <= start <= it.position(),
                live_indices(slots, start) == out@.map_values(|e: (ArenaId<T>, T)| e.0.index as int)
                    + live_indices(slots, it.position()),
                forall|i: int|
                    0 <= i < out@.len() ==> 0 <= (#[trigger] out@[i]).0.index < slots.len()
                        && slots[out@[i].0.index as int] == Some(out@[i].1),
                done ==> live_indices(slots, it.position()) == Seq::<int>::empty(),
            decreases
                    (if done {
                        0
                    } else if it.position() <= slots.len() {
                        slots.len() + 2 - it.position()
                    } else {
                        1
                    }),
        {
            let ghost before = it.position();
            let ghost prefix = out@.map_values(|e: (ArenaId<T>, T)| e.0.index as int);
            let ghost now = it.slots();
            match it.next() {
                Some((id, item)) => {
                    proof {
                        assert forall|k: int|
                            before <= k < id.index && 0 <= k < slots.len() implies (
                        #[trigger] slots[k]) is None by {
                            assert(now[k] == slots[k]);
                        }
                        lemma_live_indices_skip(slots, before, id.index as int);
                    }
                    out.push((id, item));
                    assert(out@.map_values(|e: (ArenaId<T>, T)| e.0.index as int) == prefix.push(
                        id.index as int,
                    ));
                    assert(prefix.push(id.index as int) + live_indices(slots, id.index + 1)
                        == prefix + live_indices(slots, id.index as int));
                },
                None => {
                    proof {
                        if before < slots.len() {
                            assert forall|k: int|
                                before <= k < slots.len() && 0 <= k < slots.len() implies (
                            #[trigger] slots[k]) is None by {
                                assert(now[k] == slots[k]);
                            }
                            lemma_live_indices_skip(slots, before, slots.len() as int);
                        }
                    }
                    done = true;
                },
            }
        }
        proof {
            let live = live_indices(slots, start);
            let ids = out@.map_values(|e: (ArenaId<T>, T)| e.0.index as int);
            assert(ids + Seq::<int>::empty() == ids);
            assert forall|i: int| 0 <= i < out@.len() implies live[i] == (
            #[trigger] out@[i]).0.index by {
                assert(ids[i] == out@[i].0.index);
            }
        }
        out
    }
}

} // verus!
