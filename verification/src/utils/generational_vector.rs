use vstd::prelude::*;

verus! {

/// A reference to an arena slot that stays valid only while the slot keeps
/// the generation the handle was issued with.
#[derive(Clone, Copy, Debug, PartialEq, Eq, Hash, Structural)]
pub struct Handle {
    pub generation: u32,
    pub index: usize,
}

/// One arena slot: the payload, if any, and the number of payloads that were
/// removed from this slot so far.
#[derive(Debug)]
pub struct Slot<T> {
    pub item: Option<T>,
    pub generation: u32,
}

/// The mathematical content of an arena: its slots by index, and the indices
/// of the freed slots, oldest first.
pub struct Arena<T> {
    pub slots: Seq<Slot<T>>,
    pub free: Seq<usize>,
}

impl<T> Arena<T> {
    /// The arena that holds nothing.
    pub open spec fn empty() -> Self {
        Arena { slots: Seq::empty(), free: Seq::empty() }
    }

    /// Both arenas have the same slots and the same free list.
    pub open spec fn agrees(self, other: Self) -> bool {
        self.slots =~= other.slots && self.free =~= other.free
    }

    /// The free list names exactly the empty slots, each once.
    pub open spec fn wf(self) -> bool {
        &&& self.slots.len() <= usize::MAX
        &&& self.free.no_duplicates()
        &&& forall|k: int|
            0 <= k < self.free.len() ==> (#[trigger] self.free[k]) < self.slots.len()
                && self.slots[self.free[k] as int].item is None
        &&& forall|i: int|
            0 <= i < self.slots.len() && (#[trigger] self.slots[i]).item is None
                ==> self.free.contains(i as usize)
    }

    /// The slot at position `i` holds a payload.
    pub open spec fn occupied(self, i: int) -> bool {
        0 <= i < self.slots.len() && self.slots[i].item is Some
    }

    /// `h` resolves: its slot exists, is occupied and has the handle's generation.
    pub open spec fn live(self, h: Handle) -> bool {
        self.occupied(h.index as int) && self.slots[h.index as int].generation == h.generation
    }

    /// The payload of the slot that `h` points at.
    pub open spec fn value(self, h: Handle) -> T
        recommends
            self.live(h),
    {
        self.slots[h.index as int].item->0
    }

    /// What `h` resolves to, if anything.
    pub open spec fn lookup(self, h: Handle) -> Option<T> {
        if self.live(h) {
            Some(self.value(h))
        } else {
            None
        }
    }

    /// The slot of `h` has moved on to a later generation.
    pub open spec fn stale(self, h: Handle) -> bool {
        h.index < self.slots.len() && self.slots[h.index as int].generation > h.generation
    }

    /// The handle under which the occupant of slot `i` is reached.
    pub open spec fn handle_at(self, i: int) -> Handle {
        Handle { generation: self.slots[i].generation, index: i as usize }
    }

    /// The handle that the next insertion returns: the most recently freed
    /// slot with its current generation, or a new slot of generation 0.
    pub open spec fn next_handle(self) -> Handle {
        if self.free.len() > 0 {
            self.handle_at(self.free.last() as int)
        } else {
            Handle { generation: 0, index: self.slots.len() as usize }
        }
    }

    /// The arena after `item` was inserted.
    pub open spec fn insert(self, item: T) -> Self {
        let h = self.next_handle();
        if self.free.len() > 0 {
            Arena {
                slots: self.slots.update(
                    h.index as int,
                    Slot { item: Some(item), generation: h.generation },
                ),
                free: self.free.drop_last(),
            }
        } else {
            Arena {
                slots: self.slots.push(Slot { item: Some(item), generation: 0 }),
                free: self.free,
            }
        }
    }

    /// The arena after the removal of `h`: unchanged unless `h` is live, else
    /// the slot is emptied, moves to the next generation and is freed.
    pub open spec fn remove(self, h: Handle) -> Self {
        if self.live(h) {
            Arena {
                slots: self.slots.update(
                    h.index as int,
                    Slot { item: None, generation: (h.generation + 1) as u32 },
                ),
                free: self.free.push(h.index),
            }
        } else {
            self
        }
    }

    /// The arena with `item` in place of the payload of the live handle `h`.
    pub open spec fn replace(self, h: Handle, item: T) -> Self {
        if self.live(h) {
            Arena {
                slots: self.slots.update(
                    h.index as int,
                    Slot { item: Some(item), generation: h.generation },
                ),
                free: self.free,
            }
        } else {
            self
        }
    }

    /// The handles of the occupied slots at positions `start <= i < end`, ascending.
    pub open spec fn handles_between(self, start: int, end: int) -> Seq<Handle>
        decreases end - start,
    {
        if end <= start {
            Seq::empty()
        } else if self.occupied(end - 1) {
            self.handles_between(start, end - 1).push(self.handle_at(end - 1))
        } else {
            self.handles_between(start, end - 1)
        }
    }

    /// The handles of the occupied slots from position `start` on, ascending.
    pub open spec fn handles_from(self, start: int) -> Seq<Handle> {
        self.handles_between(start, self.slots.len() as int)
    }

    /// Insertion keeps the arena well formed and makes the new handle resolve
    /// to the inserted payload.
    pub proof fn lemma_insert(self, item: T)
        requires
            self.wf(),
            self.slots.len() < usize::MAX || self.free.len() > 0,
        ensures
            self.insert(item).wf(),
            !self.live(self.next_handle()),
            self.insert(item).live(self.next_handle()),
            self.insert(item).value(self.next_handle()) == item,
            forall|h: Handle|
                h != self.next_handle() ==> self.insert(item).lookup(h) == #[trigger] self.lookup(
                    h,
                ),
    {
        let post = self.insert(item);
        if self.free.len() > 0 {
            let last = self.free.len() - 1;
            let idx = self.free[last];
            assert forall|i: int|
                0 <= i < post.slots.len() && (#[trigger] post.slots[i]).item is None
                implies post.free.contains(i as usize) by {
                assert(self.slots[i].item is None);
                assert(self.free.contains(i as usize));
                let k = choose|k: int| 0 <= k < self.free.len() && self.free[k] == i;
                assert(k != last);
                assert(post.free[k] == i);
            }
            assert forall|k: int| 0 <= k < post.free.len() implies (#[trigger] post.free[k])
                < post.slots.len() && post.slots[post.free[k] as int].item is None by {
                assert(post.free[k] == self.free[k]);
                assert(self.free[k] != self.free[last]);
            }
        }
    }

    /// Removal keeps the arena well formed, makes the handle stale, and leaves
    /// every other handle as it was.
    pub proof fn lemma_remove(self, h: Handle)
        requires
            self.wf(),
            self.live(h) ==> h.generation < u32::MAX,
        ensures
            self.remove(h).wf(),
            !self.remove(h).live(h),
            self.live(h) ==> self.remove(h).stale(h),
            forall|g: Handle| g != h ==> self.remove(h).lookup(g) == #[trigger] self.lookup(g),
    {
        let post = self.remove(h);
        if self.live(h) {
            assert forall|i: int|
                0 <= i < post.slots.len() && (#[trigger] post.slots[i]).item is None
                implies post.free.contains(i as usize) by {
                if i == h.index {
                    assert(post.free[post.free.len() - 1] == h.index);
                } else {
                    assert(self.slots[i].item is None);
                    assert(self.free.contains(i as usize));
                    let k = choose|k: int| 0 <= k < self.free.len() && self.free[k] == i;
                    assert(post.free[k] == i);
                }
            }
            assert forall|k: int| 0 <= k < post.free.len() implies (#[trigger] post.free[k])
                < post.slots.len() && post.slots[post.free[k] as int].item is None by {
                if k < self.free.len() {
                    assert(post.free[k] == self.free[k]);
                }
            }
            assert forall|j: int, k: int|
                0 <= j < post.free.len() && 0 <= k < post.free.len() && j != k
                implies post.free[j] != post.free[k] by {
                if j < self.free.len() && k < self.free.len() {
                    assert(self.free[j] != self.free[k]);
                } else if j < self.free.len() {
                    assert(self.slots[self.free[j] as int].item is None);
                } else {
                    assert(self.slots[self.free[k] as int].item is None);
                }
            }
        }
    }

    /// Replacing a payload keeps the arena well formed and changes what no
    /// other handle resolves to.
    pub proof fn lemma_replace(self, h: Handle, item: T)
        requires
            self.wf(),
        ensures
            self.replace(h, item).wf(),
            self.replace(h, item).slots.len() == self.slots.len(),
            forall|g: Handle| self.replace(h, item).live(g) == #[trigger] self.live(g),
            forall|g: Handle| self.replace(h, item).stale(g) == #[trigger] self.stale(g),
            forall|g: Handle|
                g != h ==> self.replace(h, item).lookup(g) == #[trigger] self.lookup(g),
            self.live(h) ==> self.replace(h, item).value(h) == item,
    {
    }

    /// A handle that was removed stays dead: removing a live handle makes it
    /// stale; a stale handle resolves to nothing, so that removing it again
    /// changes nothing; no insertion, removal or replacement makes a stale
    /// handle fresh again; and the handle that the next insertion returns
    /// differs from every stale handle.
    pub proof fn lemma_removed_handle_stays_dead(self, h: Handle, g: Handle, item: T)
        requires
            self.wf(),
            self.live(g) ==> g.generation < u32::MAX,
        ensures
            self.live(h) && h.generation < u32::MAX ==> self.remove(h).stale(h),
            self.stale(h) ==> self.lookup(h) is None && self.remove(h) == self,
            self.stale(h) ==> self.insert(item).stale(h),
            self.stale(h) ==> self.remove(g).stale(h),
            self.stale(h) ==> self.replace(g, item).stale(h),
            self.stale(h) ==> self.next_handle() != h,
    {
        if self.stale(h) && self.free.len() > 0 {
            assert(self.free[self.free.len() - 1] < self.slots.len());
        }
    }

    /// The handles listed from `start` on are exactly the live handles whose
    /// index is at least `start`, in ascending order of index.
    pub proof fn lemma_handles_between(self, start: int, end: int)
        requires
            0 <= start,
            end <= self.slots.len() <= usize::MAX,
        ensures
            forall|k: int|
                0 <= k < self.handles_between(start, end).len() ==> {
                    let h = #[trigger] self.handles_between(start, end)[k];
                    self.live(h) && start <= h.index < end
                },
            forall|j: int, k: int|
                0 <= j < k < self.handles_between(start, end).len() ==> self.handles_between(
                    start,
                    end,
                )[j].index < self.handles_between(start, end)[k].index,
            forall|h: Handle|
                self.live(h) && start <= h.index < end ==> self.handles_between(
                    start,
                    end,
                ).contains(h),
        decreases end - start,
    {
        if end > start {
            self.lemma_handles_between(start, end - 1);
            let prev = self.handles_between(start, end - 1);
            let all = self.handles_between(start, end);
            assert forall|k: int| 0 <= k < all.len() implies {
                let h = #[trigger] all[k];
                self.live(h) && start <= h.index < end
            } by {
                if k < prev.len() {
                    assert(all[k] == prev[k]);
                }
            }
            assert forall|j: int, k: int| 0 <= j < k < all.len() implies all[j].index
                < all[k].index by {
                assert(all[j] == prev[j]);
                if k < prev.len() {
                    assert(all[k] == prev[k]);
                }
            }
            assert forall|h: Handle| self.live(h) && start <= h.index < end implies all.contains(
                h,
            ) by {
                if h.index == end - 1 {
                    assert(all[all.len() - 1] == h);
                } else {
                    assert(prev.contains(h));
                    let k = choose|k: int| 0 <= k < prev.len() && prev[k] == h;
                    assert(all[k] == h);
                }
            }
        }
    }
}

impl<T: View> Arena<T> {
    /// The arena by the content of its payloads.
    pub open spec fn viewed(self) -> Arena<T::V> {
        Arena {
            slots: self.slots.map_values(
                |s: Slot<T>|
                    Slot {
                        item: match s.item {
                            Some(v) => Some(v@),
                            None => None,
                        },
                        generation: s.generation,
                    },
            ),
            free: self.free,
        }
    }

    /// What the view of an arena makes of the arena's operations.
    pub proof fn lemma_viewed(self, h: Handle, v: T)
        ensures
            self.replace(h, v).viewed().agrees(self.viewed().replace(h, v@)),
            self.wf() ==> self.insert(v).viewed().agrees(self.viewed().insert(v@)),
            self.remove(h).viewed().agrees(self.viewed().remove(h)),
            self.viewed().live(h) == self.live(h),
            self.live(h) ==> self.viewed().value(h) == self.value(h)@,
            self.wf() ==> self.viewed().next_handle() == self.next_handle(),
            self.viewed().wf() == self.wf(),
            self.viewed().slots.len() == self.slots.len(),
    {
        let va = self.viewed();
        if va.wf() {
            assert forall|i: int|
                0 <= i < self.slots.len() && (#[trigger] self.slots[i]).item is None
                implies self.free.contains(i as usize) by {
                assert(va.slots[i].item is None);
            }
            assert forall|k: int| 0 <= k < self.free.len() implies (#[trigger] self.free[k])
                < self.slots.len() && self.slots[self.free[k] as int].item is None by {
                assert(va.free[k] < va.slots.len());
                assert(va.slots[va.free[k] as int].item is None);
            }
        }
        if self.wf() {
            if self.free.len() > 0 {
                assert(self.free[self.free.len() - 1] < self.slots.len());
            }
            assert forall|i: int| 0 <= i < va.slots.len() && (#[trigger] va.slots[i]).item is None
                implies va.free.contains(i as usize) by {
                assert(self.slots[i].item is None);
            }
            assert forall|k: int| 0 <= k < va.free.len() implies (#[trigger] va.free[k])
                < va.slots.len() && va.slots[va.free[k] as int].item is None by {
                assert(self.free[k] < self.slots.len());
            }
        }
    }
}

/// Generational vector.
/// * Adding an item first fills a freed slot, most recently freed first.
/// * Removing an item clears its slot and frees it for reuse.
/// * A handle never resolves to an item that replaced a removed one.
#[derive(Debug)]
pub struct GenVec<T> {
    items: Vec<Slot<T>>,
    freed: Vec<usize>,
}

impl<T> View for GenVec<T> {
    type V = Arena<T>;

    closed spec fn view(&self) -> Arena<T> {
        Arena { slots: self.items@, free: self.freed@ }
    }
}

impl<T> GenVec<T> {
    /// A vector has no more slots than an index can count.
    pub proof fn lemma_slots_bounded(&self)
        ensures
            self@.slots.len() <= usize::MAX,
    {
        assert(self.items.len() == self.items@.len());
    }

    /// A vector without slots.
    pub fn new() -> (v: Self)
        ensures
            v@ == Arena::<T>::empty(),
            v@.wf(),
    {
        Self { items: Vec::new(), freed: Vec::new() }
    }

    /// Adds an item to the vector.
    pub fn add(&mut self, item: T) -> (h: Handle)
        requires
            old(self)@.wf(),
        ensures
            final(self)@ == old(self)@.insert(item),
            h == old(self)@.next_handle(),
            final(self)@.wf(),
    {
        proof {
            assert(self.items.len() == self.items@.len());
        }
        if let Some(idx) = self.freed.pop() {
            // replacing a freed item
            assert(old(self)@.free[old(self)@.free.len() - 1] == idx);
            let slot = &mut self.items[idx];
            slot.item = Some(item);
            let h = Handle { generation: slot.generation, index: idx };
            proof {
                old(self)@.lemma_insert(item);
            }
            h
        } else {
            // no freed items, creates a new slot
            let idx = self.items.len();
            self.items.push(Slot { generation: 0, item: Some(item) });
            proof {
                assert(self.items.len() == self.items@.len());
                old(self)@.lemma_insert(item);
            }
            Handle { generation: 0, index: idx }
        }
    }

    /// Removes an item and returns it.
    /// * If the handle does not resolve, returns None and changes nothing.
    pub fn remove(&mut self, handle: Handle) -> (out: Option<T>)
        requires
            old(self)@.wf(),
            old(self)@.live(handle) ==> handle.generation < u32::MAX,
        ensures
            final(self)@ == old(self)@.remove(handle),
            out == old(self)@.lookup(handle),
            final(self)@.wf(),
    {
        if handle.index >= self.items.len() {
            return None;
        }  // item never existed

        if self.items[handle.index].generation != handle.generation
            || self.items[handle.index].item.is_none() {
            return None;
        }  // item already removed

        let slot = &mut self.items[handle.index];
        slot.generation += 1;  // increment generation for next fill item to use
        let out = slot.item.take();
        self.freed.push(handle.index);
        proof {
            old(self)@.lemma_remove(handle);
        }
        out
    }

    /// Get a mutable reference to the item.
    /// * If the handle does not resolve, returns None.
    pub fn get_mut(&mut self, handle: Handle) -> (r: Option<&mut T>)
        ensures
            match r {
                Some(item) => {
                    &&& old(self)@.live(handle)
                    &&& *item == old(self)@.value(handle)
                    &&& final(self)@.agrees(old(self)@.replace(handle, *final(item)))
                    &&& old(self)@.wf() ==> final(self)@.wf()
                },
                None => !old(self)@.live(handle) && final(self)@.agrees(old(self)@),
            },
    {
        proof {
            assert forall|item: T| self@.wf() implies #[trigger] self@.replace(handle, item).wf() by {
                self@.lemma_replace(handle, item);
            }
        }
        if handle.index >= self.items.len() {
            return None;
        }
        if self.items[handle.index].generation != handle.generation {
            return None;
        }
        let slot = &mut self.items[handle.index];
        slot.item.as_mut()
    }

    /// Get a reference to the item.
    /// * If the handle does not resolve, returns None.
    pub fn get(&self, handle: Handle) -> (r: Option<&T>)
        ensures
            match r {
                Some(item) => self@.live(handle) && *item == self@.value(handle),
                None => !self@.live(handle),
            },
    {
        if handle.index >= self.items.len() {
            return None;
        }
        let slot = &self.items[handle.index];
        if slot.generation != handle.generation {
            return None;
        }
        slot.item.as_ref()
    }

    /// The items with their handles, in ascending order of index.
    pub fn iter(&self) -> (r: Vec<(Handle, &T)>)
        ensures
            r@.len() == self@.handles_from(0).len(),
            forall|k: int|
                0 <= k < r@.len() ==> (#[trigger] r@[k]).0 == self@.handles_from(0)[k] && *r@[k].1
                    == self@.value(r@[k].0),
    {
        self.iter_from(0)
    }

    /// The items at positions from `start_index` on with their handles, in
    /// ascending order of index.
    pub fn iter_from(&self, start_index: usize) -> (r: Vec<(Handle, &T)>)
        ensures
            r@.len() == self@.handles_from(start_index as int).len(),
            forall|k: int|
                0 <= k < r@.len() ==> (#[trigger] r@[k]).0 == self@.handles_from(
                    start_index as int,
                )[k] && *r@[k].1 == self@.value(r@[k].0),
    {
        let mut out: Vec<(Handle, &T)> = Vec::new();
        let mut idx: usize = start_index;
        while idx < self.items.len()
            invariant
                start_index <= idx,
                idx <= self.items.len() || idx == start_index,
                out@.len() == self@.handles_between(start_index as int, idx as int).len(),
                forall|k: int|
                    0 <= k < out@.len() ==> (#[trigger] out@[k]).0 == self@.handles_between(
                        start_index as int,
                        idx as int,
                    )[k] && *out@[k].1 == self@.value(out@[k].0),
            decreases self.items.len() - idx,
        {
            let slot = &self.items[idx];
            if let Some(val) = slot.item.as_ref() {
                out.push((Handle { index: idx, generation: slot.generation }, val));
            }
            idx += 1;
        }
        proof {
            let n = self@.slots.len() as int;
            assert(n == self.items.len());
            if idx > n {
                assert(self@.handles_between(start_index as int, idx as int) =~= Seq::empty());
                assert(self@.handles_between(start_index as int, n) =~= Seq::empty());
            }
        }
        out
    }

    /// The handles of the items at positions from `start_index` on, in
    /// ascending order of index. Each of them resolves with `get_mut`.
    pub fn iter_mut_from(&mut self, start_index: usize) -> (r: Vec<Handle>)
        ensures
            r@ == old(self)@.handles_from(start_index as int),
            final(self)@ == old(self)@,
    {
        let mut out: Vec<Handle> = Vec::new();
        let mut idx: usize = start_index;
        while idx < self.items.len()
            invariant
                start_index <= idx,
                idx <= self.items.len() || idx == start_index,
                self@ == old(self)@,
                out@ == self@.handles_between(start_index as int, idx as int),
            decreases self.items.len() - idx,
        {
            if self.items[idx].item.is_some() {
                out.push(Handle { index: idx, generation: self.items[idx].generation });
            }
            idx += 1;
        }
        proof {
            let n = self@.slots.len() as int;
            assert(n == self.items.len());
            if idx > n {
                assert(self@.handles_between(start_index as int, idx as int) =~= Seq::empty());
                assert(self@.handles_between(start_index as int, n) =~= Seq::empty());
            }
        }
        out
    }

    /// The occupant of the slot at `idx`, whatever the slot's generation.
    pub fn get_index(&self, idx: usize) -> (r: Option<&T>)
        ensures
            match r {
                Some(item) => self@.occupied(idx as int) && *item == self@.slots[idx as int].item->0,
                None => !self@.occupied(idx as int),
            },
    {
        if idx >= self.items.len() {
            return None;
        }
        self.items[idx].item.as_ref()
    }

    /// The occupant of the slot at `idx`, mutably, whatever the slot's generation.
    pub fn get_mut_index(&mut self, idx: usize) -> (r: Option<&mut T>)
        ensures
            match r {
                Some(item) => {
                    &&& old(self)@.occupied(idx as int)
                    &&& *item == old(self)@.slots[idx as int].item->0
                    &&& final(self)@.agrees(
                        old(self)@.replace(old(self)@.handle_at(idx as int), *final(item)),
                    )
                    &&& old(self)@.wf() ==> final(self)@.wf()
                },
                None => !old(self)@.occupied(idx as int) && final(self)@.agrees(old(self)@),
            },
    {
        proof {
            let h = self@.handle_at(idx as int);
            assert forall|item: T| self@.wf() implies #[trigger] self@.replace(h, item).wf() by {
                self@.lemma_replace(h, item);
            }
        }
        if idx >= self.items.len() {
            return None;
        }
        let slot = &mut self.items[idx];
        slot.item.as_mut()
    }

    /// The number of slots, occupied or not.
    pub fn slot_count(&self) -> (n: usize)
        ensures
            n == self@.slots.len(),
    {
        self.items.len()
    }

    /// The number of freed slots that wait for reuse.
    pub fn freed_count(&self) -> (n: usize)
        ensures
            n == self@.free.len(),
    {
        self.freed.len()
    }
}

} // verus!
