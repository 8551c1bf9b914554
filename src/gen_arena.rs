//! Fixed-capacity arena whose handles carry a generation.
//!
//! Freeing a slot bumps its generation, so every handle taken before the free
//! stops resolving. A slot whose generation reached `u64::MAX` is retired
//! instead of being recycled: a generation is never handed out twice.
use vstd::prelude::*;

use crate::free_list::FreeList;

verus! {

/// A reference to an arena slot: its index and the generation it was made for.
#[derive(Clone, Copy, Debug, PartialEq, Eq, Structural)]
pub struct Handle {
    pub idx: usize,
    pub gen: u64,
}

impl Handle {
    /// A handle that no arena resolves.
    pub fn new_invalid() -> (r: Handle)
        ensures
            r.idx == usize::MAX,
            r.gen == 0,
    {
        Handle { idx: usize::MAX, gen: 0 }
    }

    pub fn idx(&self) -> (r: usize)
        ensures
            r == self.idx,
    {
        self.idx
    }
}

/// One cell of the arena: its current generation and, when occupied, its value.
pub struct Slot<T> {
    pub gen: u64,
    pub value: Option<T>,
}

pub struct GenArena<T> {
    slots: Vec<Slot<T>>,
    free: FreeList,
}

/// True when the slot can be handed out: empty and not retired.
pub open spec fn slot_available<T>(s: Slot<T>) -> bool {
    s.value is None && s.gen < u64::MAX
}

/// How an arena may change between any two moments: the number of slots is
/// fixed, generations never go down, and a retired slot stays empty.
pub open spec fn evolves<T>(a: Seq<Slot<T>>, b: Seq<Slot<T>>) -> bool {
    &&& a.len() == b.len()
    &&& forall|i: int| 0 <= i < a.len() ==> #[trigger] a[i].gen <= b[i].gen
    &&& forall|i: int|
        0 <= i < a.len() && a[i].gen == u64::MAX && a[i].value is None ==> (#[trigger] b[i]).value is None
}

pub open spec fn slot_live<T>(s: Seq<Slot<T>>, h: Handle) -> bool {
    &&& h.idx < s.len()
    &&& s[h.idx as int].value is Some
    &&& s[h.idx as int].gen == h.gen
}

/// The live handles of an arena and what each resolves to.
pub open spec fn live_map<T>(s: Seq<Slot<T>>) -> Map<Handle, T> {
    Map::new(|h: Handle| slot_live(s, h), |h: Handle| s[h.idx as int].value->Some_0)
}

/// Storing a value in a slot under the slot's own generation makes exactly
/// that handle resolve to it.
pub proof fn lemma_store<T>(s: Seq<Slot<T>>, h: Handle, v: T)
    requires
        h.idx < s.len(),
        s[h.idx as int].value is None || s[h.idx as int].gen == h.gen,
    ensures
        live_map(s.update(h.idx as int, Slot { gen: h.gen, value: Some(v) })) == live_map(s).insert(h, v),
{
    assert(live_map(s.update(h.idx as int, Slot { gen: h.gen, value: Some(v) })) =~= live_map(s).insert(h, v));
}

/// Emptying the slot of a live handle removes that handle and no other.
pub proof fn lemma_clear<T>(s: Seq<Slot<T>>, h: Handle, g: u64)
    requires
        slot_live(s, h),
    ensures
        live_map(s.update(h.idx as int, Slot { gen: g, value: None })) == live_map(s).remove(h),
{
    assert(live_map(s.update(h.idx as int, Slot { gen: g, value: None })) =~= live_map(s).remove(h));
}

impl<T> View for GenArena<T> {
    type V = Seq<Slot<T>>;

    closed spec fn view(&self) -> Seq<Slot<T>> {
        self.slots@
    }
}

impl<T> GenArena<T> {
    pub closed spec fn wf(&self) -> bool {
        &&& self.free@.no_duplicates()
        &&& forall|k: int|
            0 <= k < self.free@.len() ==> #[trigger] self.free@[k] < self.slots@.len()
                && slot_available(self.slots@[self.free@[k] as int])
        &&& forall|i: int|
            0 <= i < self.slots@.len() && slot_available(#[trigger] self.slots@[i])
                ==> self.free@.contains(i as usize)
        &&& forall|i: int|
            0 <= i < self.slots@.len() && (#[trigger] self.slots@[i]).value is Some ==> self.slots@[i].gen
                < u64::MAX
    }

    /// The handle resolves to a value.
    pub open spec fn live(&self, h: Handle) -> bool {
        slot_live(self@, h)
    }

    /// The value a live handle resolves to.
    pub open spec fn spec_get(&self, h: Handle) -> T {
        self@[h.idx as int].value->Some_0
    }

    /// How many slots can still be handed out.
    pub closed spec fn free_count(&self) -> nat {
        self.free@.len()
    }

    /// Room left means an empty slot: an arena whose slots are all taken
    /// has no room.
    pub proof fn lemma_room_means_empty(&self)
        requires
            self.wf(),
        ensures
            self.free_count() > 0 ==> exists|i: int| 0 <= i < self@.len() && (#[trigger] self@[i]).value is None,
    {
        if self.free_count() > 0 {
            let i = self.free@[0] as int;
            assert(self@[i].value is None);
        }
    }

    /// An arena of `capacity` empty slots.
    pub fn new(capacity: usize) -> (r: GenArena<T>)
        ensures
            r.wf(),
            r@.len() == capacity,
            r.free_count() == capacity,
            forall|i: int| 0 <= i < capacity ==> (#[trigger] r@[i]).gen == 0 && r@[i].value is None,
    {
        let mut slots: Vec<Slot<T>> = Vec::new();
        let mut free = FreeList::new();
        let mut i: usize = 0;
        while i < capacity
            invariant
                i <= capacity,
                slots@.len() == i,
                forall|j: int| 0 <= j < i ==> (#[trigger] slots@[j]).gen == 0 && slots@[j].value is None,
                free@.len() == i,
                forall|k: int| 0 <= k < i ==> #[trigger] free@[k] == (capacity - 1 - k) as usize,
            decreases capacity - i,
        {
            slots.push(Slot { gen: 0, value: None });
            free.push(capacity - 1 - i);
            i = i + 1;
        }
        // The free list holds `capacity - 1` down to `0`, so slot 0 goes first.
        let r = GenArena { slots, free };
        assert forall|j: int| 0 <= j < r.slots@.len() && slot_available(#[trigger] r.slots@[j])
            implies r.free@.contains(j as usize) by {
            assert(r.free@[capacity - 1 - j] == j as usize);
        }
        assert(r.free@.no_duplicates());
        r
    }

    pub fn capacity(&self) -> (r: usize)
        ensures
            r == self@.len(),
    {
        self.slots.len()
    }

    pub fn free_slots(&self) -> (r: usize)
        ensures
            r == self.free_count(),
    {
        self.free.len()
    }

    pub fn is_live(&self, h: Handle) -> (r: bool)
        ensures
            r == self.live(h),
    {
        h.idx < self.slots.len() && self.slots[h.idx].gen == h.gen && self.slots[h.idx].value.is_some()
    }

    /// Stores `v` in a free slot and returns a handle to it.
    pub fn allocate(&mut self, v: T) -> (r: Option<Handle>)
        requires
            old(self).wf(),
        ensures
            final(self).wf(),
            evolves(old(self)@, final(self)@),
            r is None <==> old(self).free_count() == 0,
            r is None ==> *final(self) == *old(self) && final(self).free_count() == 0,
            r is Some ==> {
                let h = r->Some_0;
                &&& h.idx < old(self)@.len()
                &&& slot_available(old(self)@[h.idx as int])
                &&& h.gen == old(self)@[h.idx as int].gen
                &&& final(self)@ == old(self)@.update(h.idx as int, Slot { gen: h.gen, value: Some(v) })
                &&& final(self).live(h)
                &&& final(self).spec_get(h) == v
                &&& final(self).free_count() == old(self).free_count() - 1
            },
    {
        if self.free.is_empty() {
            return None;
        }
        match self.free.pop() {
            None => None,
            Some(idx) => {
                proof {
                    let k = old(self).free@.len() - 1;
                    assert(old(self).free@[k] == idx);
                    assert(slot_available(self.slots@[idx as int]));
                    assert forall|j: int| 0 <= j < self.free@.len() implies #[trigger] self.free@[j] != idx by {
                        assert(old(self).free@[j] == self.free@[j]);
                    }
                }
                let gen = self.slots[idx].gen;
                self.slots.set(idx, Slot { gen, value: Some(v) });
                let h = Handle { idx, gen };
                proof {
                    assert forall|i: int| 0 <= i < self.slots@.len() && slot_available(#[trigger] self.slots@[i])
                        implies self.free@.contains(i as usize) by {
                        assert(i != idx);
                        assert(self.slots@.len() == self.slots.len());
                        assert(i as usize != idx);
                        assert(old(self).free@.contains(i as usize));
                        let k = choose|k: int| 0 <= k < old(self).free@.len() && old(self).free@[k] == i as usize;
                        assert(old(self).free@[old(self).free@.len() - 1] == idx);
                        assert(k != old(self).free@.len() - 1);
                        assert(self.free@[k] == i as usize);
                    }
                    assert forall|k: int| 0 <= k < self.free@.len() implies #[trigger] self.free@[k] < self.slots@.len()
                        && slot_available(self.slots@[self.free@[k] as int]) by {
                        assert(old(self).free@[k] == self.free@[k]);
                    }
                }
                Some(h)
            },
        }
    }

    pub fn get(&self, h: Handle) -> (r: Option<&T>)
        ensures
            r is Some <==> self.live(h),
            r is Some ==> *r->Some_0 == self.spec_get(h),
    {
        if self.is_live(h) {
            match &self.slots[h.idx].value {
                Some(v) => Some(v),
                None => None,
            }
        } else {
            None
        }
    }

    /// Mutable access to the value of a live handle.
    pub fn get_mut(&mut self, h: Handle) -> (r: &mut T)
        requires
            old(self).wf(),
            old(self).live(h),
        ensures
            *r == old(self).spec_get(h),
            final(self)@ == old(self)@.update(h.idx as int, Slot { gen: h.gen, value: Some(*final(r)) }),
            final(self).wf(),
            final(self).free_count() == old(self).free_count(),
    {
        match &mut self.slots[h.idx].value {
            Some(v) => v,
            None => vstd::pervasive::unreached(),
        }
    }

    /// Frees the slot of a live handle and returns its value; every handle to
    /// the slot stops resolving.
    pub fn free(&mut self, h: Handle) -> (r: Option<T>)
        requires
            old(self).wf(),
        ensures
            final(self).wf(),
            evolves(old(self)@, final(self)@),
            r is None <==> !old(self).live(h),
            r is None ==> final(self)@ == old(self)@ && final(self).free_count() == old(self).free_count(),
            r is Some ==> {
                &&& r->Some_0 == old(self).spec_get(h)
                &&& h.gen < u64::MAX
                &&& final(self).free_count() >= old(self).free_count()
                &&& final(self)@ == old(self)@.update(h.idx as int, Slot { gen: (h.gen + 1) as u64, value: None })
            },
            !final(self).live(h),
    {
        if !self.is_live(h) {
            return None;
        }
        proof {
            assert(!self.free@.contains(h.idx)) by {
                if self.free@.contains(h.idx) {
                    let k = choose|k: int| 0 <= k < self.free@.len() && self.free@[k] == h.idx;
                }
            }
            assert(self.slots@[h.idx as int].value is Some);
        }
        let v = self.slots[h.idx].value.take();
        let gen = h.gen + 1;
        self.slots.set(h.idx, Slot { gen, value: None });
        if gen < u64::MAX {
            self.free.push(h.idx);
        }
        proof {
            assert forall|k: int| 0 <= k < self.free@.len() implies #[trigger] self.free@[k] < self.slots@.len()
                && slot_available(self.slots@[self.free@[k] as int]) by {
                if k < old(self).free@.len() {
                    assert(old(self).free@[k] == self.free@[k]);
                }
            }
            assert forall|i: int| 0 <= i < self.slots@.len() && slot_available(#[trigger] self.slots@[i])
                implies self.free@.contains(i as usize) by {
                if i == h.idx {
                    assert(self.free@[self.free@.len() - 1] == h.idx);
                } else {
                    assert(old(self).free@.contains(i as usize));
                    let k = choose|k: int| 0 <= k < old(self).free@.len() && old(self).free@[k] == i as usize;
                    assert(self.free@[k] == i as usize);
                }
            }
        }
        v
    }

    /// The live handle of slot `idx`, if the slot is occupied.
    pub fn handle_at(&self, idx: usize) -> (r: Option<Handle>)
        ensures
            r is Some <==> idx < self@.len() && self@[idx as int].value is Some,
            r is Some ==> r->Some_0 == (Handle { idx, gen: self@[idx as int].gen }) && self.live(r->Some_0),
    {
        if idx < self.slots.len() && self.slots[idx].value.is_some() {
            Some(Handle { idx, gen: self.slots[idx].gen })
        } else {
            None
        }
    }

    /// The first live handle whose index is at least `from`, in slot order.
    pub fn next_live(&self, from: usize) -> (r: Option<Handle>)
        ensures
            r is None ==> forall|i: int| from <= i < self@.len() ==> (#[trigger] self@[i]).value is None,
            r is Some ==> {
                let h = r->Some_0;
                &&& from <= h.idx
                &&& self.live(h)
                &&& forall|i: int| from <= i < h.idx ==> (#[trigger] self@[i]).value is None
            },
    {
        let mut i: usize = from;
        while i < self.slots.len()
            invariant
                from <= i,
                forall|j: int| from <= j < i && j < self@.len() ==> (#[trigger] self@[j]).value is None,
            decreases self.slots.len() - i,
        {
            if self.slots[i].value.is_some() {
                return Some(Handle { idx: i, gen: self.slots[i].gen });
            }
            i = i + 1;
        }
        None
    }
}

/// Evolution is transitive, so it holds across any sequence of arena operations.
pub proof fn lemma_evolves_trans<T>(a: Seq<Slot<T>>, b: Seq<Slot<T>>, c: Seq<Slot<T>>)
    requires
        evolves(a, b),
        evolves(b, c),
    ensures
        evolves(a, c),
{
    assert forall|i: int| 0 <= i < a.len() && a[i].gen == u64::MAX && a[i].value is None implies (#[trigger] c[i]).value
        is None by {
        assert(b[i].gen == u64::MAX);
    }
}

/// A handle whose slot was freed never resolves again, whatever the arena
/// goes through afterwards: allocations into the same slot come under a
/// newer generation.
pub proof fn lemma_freed_handle_stays_dead<T>(a: GenArena<T>, freed: Seq<Slot<T>>, later: Seq<Slot<T>>, h: Handle)
    requires
        a.wf(),
        a.live(h),
        freed == a@.update(h.idx as int, Slot { gen: (h.gen + 1) as u64, value: None }),
        evolves(freed, later),
    ensures
        !slot_live(later, h),
{
    assert(a.slots@[h.idx as int].value is Some);
    assert(freed[h.idx as int].gen == h.gen + 1);
}

/// A fresh arena of capacity `n` takes exactly `n` values: counting down one
/// per successful allocation, the room is positive before each of the first
/// `n` and gone after them, and `allocate` fails exactly when it is gone.
pub proof fn lemma_capacity(rooms: Seq<nat>, n: nat)
    requires
        rooms.len() == n + 1,
        rooms[0] == n,
        forall|k: int| 0 <= k < n ==> #[trigger] rooms[k + 1] == rooms[k] - 1,
    ensures
        forall|k: int| 0 <= k < n ==> #[trigger] rooms[k] > 0,
        rooms[n as int] == 0,
{
    assert forall|k: int| 0 <= k <= n implies #[trigger] rooms[k] == n - k by {
        lemma_count_down(rooms, n, k);
    }
}

proof fn lemma_count_down(rooms: Seq<nat>, n: nat, k: int)
    requires
        rooms.len() == n + 1,
        rooms[0] == n,
        forall|j: int| 0 <= j < n ==> #[trigger] rooms[j + 1] == rooms[j] - 1,
        0 <= k <= n,
    ensures
        rooms[k] == n - k,
    decreases k,
{
    if k > 0 {
        lemma_count_down(rooms, n, k - 1);
        assert(rooms[(k - 1) + 1] == rooms[k - 1] - 1);
    }
}

} // verus!
