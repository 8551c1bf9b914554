//! Changes that platform code must mirror in hardware, queued in order.
use vstd::prelude::*;

use crate::capa::LocalCapa;
use crate::gen_arena::Handle;

verus! {

#[derive(Clone, Copy, Debug, PartialEq, Eq, Structural)]
pub enum Update {
    CreateDomain { domain: Handle },
    RevokeDomain { domain: Handle },
    PermissionUpdate { domain: Handle },
    Switch { domain: Handle, return_capa: LocalCapa, core: usize },
    Trap { manager: Handle, trap: u64, info: u64, core: usize },
    UpdateTraps { trap: u64, core: usize },
    TlbShootdown { core: usize },
}

/// A bounded first-in first-out queue. When full it refuses new items: the
/// producer is told, and nothing already queued is dropped.
pub struct Buffer<T> {
    items: Vec<T>,
    capacity: usize,
}

impl<T> View for Buffer<T> {
    type V = Seq<T>;

    closed spec fn view(&self) -> Seq<T> {
        self.items@
    }
}

impl<T> Buffer<T> {
    pub closed spec fn max_len(&self) -> nat {
        self.capacity as nat
    }

    pub open spec fn wf(&self) -> bool {
        self@.len() <= self.max_len()
    }

    /// How many more items fit.
    pub open spec fn room(&self) -> int {
        self.max_len() - self@.len()
    }

    pub fn new(capacity: usize) -> (r: Buffer<T>)
        ensures
            r.wf(),
            r@ == Seq::<T>::empty(),
            r.max_len() == capacity,
    {
        Buffer { items: Vec::new(), capacity }
    }

    pub fn free_room(&self) -> (r: usize)
        requires
            self.wf(),
        ensures
            r == self.room(),
    {
        self.capacity - self.items.len()
    }

    pub fn len(&self) -> (r: usize)
        ensures
            r == self@.len(),
    {
        self.items.len()
    }

    /// Appends `item`, or hands it back when the queue is full.
    pub fn push(&mut self, item: T) -> (r: Result<(), T>)
        requires
            old(self).wf(),
        ensures
            final(self).wf(),
            final(self).max_len() == old(self).max_len(),
            r is Ok <==> old(self).room() > 0,
            r is Ok ==> final(self)@ == old(self)@.push(item),
            r is Err ==> final(self)@ == old(self)@ && r->Err_0 == item,
    {
        if self.items.len() < self.capacity {
            self.items.push(item);
            Ok(())
        } else {
            Err(item)
        }
    }

    /// Removes and returns the oldest item.
    pub fn pop(&mut self) -> (r: Option<T>)
        requires
            old(self).wf(),
        ensures
            final(self).wf(),
            final(self).max_len() == old(self).max_len(),
            old(self)@.len() == 0 ==> r is None && *final(self) == *old(self),
            old(self)@.len() > 0 ==> r == Some(old(self)@[0]) && final(self)@ == old(self)@.drop_first(),
    {
        if self.items.len() == 0 {
            None
        } else {
            Some(self.items.remove(0))
        }
    }
}

} // verus!
