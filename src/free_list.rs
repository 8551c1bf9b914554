//! Stack of the arena slots that can be handed out next.
use vstd::prelude::*;

verus! {

/// The indices of the slots that are free to be allocated, most recently freed last.
pub struct FreeList {
    stack: Vec<usize>,
}

impl View for FreeList {
    type V = Seq<usize>;

    closed spec fn view(&self) -> Seq<usize> {
        self.stack@
    }
}

impl FreeList {
    pub fn new() -> (r: FreeList)
        ensures
            r@ == Seq::<usize>::empty(),
    {
        FreeList { stack: Vec::new() }
    }

    pub fn push(&mut self, idx: usize)
        ensures
            final(self)@ == old(self)@.push(idx),
    {
        self.stack.push(idx);
    }

    pub fn pop(&mut self) -> (r: Option<usize>)
        ensures
            old(self)@.len() == 0 ==> r is None && final(self)@ == old(self)@,
            old(self)@.len() > 0 ==> r == Some(old(self)@.last()) && final(self)@ == old(
                self,
            )@.drop_last(),
    {
        self.stack.pop()
    }

    pub fn len(&self) -> (r: usize)
        ensures
            r == self@.len(),
    {
        self.stack.len()
    }

    pub fn is_empty(&self) -> (r: bool)
        ensures
            r == (self@.len() == 0),
    {
        self.stack.len() == 0
    }
}

} // verus!
