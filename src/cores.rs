//! Which domain runs on each core.
use vstd::prelude::*;

use crate::gen_arena::Handle;

verus! {

#[derive(Clone, Copy, Debug, PartialEq, Eq, Structural)]
pub struct Core {
    pub domain: Option<Handle>,
}

impl Core {
    pub fn new() -> (r: Core)
        ensures
            r.domain is None,
    {
        Core { domain: None }
    }
}

} // verus!
