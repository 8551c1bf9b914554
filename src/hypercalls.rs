//! The call interface of the second-stage monitor: a domain asks for its
//! own id or for a new domain.
use vstd::prelude::*;

use crate::config::{NB_DOMAINS, NB_REGIONS_PER_DOMAIN};
use crate::gen_arena::{GenArena, Handle};

verus! {

pub const DOMAIN_GET_OWN_ID: usize = 0x100;

pub const DOMAIN_CREATE: usize = 0x101;

pub const DOMAIN_REGISTER_GATE: usize = 0x102;

pub const DOMAIN_SEAL: usize = 0x103;

pub const EXIT: usize = 0x500;

#[derive(Clone, Copy, Debug, PartialEq, Eq, Structural)]
pub enum ErrorCode {
    Success,
    Failure,
    UnknownVmCall,
    OutOfMemory,
}

impl ErrorCode {
    pub open spec fn code(self) -> usize {
        match self {
            ErrorCode::Success => 0,
            ErrorCode::Failure => 1,
            ErrorCode::UnknownVmCall => 2,
            ErrorCode::OutOfMemory => 3,
        }
    }

    /// The number a calling domain receives.
    pub fn as_usize(&self) -> (r: usize)
        ensures
            r == self.code(),
    {
        match self {
            ErrorCode::Success => 0,
            ErrorCode::Failure => 1,
            ErrorCode::UnknownVmCall => 2,
            ErrorCode::OutOfMemory => 3,
        }
    }
}

/// The call number and its arguments.
#[derive(Clone, Copy, Debug, PartialEq, Eq, Structural)]
pub struct Parameters {
    pub vmcall: usize,
    pub arg_1: usize,
    pub arg_2: usize,
    pub arg_3: usize,
}

/// The values a call returns.
#[derive(Clone, Copy, Debug, PartialEq, Eq, Structural)]
pub struct Registers {
    pub value_1: usize,
    pub value_2: usize,
    pub value_3: usize,
}

impl Default for Registers {
    fn default() -> (r: Registers)
        ensures
            r == (Registers { value_1: 0, value_2: 0, value_3: 0 }),
    {
        Registers { value_1: 0, value_2: 0, value_3: 0 }
    }
}

pub type HypercallResult = Result<Registers, ErrorCode>;

/// Each region has a single owner and can be marked either as owned or exclusive.
#[derive(Clone, Copy, Debug, PartialEq, Eq, Structural)]
pub struct RegionCapability {
    pub do_own: bool,
    pub is_shared: bool,
    pub is_valid: bool,
    pub index: usize,
}

#[derive(Clone, Copy, Debug, PartialEq, Eq, Structural)]
pub struct Region {
    pub ref_count: usize,
    pub start: usize,
    pub end: usize,
}

pub struct Domain {
    pub sealed: bool,
    pub regions: Vec<RegionCapability>,
}

impl Domain {
    /// A domain that owns no region yet.
    pub fn new(sealed: bool) -> (r: Domain)
        ensures
            r.sealed == sealed,
            r.regions@.len() == NB_REGIONS_PER_DOMAIN,
            forall|i: int| 0 <= i < NB_REGIONS_PER_DOMAIN ==> !(#[trigger] r.regions@[i]).is_valid,
    {
        let mut regions: Vec<RegionCapability> = Vec::new();
        let mut i: usize = 0;
        while i < NB_REGIONS_PER_DOMAIN
            invariant
                i <= NB_REGIONS_PER_DOMAIN,
                regions@.len() == i,
                forall|j: int| 0 <= j < i ==> !(#[trigger] regions@[j]).is_valid,
            decreases NB_REGIONS_PER_DOMAIN - i,
        {
            regions.push(RegionCapability { do_own: false, is_shared: false, is_valid: false, index: 0 });
            i = i + 1;
        }
        Domain { sealed, regions }
    }
}

pub struct Hypercalls {
    root_domain: Handle,
    current_domain: Handle,
    domains_arena: GenArena<Domain>,
}

impl Hypercalls {
    pub closed spec fn wf(&self) -> bool {
        self.domains_arena.wf()
    }

    /// The domain the calls come from.
    pub closed spec fn current(&self) -> Handle {
        self.current_domain
    }

    /// The domain created at start-up.
    pub closed spec fn root(&self) -> Handle {
        self.root_domain
    }

    /// The live domains and whether each is sealed.
    pub closed spec fn sealed_map(&self) -> Map<Handle, bool> {
        Map::new(|h: Handle| self.domains_arena.live(h), |h: Handle| self.domains_arena.spec_get(h).sealed)
    }

    /// How many more domains can be created.
    pub closed spec fn room(&self) -> nat {
        self.domains_arena.free_count()
    }

    /// A monitor with a sealed root domain, which is also the current one.
    pub fn new() -> (r: Hypercalls)
        ensures
            r.wf(),
            r.current() == r.root(),
            r.sealed_map() == Map::<Handle, bool>::empty().insert(r.root(), true),
            r.room() == NB_DOMAINS - 1,
    {
        let mut domains_arena: GenArena<Domain> = GenArena::new(NB_DOMAINS);
        let root_domain = Self::create_root_domain(&mut domains_arena);
        let r = Hypercalls { root_domain, current_domain: root_domain, domains_arena };
        assert(r.sealed_map() =~= Map::<Handle, bool>::empty().insert(r.root(), true));
        r
    }

    fn create_root_domain(domains_arena: &mut GenArena<Domain>) -> (h: Handle)
        requires
            old(domains_arena).wf(),
            old(domains_arena).free_count() == NB_DOMAINS,
            forall|i: int| 0 <= i < NB_DOMAINS ==> (#[trigger] old(domains_arena)@[i]).value is None,
            old(domains_arena)@.len() == NB_DOMAINS,
        ensures
            final(domains_arena).wf(),
            final(domains_arena).free_count() == NB_DOMAINS - 1,
            final(domains_arena).live(h),
            final(domains_arena).spec_get(h).sealed,
            forall|g: Handle| #[trigger] final(domains_arena).live(g) ==> g == h,
    {
        match domains_arena.allocate(Domain::new(true)) {
            Some(h) => h,
            None => vstd::pervasive::unreached(),
        }
    }

    /// Runs the call that `params` names; an unknown number is refused.
    pub fn dispatch(&mut self, params: Parameters) -> (r: HypercallResult)
        requires
            old(self).wf(),
        ensures
            final(self).wf(),
            params.vmcall == DOMAIN_GET_OWN_ID ==> r == Ok::<Registers, ErrorCode>(
                Registers { value_1: old(self).current().idx, value_2: 0, value_3: 0 },
            ) && *final(self) == *old(self),
            params.vmcall == DOMAIN_CREATE ==> old(self).domain_create_post(*final(self), r),
            params.vmcall != DOMAIN_GET_OWN_ID && params.vmcall != DOMAIN_CREATE ==> r == Err::<
                Registers,
                ErrorCode,
            >(ErrorCode::UnknownVmCall) && *final(self) == *old(self),
    {
        if params.vmcall == DOMAIN_GET_OWN_ID {
            self.domain_get_own_id()
        } else if params.vmcall == DOMAIN_CREATE {
            self.domain_create()
        } else {
            Err(ErrorCode::UnknownVmCall)
        }
    }

    pub fn is_exit(&self, params: &Parameters) -> (r: bool)
        ensures
            r == (params.vmcall == EXIT),
    {
        params.vmcall == EXIT
    }

    /// Returns the index of the current domain.
    pub fn domain_get_own_id(&mut self) -> (r: HypercallResult)
        ensures
            r == Ok::<Registers, ErrorCode>(Registers { value_1: old(self).current().idx, value_2: 0, value_3: 0 }),
            *final(self) == *old(self),
    {
        let domain = self.current_domain;
        Ok(Registers { value_1: domain.idx, ..Default::default() })
    }

    /// What `domain_create` does: an unsealed domain in a free slot, whose
    /// index comes back, or `OutOfMemory` with nothing changed.
    pub open spec fn domain_create_post(&self, after: Hypercalls, r: HypercallResult) -> bool {
        &&& after.current() == self.current()
        &&& after.root() == self.root()
        &&& (r is Err <==> self.room() == 0)
        &&& r is Err ==> r->Err_0 == ErrorCode::OutOfMemory && after == *self
        &&& r is Ok ==> exists|h: Handle| {
            &&& !self.sealed_map().contains_key(h)
            &&& #[trigger] after.sealed_map() == self.sealed_map().insert(h, false)
            &&& r->Ok_0 == (Registers { value_1: h.idx, value_2: 0, value_3: 0 })
            &&& after.room() == self.room() - 1
        }
    }

    /// Creates a fresh, unsealed domain.
    pub fn domain_create(&mut self) -> (r: HypercallResult)
        requires
            old(self).wf(),
        ensures
            final(self).wf(),
            old(self).domain_create_post(*final(self), r),
    {
        let handle = match self.domains_arena.allocate(Domain::new(false)) {
            Some(h) => h,
            None => {
                return Err(ErrorCode::OutOfMemory);
            },
        };
        assert(self.sealed_map() =~= old(self).sealed_map().insert(handle, false));
        Ok(Registers { value_1: handle.idx, ..Default::default() })
    }
}

} // verus!
