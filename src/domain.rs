//! Protection domains: a capability table and four configuration bitmaps.
use vstd::prelude::*;

use crate::capa::Capa;
use crate::config::NB_CAPAS_PER_DOMAIN;
use crate::gen_arena::Handle;

verus! {

/// Every core a domain may run on.
pub const CORE_BITS_ALL: u64 = 0xffff_ffff_ffff_ffff;

/// Every trap a domain may claim.
pub const TRAP_BITS_ALL: u64 = 0xffff_ffff_ffff_ffff;

/// Every context-switch mode.
pub const SWITCH_BITS_ALL: u64 = 0xffff_ffff_ffff_ffff;

/// The four configuration bitmaps of a domain.
#[allow(non_camel_case_types)]
#[derive(Clone, Copy, Debug, PartialEq, Eq, Structural)]
pub enum Bitmaps {
    PERMISSION,
    CORE,
    TRAP,
    SWITCH,
}

pub struct Domain {
    /// Unique over the engine's lifetime; 0 is never handed out.
    pub id: usize,
    /// The local capability table; `Capa::Empty` marks a free slot.
    pub capas: Vec<Capa>,
    pub permissions: u64,
    pub cores: u64,
    pub traps: u64,
    pub switch: u64,
    /// Once set, the configuration can no longer change.
    pub sealed: bool,
    /// The domain that administers this one, if any.
    pub manager: Option<Handle>,
    /// The cores this domain currently runs on.
    pub execution_cores: u64,
}

/// What a domain is, as contracts see it.
pub ghost struct DomainView {
    pub id: usize,
    pub capas: Seq<Capa>,
    pub permissions: u64,
    pub cores: u64,
    pub traps: u64,
    pub switch: u64,
    pub sealed: bool,
    pub manager: Option<Handle>,
    pub execution_cores: u64,
}

impl View for Domain {
    type V = DomainView;

    open spec fn view(&self) -> DomainView {
        DomainView {
            id: self.id,
            capas: self.capas@,
            permissions: self.permissions,
            cores: self.cores,
            traps: self.traps,
            switch: self.switch,
            sealed: self.sealed,
            manager: self.manager,
            execution_cores: self.execution_cores,
        }
    }
}

/// Bit `i` of `x`, for `i` below 64.
pub open spec fn bit_set(x: u64, i: u64) -> bool {
    i < 64 && x & (1u64 << i) != 0
}

pub open spec fn config_of(d: DomainView, bitmap: Bitmaps) -> u64 {
    match bitmap {
        Bitmaps::PERMISSION => d.permissions,
        Bitmaps::CORE => d.cores,
        Bitmaps::TRAP => d.traps,
        Bitmaps::SWITCH => d.switch,
    }
}

/// `d` with one bitmap replaced.
pub open spec fn with_config(d: DomainView, bitmap: Bitmaps, value: u64) -> DomainView {
    match bitmap {
        Bitmaps::PERMISSION => DomainView { permissions: value, ..d },
        Bitmaps::CORE => DomainView { cores: value, ..d },
        Bitmaps::TRAP => DomainView { traps: value, ..d },
        Bitmaps::SWITCH => DomainView { switch: value, ..d },
    }
}

/// Every bit of `value` is set in the domain's bitmap.
pub open spec fn holds_config(d: DomainView, bitmap: Bitmaps, value: u64) -> bool {
    config_of(d, bitmap) & value == value
}

/// The domain claims trap `trap` for itself.
pub open spec fn handles_trap(d: DomainView, trap: u64) -> bool {
    bit_set(d.traps, trap)
}

/// `i` is the lowest empty slot of the table.
pub open spec fn is_first_free(capas: Seq<Capa>, i: int) -> bool {
    &&& 0 <= i < capas.len()
    &&& capas[i] == Capa::Empty
    &&& forall|j: int| 0 <= j < i ==> #[trigger] capas[j] != Capa::Empty
}

pub open spec fn has_free_slot(capas: Seq<Capa>) -> bool {
    exists|i: int| 0 <= i < capas.len() && #[trigger] capas[i] == Capa::Empty
}

impl Domain {
    /// A fresh domain: empty table, every bitmap clear, unsealed, unmanaged.
    pub fn new(id: usize) -> (r: Domain)
        ensures
            r.id == id,
            r.capas@.len() == NB_CAPAS_PER_DOMAIN,
            forall|i: int| 0 <= i < NB_CAPAS_PER_DOMAIN ==> #[trigger] r.capas@[i] == Capa::Empty,
            r.permissions == 0,
            r.cores == 0,
            r.traps == 0,
            r.switch == 0,
            !r.sealed,
            r.manager is None,
            r.execution_cores == 0,
    {
        let mut capas: Vec<Capa> = Vec::new();
        let mut i: usize = 0;
        while i < NB_CAPAS_PER_DOMAIN
            invariant
                i <= NB_CAPAS_PER_DOMAIN,
                capas@.len() == i,
                forall|j: int| 0 <= j < i ==> #[trigger] capas@[j] == Capa::Empty,
            decreases NB_CAPAS_PER_DOMAIN - i,
        {
            capas.push(Capa::Empty);
            i = i + 1;
        }
        Domain {
            id,
            capas,
            permissions: 0,
            cores: 0,
            traps: 0,
            switch: 0,
            sealed: false,
            manager: None,
            execution_cores: 0,
        }
    }

    pub fn get_config(&self, bitmap: Bitmaps) -> (r: u64)
        ensures
            r == config_of(self@, bitmap),
    {
        match bitmap {
            Bitmaps::PERMISSION => self.permissions,
            Bitmaps::CORE => self.cores,
            Bitmaps::TRAP => self.traps,
            Bitmaps::SWITCH => self.switch,
        }
    }

    pub fn set_bitmap(&mut self, bitmap: Bitmaps, value: u64)
        ensures
            final(self)@ == with_config(old(self)@, bitmap, value),
    {
        match bitmap {
            Bitmaps::PERMISSION => self.permissions = value,
            Bitmaps::CORE => self.cores = value,
            Bitmaps::TRAP => self.traps = value,
            Bitmaps::SWITCH => self.switch = value,
        }
    }

    pub fn has_config(&self, bitmap: Bitmaps, value: u64) -> (r: bool)
        ensures
            r == holds_config(self@, bitmap, value),
    {
        self.get_config(bitmap) & value == value
    }

    pub fn can_handle(&self, trap: u64) -> (r: bool)
        ensures
            r == handles_trap(self@, trap),
    {
        trap < 64 && self.traps & (1u64 << trap) != 0
    }

    pub fn is_sealed(&self) -> (r: bool)
        ensures
            r == self.sealed,
    {
        self.sealed
    }

    pub fn core_map(&self) -> (r: u64)
        ensures
            r == self.cores,
    {
        self.cores
    }

    pub fn traps(&self) -> (r: u64)
        ensures
            r == self.traps,
    {
        self.traps
    }

    /// The first empty slot of the table at or after `from`.
    pub fn free_slot_from(&self, from: usize) -> (r: Option<usize>)
        ensures
            r is None ==> forall|i: int| from <= i < self.capas@.len() ==> #[trigger] self.capas@[i] != Capa::Empty,
            r is Some ==> {
                let i = r->Some_0;
                &&& from <= i < self.capas@.len()
                &&& self.capas@[i as int] == Capa::Empty
                &&& forall|j: int| from <= j < i ==> #[trigger] self.capas@[j] != Capa::Empty
            },
    {
        let mut i: usize = from;
        while i < self.capas.len()
            invariant
                from <= i,
                forall|j: int| from <= j < i && j < self.capas@.len() ==> #[trigger] self.capas@[j] != Capa::Empty,
            decreases self.capas.len() - i,
        {
            if self.capas[i] == Capa::Empty {
                return Some(i);
            }
            i = i + 1;
        }
        None
    }

    /// The capability in slot `idx`, if the slot exists and is not empty.
    pub fn get(&self, idx: usize) -> (r: Option<Capa>)
        ensures
            r is Some <==> idx < self.capas@.len() && self.capas@[idx as int] != Capa::Empty,
            r is Some ==> r->Some_0 == self.capas@[idx as int],
    {
        if idx < self.capas.len() && self.capas[idx] != Capa::Empty {
            Some(self.capas[idx])
        } else {
            None
        }
    }
}

} // verus!
