//! The capability engine: the one authority over domains, regions, core
//! bindings and the queue of updates for platform code.
//!
//! Every operation checks all its preconditions before it changes anything,
//! so an operation that fails leaves the engine exactly as it found it.
use vstd::prelude::*;

use crate::capa::{channel_target, Capa, CapaInfo, LocalCapa, NextCapaToken};
use crate::config::{NB_CAPAS_PER_DOMAIN, NB_CORES, NB_DOMAINS, NB_REGIONS, NB_UPDATES};
use crate::cores::Core;
use crate::domain::{
    handles_trap, has_free_slot, holds_config, is_first_free, with_config, Bitmaps, Domain, DomainView,
    CORE_BITS_ALL, SWITCH_BITS_ALL, TRAP_BITS_ALL,
};
use crate::gen_arena::{evolves, lemma_clear, lemma_store, live_map, slot_live, GenArena, Handle, Slot};
use crate::permission;
use crate::region::{
    descends, is_descendant, ops_subset, ops_within, region_wf, tiles, AccessRights,
    RegionCapa, MEMOPS_ALL,
};
use crate::update::{Buffer, Update};
use crate::CapaError;

verus! {

pub struct CapaEngine {
    cores: Vec<Core>,
    domains: GenArena<Domain>,
    regions: GenArena<RegionCapa>,
    updates: Buffer<Update>,
    id_counter: usize,
}

/// A table with every slot empty.
pub open spec fn empty_table() -> Seq<Capa> {
    Seq::new(NB_CAPAS_PER_DOMAIN as nat, |i: int| Capa::Empty)
}


/// The live domains of an arena, each as contracts see it.
pub open spec fn dom_views(s: Seq<Slot<Domain>>) -> Map<Handle, DomainView> {
    Map::new(|h: Handle| slot_live(s, h), |h: Handle| s[h.idx as int].value->Some_0@)
}

proof fn lemma_dom_store(s: Seq<Slot<Domain>>, h: Handle, v: Domain)
    requires
        h.idx < s.len(),
        s[h.idx as int].value is None || s[h.idx as int].gen == h.gen,
    ensures
        dom_views(s.update(h.idx as int, Slot { gen: h.gen, value: Some(v) })) == dom_views(s).insert(h, v@),
{
    assert(dom_views(s.update(h.idx as int, Slot { gen: h.gen, value: Some(v) })) =~= dom_views(s).insert(h, v@));
}

proof fn lemma_dom_clear(s: Seq<Slot<Domain>>, h: Handle, g: u64)
    requires
        slot_live(s, h),
    ensures
        dom_views(s.update(h.idx as int, Slot { gen: g, value: None })) == dom_views(s).remove(h),
{
    assert(dom_views(s.update(h.idx as int, Slot { gen: g, value: None })) =~= dom_views(s).remove(h));
}

/// A domain made by `create_manager_domain`: every bitmap full but the
/// permissions asked for, and sealed from the start.
pub open spec fn manager_domain(id: usize, permissions: u64) -> DomainView {
    DomainView {
        id,
        capas: empty_table(),
        permissions,
        cores: CORE_BITS_ALL,
        traps: TRAP_BITS_ALL,
        switch: SWITCH_BITS_ALL,
        sealed: true,
        manager: None,
        execution_cores: 0,
    }
}

/// A domain made by `create_domain`: nothing granted yet, not sealed.
pub open spec fn child_domain(id: usize, manager: Handle) -> DomainView {
    DomainView {
        id,
        capas: empty_table(),
        permissions: 0,
        cores: 0,
        traps: 0,
        switch: 0,
        sealed: false,
        manager: Some(manager),
        execution_cores: 0,
    }
}

/// `m` with slot `i` of domain `d`'s table set to `c`.
pub open spec fn with_slot(m: Map<Handle, DomainView>, d: Handle, i: int, c: Capa) -> Map<Handle, DomainView> {
    m.insert(d, DomainView { capas: m[d].capas.update(i, c), ..m[d] })
}

/// `m` with `mgr` as the manager of domain `d`.
pub open spec fn with_manager(m: Map<Handle, DomainView>, d: Handle, mgr: Handle) -> Map<Handle, DomainView> {
    m.insert(d, DomainView { manager: Some(mgr), ..m[d] })
}

/// Following manager links from `from`, at most `fuel` of them, reaches `to`.
pub open spec fn chain_reaches(m: Map<Handle, DomainView>, from: Handle, to: Handle, fuel: nat) -> bool
    decreases fuel,
{
    if from == to {
        true
    } else if fuel == 0 || !m.contains_key(from) {
        false
    } else {
        match m[from].manager {
            None => false,
            Some(n) => chain_reaches(m, n, to, (fuel - 1) as nat),
        }
    }
}

/// The first domain along the manager links from `start` that claims
/// `trap`, looking at no more than `fuel` domains.
pub open spec fn handler_from(m: Map<Handle, DomainView>, start: Option<Handle>, trap: u64, fuel: nat) -> Option<
    Handle,
>
    decreases fuel,
{
    match start {
        None => None,
        Some(h) => {
            if fuel == 0 || !m.contains_key(h) {
                None
            } else if handles_trap(m[h], trap) {
                Some(h)
            } else {
                handler_from(m, m[h].manager, trap, (fuel - 1) as nat)
            }
        },
    }
}

/// What enumeration reports of a capability, when what it names still exists.
pub open spec fn info_of(c: Capa, doms: Map<Handle, DomainView>, regs: Map<Handle, RegionCapa>) -> Option<CapaInfo> {
    match c {
        Capa::Region(h) => if regs.contains_key(h) {
            Some(
                CapaInfo::Region {
                    start: regs[h].access.start,
                    end: regs[h].access.end,
                    active: regs[h].active,
                    confidential: regs[h].confidential,
                    ops: regs[h].access.ops,
                },
            )
        } else {
            None
        },
        Capa::Management(d) => if doms.contains_key(d) {
            Some(CapaInfo::Management { domain_id: doms[d].id, sealed: doms[d].sealed })
        } else {
            None
        },
        Capa::Channel(d) => if doms.contains_key(d) {
            Some(CapaInfo::Channel { domain_id: doms[d].id })
        } else {
            None
        },
        Capa::Switch { to, core } => if doms.contains_key(to) {
            Some(CapaInfo::Switch { domain_id: doms[to].id, core })
        } else {
            None
        },
        Capa::Empty => None,
    }
}

/// Slot `i` holds a region carved out of `reg`.
pub open spec fn carved(s: Seq<Slot<RegionCapa>>, reg: RegionCapa, i: int) -> bool {
    0 <= i < s.len() && s[i].value is Some && descends(s[i].value->Some_0, reg)
}

/// `x` is the live handle of a region carved out of `reg`, in a slot below `n`.
pub open spec fn dropped(s: Seq<Slot<RegionCapa>>, reg: RegionCapa, x: Handle, n: int) -> bool {
    slot_live(s, x) && x.idx < n && descends(s[x.idx as int].value->Some_0, reg)
}

/// The updates that restoring `reg` queues for the slots below `n`: one
/// for the holder of each active region that goes away.
pub open spec fn restore_updates(s: Seq<Slot<RegionCapa>>, reg: RegionCapa, n: int) -> Seq<Update>
    decreases n,
{
    if n <= 0 {
        Seq::empty()
    } else {
        let rest = restore_updates(s, reg, n - 1);
        if carved(s, reg, n - 1) && s[n - 1].value->Some_0.active {
            rest.push(Update::PermissionUpdate { domain: s[n - 1].value->Some_0.domain })
        } else {
            rest
        }
    }
}

/// A table with its entries naming `x` emptied.
pub open spec fn without_region(capas: Seq<Capa>, x: Handle) -> Seq<Capa> {
    Seq::new(capas.len(), |j: int| if capas[j] == Capa::Region(x) { Capa::Empty } else { capas[j] })
}

/// The table of domain `d` once the regions it holds that are dropped
/// (below slot `n`) are gone from it.
pub open spec fn scrubbed_table(capas: Seq<Capa>, s: Seq<Slot<RegionCapa>>, reg: RegionCapa, n: int, d: Handle) -> Seq<
    Capa,
> {
    Seq::new(
        capas.len(),
        |j: int|
            if capas[j] is Region && dropped(s, reg, capas[j]->Region_0, n) && s[capas[j]->Region_0.idx as int].value->Some_0.domain
                == d {
                Capa::Empty
            } else {
                capas[j]
            },
    )
}

/// The domains once every table has lost its dropped regions.
pub open spec fn scrub(m: Map<Handle, DomainView>, s: Seq<Slot<RegionCapa>>, reg: RegionCapa, n: int) -> Map<
    Handle,
    DomainView,
> {
    Map::new(
        |d: Handle| m.contains_key(d),
        |d: Handle| DomainView { capas: scrubbed_table(m[d].capas, s, reg, n, d), ..m[d] },
    )
}

/// The regions once the dropped ones are gone.
pub open spec fn prune(rm: Map<Handle, RegionCapa>, s: Seq<Slot<RegionCapa>>, reg: RegionCapa, n: int) -> Map<
    Handle,
    RegionCapa,
> {
    Map::new(|x: Handle| rm.contains_key(x) && !dropped(s, reg, x, n), |x: Handle| rm[x])
}

proof fn lemma_restore_updates_grow(s: Seq<Slot<RegionCapa>>, reg: RegionCapa, n: int, m: int)
    requires
        n <= m,
    ensures
        restore_updates(s, reg, n).len() <= restore_updates(s, reg, m).len(),
    decreases m - n,
{
    if n < m {
        lemma_restore_updates_grow(s, reg, n, m - 1);
    }
}

/// `x` is a live domain that `root` manages, transitively, or `root` itself.
pub open spec fn doomed(m: Map<Handle, DomainView>, root: Handle, x: Handle) -> bool {
    m.contains_key(x) && chain_reaches(m, x, root, NB_DOMAINS as nat)
}

/// The capability names a doomed domain.
pub open spec fn names_doomed(m: Map<Handle, DomainView>, root: Handle, c: Capa) -> bool {
    match c {
        Capa::Management(x) => doomed(m, root, x),
        Capa::Channel(x) => doomed(m, root, x),
        Capa::Switch { to, core } => doomed(m, root, to),
        _ => false,
    }
}

/// A table without its capabilities over doomed domains.
pub open spec fn cleaned_table(capas: Seq<Capa>, m: Map<Handle, DomainView>, root: Handle) -> Seq<Capa> {
    Seq::new(capas.len(), |j: int| if names_doomed(m, root, capas[j]) { Capa::Empty } else { capas[j] })
}

/// The domains that survive revoking `root`, with the capabilities that
/// named revoked domains gone from their tables.
pub open spec fn surviving_domains(m: Map<Handle, DomainView>, root: Handle) -> Map<Handle, DomainView> {
    Map::new(
        |y: Handle| m.contains_key(y) && !doomed(m, root, y),
        |y: Handle| DomainView { capas: cleaned_table(m[y].capas, m, root), ..m[y] },
    )
}

/// The regions that survive revoking `root`: those held by surviving domains.
pub open spec fn surviving_regions(rm: Map<Handle, RegionCapa>, m: Map<Handle, DomainView>, root: Handle) -> Map<
    Handle,
    RegionCapa,
> {
    Map::new(|x: Handle| rm.contains_key(x) && !doomed(m, root, rm[x].domain), |x: Handle| rm[x])
}

/// One `RevokeDomain` for each doomed domain in the slots below `n`, in slot order.
pub open spec fn revoke_updates(s: Seq<Slot<Domain>>, m: Map<Handle, DomainView>, root: Handle, n: int) -> Seq<Update>
    decreases n,
{
    if n <= 0 {
        Seq::empty()
    } else {
        let rest = revoke_updates(s, m, root, n - 1);
        let x = Handle { idx: (n - 1) as usize, gen: s[n - 1].gen };
        if doomed(m, root, x) {
            rest.push(Update::RevokeDomain { domain: x })
        } else {
            rest
        }
    }
}

proof fn lemma_revoke_updates_grow(s: Seq<Slot<Domain>>, m: Map<Handle, DomainView>, root: Handle, n: int, k: int)
    requires
        n <= k,
    ensures
        revoke_updates(s, m, root, n).len() <= revoke_updates(s, m, root, k).len(),
    decreases k - n,
{
    if n < k {
        lemma_revoke_updates_grow(s, m, root, n, k - 1);
    }
}


/// The rights of the active regions held by `d` in the slots below `n`, in slot order.
pub open spec fn regions_of(s: Seq<Slot<RegionCapa>>, d: Handle, n: int) -> Seq<AccessRights>
    decreases n,
{
    if n <= 0 {
        Seq::empty()
    } else {
        let rest = regions_of(s, d, n - 1);
        let v = s[n - 1].value;
        if v is Some && v->Some_0.domain == d && v->Some_0.active {
            rest.push(v->Some_0.access)
        } else {
            rest
        }
    }
}

/// `r` is an active region of `domain` that overlaps `access` with other rights.
pub open spec fn conflicts(r: RegionCapa, domain: Handle, access: AccessRights) -> bool {
    &&& r.domain == domain
    &&& r.active
    &&& r.access.start < access.end
    &&& access.start < r.access.end
    &&& r.access.ops != access.ops
}

/// The domain that inherits the regions of the domains revoked with
/// `root`: the manager of `root`, when it survives.
pub open spec fn heir_of(m: Map<Handle, DomainView>, root: Handle) -> Option<Handle> {
    match m[root].manager {
        Some(h) => if m.contains_key(h) && !doomed(m, root, h) {
            Some(h)
        } else {
            None
        },
        None => None,
    }
}

/// The region capabilities held by doomed domains in the slots below `n`, in slot order.
pub open spec fn orphans(s: Seq<Slot<RegionCapa>>, m: Map<Handle, DomainView>, root: Handle, n: int) -> Seq<Capa>
    decreases n,
{
    if n <= 0 {
        Seq::empty()
    } else {
        let rest = orphans(s, m, root, n - 1);
        if s[n - 1].value is Some && doomed(m, root, s[n - 1].value->Some_0.domain) {
            rest.push(Capa::Region(Handle { idx: (n - 1) as usize, gen: s[n - 1].gen }))
        } else {
            rest
        }
    }
}

/// The lowest empty slot of a table that has one.
pub open spec fn first_free_idx(c: Seq<Capa>) -> int {
    choose|i: int| is_first_free(c, i)
}

/// `items` placed one after the other, each in the lowest empty slot left.
pub open spec fn fill(c: Seq<Capa>, items: Seq<Capa>) -> Seq<Capa>
    decreases items.len(),
{
    if items.len() == 0 {
        c
    } else {
        let p = fill(c, items.drop_last());
        p.update(first_free_idx(p), items.last())
    }
}

/// How many of the slots below `n` are empty.
pub open spec fn count_empty(c: Seq<Capa>, n: int) -> nat
    decreases n,
{
    if n <= 0 {
        0
    } else {
        count_empty(c, n - 1) + if c[n - 1] == Capa::Empty { 1nat } else { 0nat }
    }
}

proof fn lemma_first_free_unique(c: Seq<Capa>, i: int)
    requires
        is_first_free(c, i),
    ensures
        first_free_idx(c) == i,
{
    let j = first_free_idx(c);
    assert(is_first_free(c, j));
    if j < i {
        assert(c[j] != Capa::Empty);
    }
    if i < j {
        assert(c[i] != Capa::Empty);
    }
}

proof fn lemma_count_update(c: Seq<Capa>, j: int, v: Capa, n: int)
    requires
        0 <= j < c.len(),
        c[j] == Capa::Empty,
        v != Capa::Empty,
        n <= c.len(),
    ensures
        count_empty(c.update(j, v), n) + (if j < n { 1nat } else { 0nat }) == count_empty(c, n),
    decreases n,
{
    if n > 0 {
        lemma_count_update(c, j, v, n - 1);
    }
}

proof fn lemma_count_pos(c: Seq<Capa>, n: int)
    requires
        count_empty(c, n) > 0,
        n <= c.len(),
    ensures
        has_free_slot(c),
    decreases n,
{
    if n > 0 {
        if c[n - 1] == Capa::Empty {
            assert(c[n - 1] == Capa::Empty);
        } else {
            lemma_count_pos(c, n - 1);
        }
    }
}

proof fn lemma_orphans_grow(s: Seq<Slot<RegionCapa>>, m: Map<Handle, DomainView>, root: Handle, n: int, k: int)
    requires
        n <= k,
    ensures
        orphans(s, m, root, n).len() <= orphans(s, m, root, k).len(),
    decreases k - n,
{
    if n < k {
        lemma_orphans_grow(s, m, root, n, k - 1);
    }
}

/// The regions once `root` is revoked: those of revoked domains go to the
/// heir, or go away when there is none.
pub open spec fn released_regions(rm: Map<Handle, RegionCapa>, m: Map<Handle, DomainView>, root: Handle) -> Map<
    Handle,
    RegionCapa,
> {
    match heir_of(m, root) {
        Some(h) => Map::new(
            |x: Handle| rm.contains_key(x),
            |x: Handle| if doomed(m, root, rm[x].domain) { RegionCapa { domain: h, ..rm[x] } } else { rm[x] },
        ),
        None => surviving_regions(rm, m, root),
    }
}

/// The domains once `root` is revoked: the survivors, cleaned, with the
/// heir holding the regions of the revoked domains in its lowest free slots.
pub open spec fn revoked_domains(m: Map<Handle, DomainView>, s: Seq<Slot<RegionCapa>>, root: Handle) -> Map<
    Handle,
    DomainView,
> {
    match heir_of(m, root) {
        Some(h) => surviving_domains(m, root).insert(
            h,
            DomainView {
                capas: fill(cleaned_table(m[h].capas, m, root), orphans(s, m, root, NB_REGIONS as int)),
                ..m[h]
            },
        ),
        None => surviving_domains(m, root),
    }
}

/// The update telling platform code that the heir's memory grew, if it did.
pub open spec fn heir_updates(m: Map<Handle, DomainView>, s: Seq<Slot<RegionCapa>>, root: Handle) -> Seq<Update> {
    match heir_of(m, root) {
        Some(h) => if orphans(s, m, root, NB_REGIONS as int).len() > 0 {
            seq![Update::PermissionUpdate { domain: h }]
        } else {
            Seq::empty()
        },
        None => Seq::empty(),
    }
}

/// How many of the slots below `n` are occupied.
pub open spec fn live_below<T>(s: Seq<Slot<T>>, n: int) -> nat
    decreases n,
{
    if n <= 0 {
        0
    } else {
        live_below(s, n - 1) + if s[n - 1].value is Some { 1nat } else { 0nat }
    }
}

proof fn lemma_live_below_grows<T>(s: Seq<Slot<T>>, n: int, m: int)
    requires
        n <= m,
    ensures
        live_below(s, n) <= live_below(s, m),
    decreases m - n,
{
    if n < m {
        lemma_live_below_grows(s, n, m - 1);
    }
}

/// The table has at least two empty slots.
pub open spec fn two_free_slots(capas: Seq<Capa>) -> bool {
    exists|i: int, j: int|
        0 <= i < j < capas.len() && #[trigger] capas[i] == Capa::Empty && #[trigger] capas[j] == Capa::Empty
}

/// One of the two pieces of a segmented region.
pub open spec fn piece_of(reg: RegionCapa, access: AccessRights) -> RegionCapa {
    RegionCapa { access, active: true, depth: (reg.depth + 1) as usize, ..reg }
}

fn piece_of_exec(reg: &RegionCapa, access: AccessRights) -> (r: RegionCapa)
    requires
        reg.depth < usize::MAX,
    ensures
        r == piece_of(*reg, access),
{
    RegionCapa { access, active: true, depth: reg.depth + 1, ..*reg }
}

impl CapaEngine {
    // ----------------------------------------------------------------- views

    /// The live domains.
    pub closed spec fn domain_map(&self) -> Map<Handle, DomainView> {
        dom_views(self.domains@)
    }

    /// The live region capabilities.
    pub closed spec fn region_map(&self) -> Map<Handle, RegionCapa> {
        live_map(self.regions@)
    }

    /// The updates not yet taken by platform code, oldest first.
    pub closed spec fn pending(&self) -> Seq<Update> {
        self.updates@
    }

    /// The domain bound to each core.
    pub closed spec fn core_bindings(&self) -> Seq<Core> {
        self.cores@
    }

    /// The last domain id handed out.
    pub closed spec fn last_id(&self) -> usize {
        self.id_counter
    }

    /// How many more domains fit.
    pub closed spec fn domain_room(&self) -> nat {
        self.domains.free_count()
    }

    /// How many more region capabilities fit.
    pub closed spec fn region_room(&self) -> nat {
        self.regions.free_count()
    }

    /// How many more updates fit in the queue.
    pub open spec fn update_room(&self) -> int {
        NB_UPDATES - self.pending().len()
    }

    pub closed spec fn wf(&self) -> bool {
        &&& self.domains.wf()
        &&& self.regions.wf()
        &&& self.updates.wf()
        &&& self.domains@.len() == NB_DOMAINS
        &&& self.regions@.len() == NB_REGIONS
        &&& self.cores@.len() == NB_CORES
        &&& self.updates.max_len() == NB_UPDATES
        &&& forall|i: int|
            0 <= i < NB_DOMAINS && (#[trigger] self.domains@[i]).value is Some
                ==> self.domains@[i].value->Some_0.capas@.len() == NB_CAPAS_PER_DOMAIN
                && 1 <= self.domains@[i].value->Some_0.id <= self.id_counter
        &&& forall|i: int|
            0 <= i < NB_REGIONS && (#[trigger] self.regions@[i]).value is Some
                ==> region_wf(self.regions@[i].value->Some_0)
    }

    pub open spec fn live(&self, d: Handle) -> bool {
        self.domain_map().contains_key(d)
    }

    pub open spec fn dom(&self, d: Handle) -> DomainView {
        self.domain_map()[d]
    }

    /// The capability in slot `i` of a domain's table, `Empty` outside the table.
    pub open spec fn capa_at(&self, d: Handle, i: usize) -> Capa {
        if i < self.dom(d).capas.len() {
            self.dom(d).capas[i as int]
        } else {
            Capa::Empty
        }
    }

    /// A live domain's table has room for one more capability.
    pub open spec fn table_has_room(&self, d: Handle) -> bool {
        has_free_slot(self.dom(d).capas)
    }

    /// What every live domain's table looks like.
    pub proof fn lemma_tables(&self, d: Handle)
        requires
            self.wf(),
            self.live(d),
        ensures
            self.dom(d).capas.len() == NB_CAPAS_PER_DOMAIN,
            d.idx < NB_DOMAINS,
            1 <= self.dom(d).id <= self.last_id(),
            self.core_bindings().len() == NB_CORES,
    {
    }

    /// How the maps relate to the slots they are read from, and what the
    /// rooms say about the slots.
    pub proof fn lemma_slots(&self)
        requires
            self.wf(),
        ensures
            self.domain_slots().len() == NB_DOMAINS,
            self.region_slots().len() == NB_REGIONS,
            self.core_bindings().len() == NB_CORES,
            forall|h: Handle| #[trigger] self.live(h) <==> slot_live(self.domain_slots(), h),
            forall|h: Handle| #[trigger] self.live(h) ==> self.dom(h) == self.domain_slots()[h.idx as int].value->Some_0@,
            forall|x: Handle| #[trigger] self.region_map().contains_key(x) <==> slot_live(self.region_slots(), x),
            forall|x: Handle|
                #[trigger] self.region_map().contains_key(x) ==> self.region_map()[x]
                    == self.region_slots()[x.idx as int].value->Some_0,
            self.domain_room() > 0 ==> exists|i: int|
                0 <= i < NB_DOMAINS && (#[trigger] self.domain_slots()[i]).value is None,
            self.region_room() > 0 ==> exists|i: int|
                0 <= i < NB_REGIONS && (#[trigger] self.region_slots()[i]).value is None,
    {
        self.domains.lemma_room_means_empty();
        self.regions.lemma_room_means_empty();
    }

    // ------------------------------------------------------- construction

    /// An engine with no domain, no region and no pending update.
    pub fn new() -> (r: CapaEngine)
        ensures
            r.wf(),
            r.domain_map() == Map::<Handle, DomainView>::empty(),
            r.region_map() == Map::<Handle, RegionCapa>::empty(),
            r.pending() == Seq::<Update>::empty(),
            r.domain_room() == NB_DOMAINS,
            r.region_room() == NB_REGIONS,
            r.update_room() == NB_UPDATES,
            r.last_id() == 0,
            r.core_bindings().len() == NB_CORES,
            forall|c: int| 0 <= c < NB_CORES ==> (#[trigger] r.core_bindings()[c]).domain is None,
    {
        let mut cores: Vec<Core> = Vec::new();
        let mut i: usize = 0;
        while i < NB_CORES
            invariant
                i <= NB_CORES,
                cores@.len() == i,
                forall|c: int| 0 <= c < i ==> (#[trigger] cores@[c]).domain is None,
            decreases NB_CORES - i,
        {
            cores.push(Core::new());
            i = i + 1;
        }
        let r = CapaEngine {
            cores,
            domains: GenArena::new(NB_DOMAINS),
            regions: GenArena::new(NB_REGIONS),
            updates: Buffer::new(NB_UPDATES),
            id_counter: 0,
        };
        assert(r.domain_map() =~= Map::<Handle, DomainView>::empty());
        assert(r.region_map() =~= Map::<Handle, RegionCapa>::empty());
        r
    }

    /// Why `create_manager_domain` would fail, if it would.
    pub open spec fn create_manager_domain_error(&self) -> Option<CapaError> {
        if self.domain_room() == 0 || self.update_room() < 1 || self.last_id() == usize::MAX {
            Some(CapaError::OutOfMemory)
        } else {
            None
        }
    }

    /// Creates a sealed domain with every core and trap, and the given
    /// permissions, managed by nobody. No permission is checked: this is how
    /// the first domain comes to be.
    pub fn create_manager_domain(&mut self, permissions: u64) -> (r: Result<Handle, CapaError>)
        requires
            old(self).wf(),
        ensures
            final(self).wf(),
            evolves(old(self).domain_slots(), final(self).domain_slots()),
            r is Err <==> old(self).create_manager_domain_error() is Some,
            r is Err ==> r->Err_0 == old(self).create_manager_domain_error()->Some_0 && *final(self) == *old(self),
            r is Ok ==> {
                let h = r->Ok_0;
                &&& !old(self).live(h)
                &&& final(self).domain_map() == old(self).domain_map().insert(
                    h,
                    manager_domain((old(self).last_id() + 1) as usize, permissions),
                )
                &&& final(self).region_map() == old(self).region_map()
                &&& final(self).pending() == old(self).pending().push(Update::CreateDomain { domain: h })
                &&& final(self).core_bindings() == old(self).core_bindings()
                &&& final(self).last_id() == old(self).last_id() + 1
                &&& final(self).domain_room() == old(self).domain_room() - 1
                &&& final(self).region_room() == old(self).region_room()
            },
    {
        if self.domains.free_slots() == 0 || self.updates.free_room() == 0 || self.id_counter == usize::MAX {
            return Err(CapaError::OutOfMemory);
        }
        let id = self.domain_id();
        let mut d = Domain::new(id);
        d.permissions = permissions;
        d.cores = CORE_BITS_ALL;
        d.traps = TRAP_BITS_ALL;
        d.switch = SWITCH_BITS_ALL;
        d.sealed = true;
        assert(d@.capas =~= empty_table());
        let ghost s0 = self.domains@;
        match self.domains.allocate(d) {
            Some(h) => {
                proof {
                    lemma_dom_store(s0, h, d);
                }
                match self.updates.push(Update::CreateDomain { domain: h }) {
                    Ok(()) => {},
                    Err(_) => {
                        assert(false);
                    },
                }
                Ok(h)
            },
            None => vstd::pervasive::unreached(),
        }
    }

    // ------------------------------------------------------------ helpers

    /// The lowest empty slot of a live domain's table.
    fn find_free(&self, d: Handle) -> (r: Option<usize>)
        requires
            self.wf(),
            self.live(d),
        ensures
            r is None <==> !self.table_has_room(d),
            r is Some ==> is_first_free(self.dom(d).capas, r->Some_0 as int),
    {
        match self.domains.get(d) {
            Some(dom) => {
                let r = dom.free_slot_from(0);
                proof {
                    if r is None && self.table_has_room(d) {
                        let i = choose|i: int| 0 <= i < self.dom(d).capas.len() && #[trigger] self.dom(d).capas[i] == Capa::Empty;
                        assert(dom.capas@[i] == Capa::Empty);
                    }
                }
                r
            },
            None => vstd::pervasive::unreached(),
        }
    }

    /// Writes `c` into slot `i` of a live domain's table.
    fn set_capa(&mut self, d: Handle, i: usize, c: Capa)
        requires
            old(self).wf(),
            old(self).live(d),
            i < NB_CAPAS_PER_DOMAIN,
        ensures
            evolves(old(self).domains@, final(self).domains@),
            final(self).wf(),
            final(self).domain_map() == old(self).domain_map().insert(
                d,
                DomainView { capas: old(self).dom(d).capas.update(i as int, c), ..old(self).dom(d) },
            ),
            forall|k: int| 0 <= k < NB_DOMAINS ==> (#[trigger] final(self).domains@[k]).gen == old(self).domains@[k].gen && (final(self).domains@[k].value is Some <==> old(self).domains@[k].value is Some),
            final(self).regions == old(self).regions,
            final(self).updates == old(self).updates,
            final(self).cores == old(self).cores,
            final(self).id_counter == old(self).id_counter,
            final(self).domains.free_count() == old(self).domains.free_count(),
    {
        let ghost s0 = self.domains@;
        let dom = self.domains.get_mut(d);
        dom.capas.set(i, c);
        proof {
            lemma_dom_store(s0, d, *dom);
            assert(dom@ == DomainView { capas: old(self).dom(d).capas.update(i as int, c), ..old(self).dom(d) });
        }
    }

    /// Replaces one bitmap of a live domain.
    fn write_config(&mut self, d: Handle, bitmap: Bitmaps, value: u64)
        requires
            old(self).wf(),
            old(self).live(d),
        ensures
            evolves(old(self).domains@, final(self).domains@),
            final(self).wf(),
            final(self).domain_map() == old(self).domain_map().insert(d, with_config(old(self).dom(d), bitmap, value)),
            final(self).regions == old(self).regions,
            final(self).updates == old(self).updates,
            final(self).cores == old(self).cores,
            final(self).id_counter == old(self).id_counter,
            final(self).domains.free_count() == old(self).domains.free_count(),
    {
        let ghost s0 = self.domains@;
        let dom = self.domains.get_mut(d);
        dom.set_bitmap(bitmap, value);
        proof {
            lemma_dom_store(s0, d, *dom);
        }
    }

    /// Seals a live domain.
    fn write_sealed(&mut self, d: Handle)
        requires
            old(self).wf(),
            old(self).live(d),
        ensures
            evolves(old(self).domains@, final(self).domains@),
            final(self).wf(),
            final(self).domain_map() == old(self).domain_map().insert(
                d,
                DomainView { sealed: true, ..old(self).dom(d) },
            ),
            final(self).regions == old(self).regions,
            final(self).updates == old(self).updates,
            final(self).cores == old(self).cores,
            final(self).id_counter == old(self).id_counter,
            final(self).domains.free_count() == old(self).domains.free_count(),
    {
        let ghost s0 = self.domains@;
        let dom = self.domains.get_mut(d);
        dom.sealed = true;
        proof {
            lemma_dom_store(s0, d, *dom);
        }
    }

    /// Sets the manager and the running cores of a live domain.
    fn write_links(&mut self, d: Handle, manager: Option<Handle>, execution_cores: u64)
        requires
            old(self).wf(),
            old(self).live(d),
        ensures
            evolves(old(self).domains@, final(self).domains@),
            final(self).wf(),
            final(self).domain_map() == old(self).domain_map().insert(
                d,
                DomainView { manager, execution_cores, ..old(self).dom(d) },
            ),
            final(self).regions == old(self).regions,
            final(self).updates == old(self).updates,
            final(self).cores == old(self).cores,
            final(self).id_counter == old(self).id_counter,
            final(self).domains.free_count() == old(self).domains.free_count(),
    {
        let ghost s0 = self.domains@;
        let dom = self.domains.get_mut(d);
        dom.manager = manager;
        dom.execution_cores = execution_cores;
        proof {
            lemma_dom_store(s0, d, *dom);
        }
    }

    /// Stores a new region capability.
    fn alloc_region(&mut self, v: RegionCapa) -> (h: Handle)
        requires
            old(self).wf(),
            old(self).regions.free_count() > 0,
            region_wf(v),
        ensures
            evolves(old(self).domains@, final(self).domains@),
            final(self).wf(),
            !old(self).region_map().contains_key(h),
            final(self).region_map() == old(self).region_map().insert(h, v),
            final(self).regions.free_count() == old(self).regions.free_count() - 1,
            final(self).domains == old(self).domains,
            final(self).updates == old(self).updates,
            final(self).cores == old(self).cores,
            final(self).id_counter == old(self).id_counter,
    {
        let ghost s0 = self.regions@;
        match self.regions.allocate(v) {
            Some(h) => {
                proof {
                    lemma_store(s0, h, v);
                }
                h
            },
            None => vstd::pervasive::unreached(),
        }
    }

    /// Overwrites a live region capability.
    fn write_region(&mut self, h: Handle, v: RegionCapa)
        requires
            old(self).wf(),
            old(self).region_map().contains_key(h),
            region_wf(v),
        ensures
            evolves(old(self).domains@, final(self).domains@),
            final(self).wf(),
            final(self).region_map() == old(self).region_map().insert(h, v),
            final(self).regions@ == old(self).regions@.update(h.idx as int, Slot { gen: h.gen, value: Some(v) }),
            final(self).regions.free_count() == old(self).regions.free_count(),
            final(self).domains == old(self).domains,
            final(self).updates == old(self).updates,
            final(self).cores == old(self).cores,
            final(self).id_counter == old(self).id_counter,
    {
        let ghost s0 = self.regions@;
        let r = self.regions.get_mut(h);
        *r = v;
        proof {
            lemma_store(s0, h, v);
        }
    }

    /// A live region capability, read at run time.
    fn region_of(&self, h: Handle) -> (r: Option<RegionCapa>)
        requires
            self.wf(),
        ensures
            r is Some <==> self.region_map().contains_key(h),
            r is Some ==> r->Some_0 == self.region_map()[h] && region_wf(r->Some_0),
    {
        match self.regions.get(h) {
            Some(v) => Some(*v),
            None => None,
        }
    }

    /// Queues an update that is known to fit.
    fn queue(&mut self, u: Update)
        requires
            old(self).wf(),
            old(self).updates.room() > 0,
        ensures
            evolves(old(self).domains@, final(self).domains@),
            final(self).wf(),
            final(self).updates@ == old(self).updates@.push(u),
            final(self).updates.room() == old(self).updates.room() - 1,
            final(self).domains == old(self).domains,
            final(self).regions == old(self).regions,
            final(self).cores == old(self).cores,
            final(self).id_counter == old(self).id_counter,
    {
        match self.updates.push(u) {
            Ok(()) => {},
            Err(_) => {
                assert(false);
            },
        }
    }

    /// The view of a live domain, read at run time.
    fn domain_ref(&self, d: Handle) -> (r: &Domain)
        requires
            self.wf(),
            self.live(d),
        ensures
            r@ == self.dom(d),
    {
        match self.domains.get(d) {
            Some(dom) => dom,
            None => vstd::pervasive::unreached(),
        }
    }

    /// The capability in slot `i` of a live domain's table, if that slot holds one.
    fn get_capa(&self, d: Handle, i: usize) -> (r: Result<Capa, CapaError>)
        requires
            self.wf(),
            self.live(d),
        ensures
            r is Err <==> self.capa_at(d, i) == Capa::Empty,
            r is Err ==> r->Err_0 == CapaError::CapabilityDoesNotExist,
            r is Ok ==> r->Ok_0 == self.capa_at(d, i),
    {
        match self.domains.get(d) {
            Some(dom) => match dom.get(i) {
                Some(c) => Ok(c),
                None => Err(CapaError::CapabilityDoesNotExist),
            },
            None => vstd::pervasive::unreached(),
        }
    }

    // --------------------------------------------------- domains and config

    /// Why `create_domain` would fail, if it would.
    pub open spec fn create_domain_error(&self, manager: Handle) -> Option<CapaError> {
        if !self.live(manager) {
            Some(CapaError::CapabilityDoesNotExist)
        } else if !holds_config(self.dom(manager), Bitmaps::PERMISSION, permission::SPAWN) {
            Some(CapaError::InsufficientPermissions)
        } else if !self.table_has_room(manager) || self.domain_room() == 0 || self.update_room() < 1
            || self.last_id() == usize::MAX {
            Some(CapaError::OutOfMemory)
        } else {
            None
        }
    }

    /// Creates an unsealed child of `manager`, which gets the management
    /// capability for it in the lowest free slot of its table.
    pub fn create_domain(&mut self, manager: Handle) -> (r: Result<LocalCapa, CapaError>)
        requires
            old(self).wf(),
        ensures
            final(self).wf(),
            evolves(old(self).domain_slots(), final(self).domain_slots()),
            r is Err <==> old(self).create_domain_error(manager) is Some,
            r is Err ==> r->Err_0 == old(self).create_domain_error(manager)->Some_0 && *final(self) == *old(self),
            r is Ok ==> {
                let lc = r->Ok_0;
                let h = final(self).capa_at(manager, lc.idx)->Management_0;
                &&& final(self).capa_at(manager, lc.idx) is Management
                &&& is_first_free(old(self).dom(manager).capas, lc.idx as int)
                &&& !old(self).live(h)
                &&& final(self).domain_map() == old(self).domain_map().insert(
                    h,
                    child_domain((old(self).last_id() + 1) as usize, manager),
                ).insert(
                    manager,
                    DomainView {
                        capas: old(self).dom(manager).capas.update(lc.idx as int, Capa::Management(h)),
                        ..old(self).dom(manager)
                    },
                )
                &&& final(self).region_map() == old(self).region_map()
                &&& final(self).pending() == old(self).pending().push(Update::CreateDomain { domain: h })
                &&& final(self).core_bindings() == old(self).core_bindings()
                &&& final(self).last_id() == old(self).last_id() + 1
                &&& final(self).domain_room() == old(self).domain_room() - 1
                &&& final(self).region_room() == old(self).region_room()
            },
    {
        if !self.domains.is_live(manager) {
            return Err(CapaError::CapabilityDoesNotExist);
        }
        if !self.domain_ref(manager).has_config(Bitmaps::PERMISSION, permission::SPAWN) {
            return Err(CapaError::InsufficientPermissions);
        }
        let slot = match self.find_free(manager) {
            Some(i) => i,
            None => {
                return Err(CapaError::OutOfMemory);
            },
        };
        if self.domains.free_slots() == 0 || self.updates.free_room() == 0 || self.id_counter == usize::MAX {
            return Err(CapaError::OutOfMemory);
        }
        proof {
            self.lemma_tables(manager);
        }
        let id = self.domain_id();
        let mut d = Domain::new(id);
        d.manager = Some(manager);
        assert(d@.capas =~= empty_table());
        let ghost s0 = self.domains@;
        let h = match self.domains.allocate(d) {
            Some(h) => h,
            None => vstd::pervasive::unreached(),
        };
        proof {
            lemma_dom_store(s0, h, d);
        }
        self.set_capa(manager, slot, Capa::Management(h));
        match self.updates.push(Update::CreateDomain { domain: h }) {
            Ok(()) => {},
            Err(_) => {
                assert(false);
            },
        }
        Ok(LocalCapa::new(slot))
    }

    /// Why `set_domain_config` would fail, if it would.
    pub open spec fn set_domain_config_error(&self, domain: Handle) -> Option<CapaError> {
        if !self.live(domain) {
            Some(CapaError::CapabilityDoesNotExist)
        } else if self.dom(domain).sealed {
            Some(CapaError::AlreadySealed)
        } else {
            None
        }
    }

    /// Replaces one bitmap of an unsealed domain.
    pub fn set_domain_config(&mut self, domain: Handle, bitmap: Bitmaps, value: u64) -> (r: Result<(), CapaError>)
        requires
            old(self).wf(),
        ensures
            final(self).wf(),
            evolves(old(self).domain_slots(), final(self).domain_slots()),
            r is Err <==> old(self).set_domain_config_error(domain) is Some,
            r is Err ==> r->Err_0 == old(self).set_domain_config_error(domain)->Some_0 && *final(self) == *old(self),
            r is Ok ==> {
                &&& final(self).domain_map() == old(self).domain_map().insert(
                    domain,
                    with_config(old(self).dom(domain), bitmap, value),
                )
                &&& final(self).unchanged_but_domains(*old(self))
            },
    {
        if !self.domains.is_live(domain) {
            return Err(CapaError::CapabilityDoesNotExist);
        }
        if self.domain_ref(domain).is_sealed() {
            return Err(CapaError::AlreadySealed);
        }
        self.write_config(domain, bitmap, value);
        Ok(())
    }

    /// Why `set_child_config` would fail, if it would.
    pub open spec fn set_child_config_error(&self, manager: Handle, capa: LocalCapa, bitmap: Bitmaps, value: u64)
        -> Option<CapaError> {
        if !self.live(manager) {
            Some(CapaError::CapabilityDoesNotExist)
        } else if !holds_config(self.dom(manager), bitmap, value) {
            Some(CapaError::InsufficientPermissions)
        } else if self.capa_at(manager, capa.idx) == Capa::Empty {
            Some(CapaError::CapabilityDoesNotExist)
        } else if !(self.capa_at(manager, capa.idx) is Management) {
            Some(CapaError::WrongCapabilityType)
        } else if !self.live(self.capa_at(manager, capa.idx)->Management_0) {
            Some(CapaError::CapabilityDoesNotExist)
        } else if self.dom(self.capa_at(manager, capa.idx)->Management_0).sealed {
            Some(CapaError::AlreadySealed)
        } else {
            None
        }
    }

    /// Replaces one bitmap of an unsealed child that `manager` manages
    /// through `capa`. The manager can only grant bits that it holds itself
    /// in the same bitmap.
    pub fn set_child_config(&mut self, manager: Handle, capa: LocalCapa, bitmap: Bitmaps, value: u64) -> (r:
        Result<(), CapaError>)
        requires
            old(self).wf(),
        ensures
            final(self).wf(),
            evolves(old(self).domain_slots(), final(self).domain_slots()),
            r is Err <==> old(self).set_child_config_error(manager, capa, bitmap, value) is Some,
            r is Err ==> r->Err_0 == old(self).set_child_config_error(manager, capa, bitmap, value)->Some_0
                && *final(self) == *old(self),
            r is Ok ==> {
                let child = old(self).capa_at(manager, capa.idx)->Management_0;
                &&& final(self).domain_map() == old(self).domain_map().insert(
                    child,
                    with_config(old(self).dom(child), bitmap, value),
                )
                &&& final(self).unchanged_but_domains(*old(self))
            },
    {
        if !self.domains.is_live(manager) {
            return Err(CapaError::CapabilityDoesNotExist);
        }
        if !self.domain_ref(manager).has_config(bitmap, value) {
            return Err(CapaError::InsufficientPermissions);
        }
        let child = match self.get_capa(manager, capa.idx) {
            Ok(Capa::Management(child)) => child,
            Ok(_) => {
                return Err(CapaError::WrongCapabilityType);
            },
            Err(e) => {
                return Err(e);
            },
        };
        if !self.domains.is_live(child) {
            return Err(CapaError::CapabilityDoesNotExist);
        }
        if self.domain_ref(child).is_sealed() {
            return Err(CapaError::AlreadySealed);
        }
        self.write_config(child, bitmap, value);
        Ok(())
    }

    pub fn get_domain_config(&self, domain: Handle, bitmap: Bitmaps) -> (r: u64)
        requires
            self.wf(),
            self.live(domain),
        ensures
            r == crate::domain::config_of(self.dom(domain), bitmap),
    {
        self.domain_ref(domain).get_config(bitmap)
    }

    pub fn is_sealed(&self, domain: Handle) -> (r: bool)
        requires
            self.wf(),
            self.live(domain),
        ensures
            r == self.dom(domain).sealed,
    {
        self.domain_ref(domain).is_sealed()
    }

    /// Everything but the domains is as in `old`.
    pub open spec fn unchanged_but_domains(&self, old: CapaEngine) -> bool {
        &&& self.region_map() == old.region_map()
        &&& self.pending() == old.pending()
        &&& self.core_bindings() == old.core_bindings()
        &&& self.last_id() == old.last_id()
        &&& self.domain_room() == old.domain_room()
        &&& self.region_room() == old.region_room()
        &&& self.update_room() == old.update_room()
    }

    /// Why `seal` would fail, if it would.
    pub open spec fn seal_error(&self, domain: Handle, core: usize, capa: LocalCapa) -> Option<CapaError> {
        if !self.live(domain) {
            Some(CapaError::CapabilityDoesNotExist)
        } else if self.capa_at(domain, capa.idx) == Capa::Empty {
            Some(CapaError::CapabilityDoesNotExist)
        } else if !(self.capa_at(domain, capa.idx) is Management) {
            Some(CapaError::WrongCapabilityType)
        } else if !self.live(self.capa_at(domain, capa.idx)->Management_0) {
            Some(CapaError::CapabilityDoesNotExist)
        } else if self.dom(self.capa_at(domain, capa.idx)->Management_0).sealed {
            Some(CapaError::AlreadySealed)
        } else if core >= NB_CORES {
            Some(CapaError::InvalidCore)
        } else if !self.table_has_room(domain) {
            Some(CapaError::OutOfMemory)
        } else {
            None
        }
    }

    /// Seals the child that `domain` manages through `capa` and gives
    /// `domain` a capability to switch to it on `core`, in the lowest free
    /// slot of its table.
    pub fn seal(&mut self, domain: Handle, core: usize, capa: LocalCapa) -> (r: Result<LocalCapa, CapaError>)
        requires
            old(self).wf(),
        ensures
            final(self).wf(),
            evolves(old(self).domain_slots(), final(self).domain_slots()),
            r is Err <==> old(self).seal_error(domain, core, capa) is Some,
            r is Err ==> r->Err_0 == old(self).seal_error(domain, core, capa)->Some_0 && *final(self) == *old(self),
            r is Ok ==> {
                let child = old(self).capa_at(domain, capa.idx)->Management_0;
                let lc = r->Ok_0;
                &&& is_first_free(old(self).dom(domain).capas, lc.idx as int)
                &&& final(self).domain_map() == old(self).domain_map().insert(
                    child,
                    DomainView { sealed: true, ..old(self).dom(child) },
                ).insert(
                    domain,
                    DomainView {
                        capas: old(self).dom(domain).capas.update(lc.idx as int, Capa::Switch { to: child, core }),
                        ..old(self).domain_map().insert(child, DomainView { sealed: true, ..old(self).dom(child) })[domain]
                    },
                )
                &&& final(self).unchanged_but_domains(*old(self))
            },
    {
        if !self.domains.is_live(domain) {
            return Err(CapaError::CapabilityDoesNotExist);
        }
        let child = match self.get_capa(domain, capa.idx) {
            Ok(Capa::Management(child)) => child,
            Ok(_) => {
                return Err(CapaError::WrongCapabilityType);
            },
            Err(e) => {
                return Err(e);
            },
        };
        if !self.domains.is_live(child) {
            return Err(CapaError::CapabilityDoesNotExist);
        }
        if self.domain_ref(child).is_sealed() {
            return Err(CapaError::AlreadySealed);
        }
        if core >= NB_CORES {
            return Err(CapaError::InvalidCore);
        }
        let slot = match self.find_free(domain) {
            Some(i) => i,
            None => {
                return Err(CapaError::OutOfMemory);
            },
        };
        proof {
            self.lemma_tables(domain);
        }
        self.write_sealed(child);
        self.set_capa(domain, slot, Capa::Switch { to: child, core });
        Ok(LocalCapa::new(slot))
    }

    // ------------------------------------------------------------ regions

    /// Why `create_root_region` would fail, if it would.
    pub open spec fn create_root_region_error(&self, domain: Handle, access: AccessRights) -> Option<CapaError> {
        if !self.live(domain) {
            Some(CapaError::CapabilityDoesNotExist)
        } else if !(access.start < access.end) {
            Some(CapaError::InvalidRegion)
        } else if !ops_within(access.ops, MEMOPS_ALL) {
            Some(CapaError::InvalidMemOps)
        } else if exists|x: Handle| #[trigger] self.region_map().contains_key(x) && conflicts(self.region_map()[x], domain, access) {
            Some(CapaError::InvalidRegion)
        } else if !self.table_has_room(domain) || self.region_room() == 0 || self.update_room() < 1 {
            Some(CapaError::OutOfMemory)
        } else {
            None
        }
    }

    /// Gives `domain` a confidential region that no other region was carved
    /// from, in the lowest free slot of its table. The range must be
    /// non-empty, and may overlap an active region of the domain only where
    /// the rights are the same.
    pub fn create_root_region(&mut self, domain: Handle, access: AccessRights) -> (r: Result<LocalCapa, CapaError>)
        requires
            old(self).wf(),
        ensures
            final(self).wf(),
            evolves(old(self).domain_slots(), final(self).domain_slots()),
            r is Err <==> old(self).create_root_region_error(domain, access) is Some,
            r is Err ==> r->Err_0 == old(self).create_root_region_error(domain, access)->Some_0
                && *final(self) == *old(self),
            r is Ok ==> {
                let lc = r->Ok_0;
                let h = final(self).capa_at(domain, lc.idx)->Region_0;
                &&& final(self).capa_at(domain, lc.idx) is Region
                &&& is_first_free(old(self).dom(domain).capas, lc.idx as int)
                &&& !old(self).region_map().contains_key(h)
                &&& final(self).region_map() == old(self).region_map().insert(
                    h,
                    RegionCapa { domain, access, confidential: true, active: true, lineage: h, depth: 0 },
                )
                &&& final(self).domain_map() == old(self).domain_map().insert(
                    domain,
                    DomainView {
                        capas: old(self).dom(domain).capas.update(lc.idx as int, Capa::Region(h)),
                        ..old(self).dom(domain)
                    },
                )
                &&& final(self).pending() == old(self).pending().push(Update::PermissionUpdate { domain })
                &&& final(self).core_bindings() == old(self).core_bindings()
                &&& final(self).last_id() == old(self).last_id()
                &&& final(self).domain_room() == old(self).domain_room()
                &&& final(self).region_room() == old(self).region_room() - 1
            },
    {
        if !self.domains.is_live(domain) {
            return Err(CapaError::CapabilityDoesNotExist);
        }
        if !(access.start < access.end) {
            return Err(CapaError::InvalidRegion);
        }
        if !ops_subset(access.ops, MEMOPS_ALL) {
            return Err(CapaError::InvalidMemOps);
        }
        if self.has_conflict(domain, &access) {
            return Err(CapaError::InvalidRegion);
        }
        let slot = match self.find_free(domain) {
            Some(i) => i,
            None => {
                return Err(CapaError::OutOfMemory);
            },
        };
        if self.regions.free_slots() == 0 || self.updates.free_room() == 0 {
            return Err(CapaError::OutOfMemory);
        }
        proof {
            self.lemma_tables(domain);
        }
        let ghost s0 = self.regions@;
        let provisional = RegionCapa {
            domain,
            access,
            confidential: true,
            active: true,
            lineage: Handle::new_invalid(),
            depth: 0,
        };
        let h = self.alloc_region(provisional);
        // A root region is the head of its own lineage.
        self.write_region(h, RegionCapa { lineage: h, ..provisional });
        self.set_capa(domain, slot, Capa::Region(h));
        self.queue(Update::PermissionUpdate { domain });
        Ok(LocalCapa::new(slot))
    }

    /// Whether an active region of `domain` overlaps `access` with other rights.
    fn has_conflict(&self, domain: Handle, access: &AccessRights) -> (r: bool)
        requires
            self.wf(),
        ensures
            r == exists|x: Handle| #[trigger] self.region_map().contains_key(x) && conflicts(self.region_map()[x], domain, *access),
    {
        let mut i: usize = 0;
        while i < NB_REGIONS
            invariant
                self.wf(),
                i <= NB_REGIONS,
                forall|x: Handle| #[trigger] self.region_map().contains_key(x) && x.idx < i ==> !conflicts(self.region_map()[x], domain, *access),
            decreases NB_REGIONS - i,
        {
            match self.regions.handle_at(i) {
                Some(x) => {
                    let xr = match self.region_of(x) {
                        Some(v) => v,
                        None => vstd::pervasive::unreached(),
                    };
                    if xr.domain == domain && xr.active && xr.access.start < access.end && access.start < xr.access.end
                        && xr.access.ops != access.ops {
                        return true;
                    }
                    proof {
                        assert forall|z: Handle| #[trigger] self.region_map().contains_key(z) && z.idx == i implies z == x by {}
                    }
                },
                None => {
                    proof {
                        assert forall|z: Handle| #[trigger] self.region_map().contains_key(z) implies z.idx != i by {}
                    }
                },
            }
            i = i + 1;
        }
        proof {
            assert forall|z: Handle| #[trigger] self.region_map().contains_key(z) implies z.idx < NB_REGIONS by {}
        }
        false
    }

    /// Why `segment_region` would fail, if it would.
    pub open spec fn segment_region_error(
        &self,
        domain: Handle,
        capa: LocalCapa,
        left: AccessRights,
        right: AccessRights,
    ) -> Option<CapaError> {
        let c = self.capa_at(domain, capa.idx);
        let reg = self.region_map()[c->Region_0];
        if !self.live(domain) {
            Some(CapaError::CapabilityDoesNotExist)
        } else if !holds_config(self.dom(domain), Bitmaps::PERMISSION, permission::DUPLICATE) {
            Some(CapaError::InsufficientPermissions)
        } else if c == Capa::Empty {
            Some(CapaError::CapabilityDoesNotExist)
        } else if !(c is Region) {
            Some(CapaError::WrongCapabilityType)
        } else if !self.region_map().contains_key(c->Region_0) {
            Some(CapaError::CapabilityDoesNotExist)
        } else if reg.domain != domain {
            Some(CapaError::InternalRegionError)
        } else if !reg.active || !tiles(reg.access, left, right) {
            Some(CapaError::InvalidRegion)
        } else if !ops_within(left.ops, reg.access.ops) || !ops_within(right.ops, reg.access.ops) {
            Some(CapaError::InvalidMemOps)
        } else if !two_free_slots(self.dom(domain).capas) || self.region_room() < 2 || self.update_room() < 1 {
            Some(CapaError::OutOfMemory)
        } else {
            None
        }
    }

    /// Splits an active region of `domain` into two adjacent pieces that
    /// span it exactly, with rights no wider than its own. The region stays
    /// in the table, inactive, so that it can be restored later; the pieces
    /// go into the two lowest free slots.
    pub fn segment_region(
        &mut self,
        domain: Handle,
        capa: LocalCapa,
        left: AccessRights,
        right: AccessRights,
    ) -> (r: Result<(LocalCapa, LocalCapa), CapaError>)
        requires
            old(self).wf(),
        ensures
            final(self).wf(),
            evolves(old(self).domain_slots(), final(self).domain_slots()),
            r is Err <==> old(self).segment_region_error(domain, capa, left, right) is Some,
            r is Err ==> r->Err_0 == old(self).segment_region_error(domain, capa, left, right)->Some_0
                && *final(self) == *old(self),
            r is Ok ==> {
                let (lc, rc) = r->Ok_0;
                let h = old(self).capa_at(domain, capa.idx)->Region_0;
                let reg = old(self).region_map()[h];
                let hl = final(self).capa_at(domain, lc.idx)->Region_0;
                let hr = final(self).capa_at(domain, rc.idx)->Region_0;
                &&& final(self).capa_at(domain, lc.idx) is Region
                &&& final(self).capa_at(domain, rc.idx) is Region
                &&& is_first_free(old(self).dom(domain).capas, lc.idx as int)
                &&& is_first_free(old(self).dom(domain).capas.update(lc.idx as int, Capa::Region(hl)), rc.idx as int)
                &&& !old(self).region_map().contains_key(hl)
                &&& !old(self).region_map().contains_key(hr)
                &&& hl != hr
                &&& final(self).region_map() == old(self).region_map().insert(
                    h,
                    RegionCapa { active: false, ..reg },
                ).insert(hl, piece_of(reg, left)).insert(hr, piece_of(reg, right))
                &&& final(self).domain_map() == old(self).domain_map().insert(
                    domain,
                    DomainView {
                        capas: old(self).dom(domain).capas.update(lc.idx as int, Capa::Region(hl)).update(
                            rc.idx as int,
                            Capa::Region(hr),
                        ),
                        ..old(self).dom(domain)
                    },
                )
                &&& final(self).pending() == old(self).pending().push(Update::PermissionUpdate { domain })
                &&& final(self).core_bindings() == old(self).core_bindings()
                &&& final(self).last_id() == old(self).last_id()
                &&& final(self).domain_room() == old(self).domain_room()
                &&& final(self).region_room() == old(self).region_room() - 2
            },
    {
        if !self.domains.is_live(domain) {
            return Err(CapaError::CapabilityDoesNotExist);
        }
        if !self.domain_ref(domain).has_config(Bitmaps::PERMISSION, permission::DUPLICATE) {
            return Err(CapaError::InsufficientPermissions);
        }
        let h = match self.get_capa(domain, capa.idx) {
            Ok(Capa::Region(h)) => h,
            Ok(_) => {
                return Err(CapaError::WrongCapabilityType);
            },
            Err(e) => {
                return Err(e);
            },
        };
        let reg = match self.region_of(h) {
            Some(reg) => reg,
            None => {
                return Err(CapaError::CapabilityDoesNotExist);
            },
        };
        if reg.domain != domain {
            return Err(CapaError::InternalRegionError);
        }
        if !reg.active || !(left.start == reg.access.start && left.end == right.start && right.end
            == reg.access.end && left.start < left.end && right.start < right.end) {
            return Err(CapaError::InvalidRegion);
        }
        if !ops_subset(left.ops, reg.access.ops) || !ops_subset(right.ops, reg.access.ops) {
            return Err(CapaError::InvalidMemOps);
        }
        let first = match self.find_free(domain) {
            Some(i) => i,
            None => {
                return Err(CapaError::OutOfMemory);
            },
        };
        proof {
            self.lemma_tables(domain);
        }
        let second = match self.domain_ref(domain).free_slot_from(first + 1) {
            Some(i) => i,
            None => {
                proof {
                    assert forall|i: int, j: int|
                        0 <= i < j < self.dom(domain).capas.len() && #[trigger] self.dom(domain).capas[i] == Capa::Empty
                            implies #[trigger] self.dom(domain).capas[j] != Capa::Empty by {
                        assert(i >= first);
                    }
                }
                return Err(CapaError::OutOfMemory);
            },
        };
        if self.regions.free_slots() < 2 || self.updates.free_room() == 0 {
            return Err(CapaError::OutOfMemory);
        }
        assert(two_free_slots(self.dom(domain).capas));
        self.write_region(h, RegionCapa { active: false, ..reg });
        let hl = self.alloc_region(piece_of_exec(&reg, left));
        let hr = self.alloc_region(piece_of_exec(&reg, right));
        self.set_capa(domain, first, Capa::Region(hl));
        self.set_capa(domain, second, Capa::Region(hr));
        self.queue(Update::PermissionUpdate { domain });
        Ok((LocalCapa::new(first), LocalCapa::new(second)))
    }

    // ------------------------------------------------------------- transfer

    /// `child` is `d` itself or one of its managers, transitively.
    pub open spec fn is_ancestor(&self, child: Handle, d: Handle) -> bool {
        chain_reaches(self.domain_map(), d, child, NB_DOMAINS as nat)
    }

    /// The domain that the capability in slot `to` lets `domain` send to.
    pub open spec fn send_target(&self, domain: Handle, to: LocalCapa) -> Handle {
        channel_target(self.capa_at(domain, to.idx))->Some_0
    }

    /// The checks that `send` and `send_aliased` share.
    pub open spec fn send_common_error(&self, domain: Handle, capa: LocalCapa, to: LocalCapa) -> Option<CapaError> {
        if !self.live(domain) {
            Some(CapaError::CapabilityDoesNotExist)
        } else if !holds_config(self.dom(domain), Bitmaps::PERMISSION, permission::SEND) {
            Some(CapaError::InsufficientPermissions)
        } else if self.capa_at(domain, to.idx) == Capa::Empty {
            Some(CapaError::CapabilityDoesNotExist)
        } else if channel_target(self.capa_at(domain, to.idx)) is None {
            Some(CapaError::WrongCapabilityType)
        } else if !self.live(self.send_target(domain, to)) {
            Some(CapaError::CapabilityDoesNotExist)
        } else if self.capa_at(domain, capa.idx) == Capa::Empty {
            Some(CapaError::CapabilityDoesNotExist)
        } else {
            None
        }
    }

    /// The checks on the capability being sent, once the common ones passed.
    pub open spec fn send_capa_error(&self, domain: Handle, capa: LocalCapa, to: LocalCapa) -> Option<CapaError> {
        let c = self.capa_at(domain, capa.idx);
        let target = self.send_target(domain, to);
        if target == domain {
            None
        } else {
        match c {
            Capa::Region(h) => {
                if !self.region_map().contains_key(h) {
                    Some(CapaError::CapabilityDoesNotExist)
                } else if self.region_map()[h].domain != domain {
                    Some(CapaError::InternalRegionError)
                } else if !self.table_has_room(target) || self.update_room() < 2 {
                    Some(CapaError::OutOfMemory)
                } else {
                    None
                }
            },
            Capa::Management(child) => {
                if !self.live(child) {
                    Some(CapaError::CapabilityDoesNotExist)
                } else if self.is_ancestor(child, target) {
                    Some(CapaError::InvalidOperation)
                } else if !self.table_has_room(target) {
                    Some(CapaError::OutOfMemory)
                } else {
                    None
                }
            },
            _ => {
                if !self.table_has_room(target) {
                    Some(CapaError::OutOfMemory)
                } else {
                    None
                }
            },
        }
        }
    }

    /// Why `send` would fail, if it would.
    pub open spec fn send_error(&self, domain: Handle, capa: LocalCapa, to: LocalCapa) -> Option<CapaError> {
        if self.send_common_error(domain, capa, to) is Some {
            self.send_common_error(domain, capa, to)
        } else {
            self.send_capa_error(domain, capa, to)
        }
    }

    /// The domains after moving the capability of slot `capa` of `domain`
    /// into slot `j` of `target`.
    pub open spec fn moved(&self, domain: Handle, capa: LocalCapa, target: Handle, j: int) -> Map<Handle, DomainView> {
        let c = self.capa_at(domain, capa.idx);
        let m1 = with_slot(self.domain_map(), domain, capa.idx as int, Capa::Empty);
        let m2 = with_slot(m1, target, j, c);
        match c {
            Capa::Management(child) => with_manager(m2, child, target),
            _ => m2,
        }
    }

    /// Moves the capability in slot `capa` of `domain` to the domain that the
    /// capability in slot `to` names. The capability leaves the sender's
    /// table and lands in the lowest free slot of the receiver's; a region
    /// changes holder, and a management capability makes the receiver the
    /// manager. A domain that sends to itself keeps its capability where it
    /// is. Nothing changes when the call fails: in particular a receiver
    /// without room leaves the capability with the sender.
    pub fn send(&mut self, domain: Handle, capa: LocalCapa, to: LocalCapa) -> (r: Result<(), CapaError>)
        requires
            old(self).wf(),
        ensures
            final(self).wf(),
            evolves(old(self).domain_slots(), final(self).domain_slots()),
            r is Err <==> old(self).send_error(domain, capa, to) is Some,
            r is Err ==> r->Err_0 == old(self).send_error(domain, capa, to)->Some_0 && *final(self) == *old(self),
            r is Ok ==> old(self).send_target(domain, to) == domain ==> *final(self) == *old(self),
            r is Ok ==> old(self).send_target(domain, to) != domain ==> {
                let target = old(self).send_target(domain, to);
                let c = old(self).capa_at(domain, capa.idx);
                &&& (exists|j: int|
                    is_first_free(old(self).dom(target).capas, j) && #[trigger] old(self).moved(domain, capa, target, j)
                        == final(self).domain_map())
                &&& final(self).core_bindings() == old(self).core_bindings()
                &&& final(self).last_id() == old(self).last_id()
                &&& final(self).domain_room() == old(self).domain_room()
                &&& final(self).region_room() == old(self).region_room()
                &&& match c {
                    Capa::Region(h) => {
                        &&& final(self).region_map() == old(self).region_map().insert(
                            h,
                            RegionCapa { domain: target, ..old(self).region_map()[h] },
                        )
                        &&& final(self).pending() == old(self).pending().push(
                            Update::PermissionUpdate { domain },
                        ).push(Update::PermissionUpdate { domain: target })
                    },
                    _ => {
                        &&& final(self).region_map() == old(self).region_map()
                        &&& final(self).pending() == old(self).pending()
                    },
                }
            },
    {
        let (c, target) = match self.check_send(domain, capa, to) {
            Ok(ct) => ct,
            Err(e) => {
                return Err(e);
            },
        };
        if target == domain {
            return Ok(());
        }
        match c {
            Capa::Region(h) => {
                let reg = match self.region_of(h) {
                    Some(reg) => reg,
                    None => {
                        return Err(CapaError::CapabilityDoesNotExist);
                    },
                };
                if reg.domain != domain {
                    return Err(CapaError::InternalRegionError);
                }
                if self.updates.free_room() < 2 {
                    return Err(CapaError::OutOfMemory);
                }
                let j = match self.find_free(target) {
                    Some(j) => j,
                    None => {
                        return Err(CapaError::OutOfMemory);
                    },
                };
                self.move_capa(domain, capa.idx, target, j, c);
                assert(self.domain_map() == old(self).moved(domain, capa, target, j as int));
                self.write_region(h, RegionCapa { domain: target, ..reg });
                self.queue(Update::PermissionUpdate { domain });
                self.queue(Update::PermissionUpdate { domain: target });
                Ok(())
            },
            Capa::Management(child) => {
                if !self.domains.is_live(child) {
                    return Err(CapaError::CapabilityDoesNotExist);
                }
                if self.reaches(target, child) {
                    return Err(CapaError::InvalidOperation);
                }
                let j = match self.find_free(target) {
                    Some(j) => j,
                    None => {
                        return Err(CapaError::OutOfMemory);
                    },
                };
                self.move_capa(domain, capa.idx, target, j, c);
                let ghost m2 = self.domain_map();
                let execution = self.domain_ref(child).execution_cores;
                self.write_links(child, Some(target), execution);
                assert(self.domain_map() =~= with_manager(m2, child, target));
                assert(self.domain_map() == old(self).moved(domain, capa, target, j as int));
                Ok(())
            },
            _ => {
                let j = match self.find_free(target) {
                    Some(j) => j,
                    None => {
                        return Err(CapaError::OutOfMemory);
                    },
                };
                self.move_capa(domain, capa.idx, target, j, c);
                assert(self.domain_map() == old(self).moved(domain, capa, target, j as int));
                Ok(())
            },
        }
    }

    /// The common checks of `send` and `send_aliased`: the capability to
    /// send and the domain it goes to.
    fn check_send(&self, domain: Handle, capa: LocalCapa, to: LocalCapa) -> (r: Result<(Capa, Handle), CapaError>)
        requires
            self.wf(),
        ensures
            r is Err <==> self.send_common_error(domain, capa, to) is Some,
            r is Err ==> r->Err_0 == self.send_common_error(domain, capa, to)->Some_0,
            r is Ok ==> r->Ok_0 == (self.capa_at(domain, capa.idx), self.send_target(domain, to)),
    {
        if !self.domains.is_live(domain) {
            return Err(CapaError::CapabilityDoesNotExist);
        }
        if !self.domain_ref(domain).has_config(Bitmaps::PERMISSION, permission::SEND) {
            return Err(CapaError::InsufficientPermissions);
        }
        let target = match self.get_capa(domain, to.idx) {
            Ok(Capa::Channel(d)) => d,
            Ok(Capa::Management(d)) => d,
            Ok(_) => {
                return Err(CapaError::WrongCapabilityType);
            },
            Err(e) => {
                return Err(e);
            },
        };
        if !self.domains.is_live(target) {
            return Err(CapaError::CapabilityDoesNotExist);
        }
        let c = match self.get_capa(domain, capa.idx) {
            Ok(c) => c,
            Err(e) => {
                return Err(e);
            },
        };
        Ok((c, target))
    }

    /// Empties slot `i` of `domain` and writes `c` into slot `j` of another domain.
    fn move_capa(&mut self, domain: Handle, i: usize, target: Handle, j: usize, c: Capa)
        requires
            old(self).wf(),
            old(self).live(domain),
            old(self).live(target),
            domain != target,
            i < NB_CAPAS_PER_DOMAIN,
            c == old(self).capa_at(domain, i),
            is_first_free(old(self).dom(target).capas, j as int),
        ensures
            evolves(old(self).domains@, final(self).domains@),
            final(self).wf(),
            final(self).domain_map() == with_slot(
                with_slot(old(self).domain_map(), domain, i as int, Capa::Empty),
                target,
                j as int,
                c,
            ),
            final(self).regions == old(self).regions,
            final(self).updates == old(self).updates,
            final(self).cores == old(self).cores,
            final(self).id_counter == old(self).id_counter,
            final(self).domains.free_count() == old(self).domains.free_count(),
    {
        proof {
            self.lemma_tables(target);
        }
        self.set_capa(domain, i, Capa::Empty);
        self.set_capa(target, j, c);
    }

    /// Whether following manager links from `from` reaches `to`, within the
    /// number of domains the engine can hold.
    fn reaches(&self, from: Handle, to: Handle) -> (r: bool)
        requires
            self.wf(),
        ensures
            r == chain_reaches(self.domain_map(), from, to, NB_DOMAINS as nat),
    {
        let mut cur = from;
        let mut fuel: usize = NB_DOMAINS;
        while fuel > 0
            invariant
                self.wf(),
                chain_reaches(self.domain_map(), from, to, NB_DOMAINS as nat) == chain_reaches(
                    self.domain_map(),
                    cur,
                    to,
                    fuel as nat,
                ),
            decreases fuel,
        {
            if cur == to {
                return true;
            }
            if !self.domains.is_live(cur) {
                return false;
            }
            match self.domain_ref(cur).manager {
                None => {
                    return false;
                },
                Some(n) => {
                    cur = n;
                },
            }
            fuel = fuel - 1;
        }
        cur == to
    }

    /// Why `send_aliased` would fail, if it would.
    pub open spec fn send_aliased_error(&self, domain: Handle, capa: LocalCapa, to: LocalCapa) -> Option<CapaError> {
        let h = self.capa_at(domain, capa.idx)->Region_0;
        let target = self.send_target(domain, to);
        if self.send_common_error(domain, capa, to) is Some {
            self.send_common_error(domain, capa, to)
        } else if !(self.capa_at(domain, capa.idx) is Region) {
            Some(CapaError::WrongCapabilityType)
        } else if !self.region_map().contains_key(h) {
            Some(CapaError::CapabilityDoesNotExist)
        } else if self.region_map()[h].domain != domain {
            Some(CapaError::InternalRegionError)
        } else if target == domain && self.update_room() < 1 {
            Some(CapaError::OutOfMemory)
        } else if target != domain && (!self.table_has_room(target) || self.update_room() < 2) {
            Some(CapaError::OutOfMemory)
        } else {
            None
        }
    }

    /// Like `send`, for a region only, which the receiver then sees at
    /// address `alias`. Sent to its own holder, the region stays put and
    /// only its alias changes.
    pub fn send_aliased(&mut self, domain: Handle, capa: LocalCapa, to: LocalCapa, alias: usize) -> (r: Result<
        (),
        CapaError,
    >)
        requires
            old(self).wf(),
        ensures
            final(self).wf(),
            evolves(old(self).domain_slots(), final(self).domain_slots()),
            r is Err <==> old(self).send_aliased_error(domain, capa, to) is Some,
            r is Err ==> r->Err_0 == old(self).send_aliased_error(domain, capa, to)->Some_0 && *final(self) == *old(
                self,
            ),
            r is Ok ==> old(self).send_target(domain, to) == domain ==> {
                let h = old(self).capa_at(domain, capa.idx)->Region_0;
                let reg = old(self).region_map()[h];
                &&& final(self).region_map() == old(self).region_map().insert(
                    h,
                    RegionCapa { access: AccessRights { alias: Some(alias), ..reg.access }, ..reg },
                )
                &&& final(self).pending() == old(self).pending().push(Update::PermissionUpdate { domain })
                &&& final(self).domain_map() == old(self).domain_map()
                &&& final(self).core_bindings() == old(self).core_bindings()
                &&& final(self).last_id() == old(self).last_id()
                &&& final(self).domain_room() == old(self).domain_room()
                &&& final(self).region_room() == old(self).region_room()
            },
            r is Ok ==> old(self).send_target(domain, to) != domain ==> {
                let target = old(self).send_target(domain, to);
                let h = old(self).capa_at(domain, capa.idx)->Region_0;
                let reg = old(self).region_map()[h];
                &&& (exists|j: int|
                    is_first_free(old(self).dom(target).capas, j) && #[trigger] old(self).moved(domain, capa, target, j)
                        == final(self).domain_map())
                &&& final(self).region_map() == old(self).region_map().insert(
                    h,
                    RegionCapa { domain: target, access: AccessRights { alias: Some(alias), ..reg.access }, ..reg },
                )
                &&& final(self).pending() == old(self).pending().push(Update::PermissionUpdate { domain }).push(
                    Update::PermissionUpdate { domain: target },
                )
                &&& final(self).core_bindings() == old(self).core_bindings()
                &&& final(self).last_id() == old(self).last_id()
                &&& final(self).domain_room() == old(self).domain_room()
                &&& final(self).region_room() == old(self).region_room()
            },
    {
        let (c, target) = match self.check_send(domain, capa, to) {
            Ok(ct) => ct,
            Err(e) => {
                return Err(e);
            },
        };
        let h = match c {
            Capa::Region(h) => h,
            _ => {
                return Err(CapaError::WrongCapabilityType);
            },
        };
        let reg = match self.region_of(h) {
            Some(reg) => reg,
            None => {
                return Err(CapaError::CapabilityDoesNotExist);
            },
        };
        if reg.domain != domain {
            return Err(CapaError::InternalRegionError);
        }
        if target == domain {
            // The region stays where it is; only the address it is seen at changes.
            if self.updates.free_room() == 0 {
                return Err(CapaError::OutOfMemory);
            }
            self.write_region(h, RegionCapa { access: AccessRights { alias: Some(alias), ..reg.access }, ..reg });
            self.queue(Update::PermissionUpdate { domain });
            return Ok(());
        }
        if self.updates.free_room() < 2 {
            return Err(CapaError::OutOfMemory);
        }
        let j = match self.find_free(target) {
            Some(j) => j,
            None => {
                return Err(CapaError::OutOfMemory);
            },
        };
        self.move_capa(domain, capa.idx, target, j, c);
        assert(self.domain_map() == old(self).moved(domain, capa, target, j as int));
        self.write_region(
            h,
            RegionCapa { domain: target, access: AccessRights { alias: Some(alias), ..reg.access }, ..reg },
        );
        self.queue(Update::PermissionUpdate { domain });
        self.queue(Update::PermissionUpdate { domain: target });
        Ok(())
    }

    /// Why `duplicate` would fail, if it would.
    pub open spec fn duplicate_error(&self, domain: Handle, capa: LocalCapa) -> Option<CapaError> {
        if !self.live(domain) {
            Some(CapaError::CapabilityDoesNotExist)
        } else if !holds_config(self.dom(domain), Bitmaps::PERMISSION, permission::DUPLICATE) {
            Some(CapaError::InsufficientPermissions)
        } else if self.capa_at(domain, capa.idx) == Capa::Empty {
            Some(CapaError::CapabilityDoesNotExist)
        } else if !(self.capa_at(domain, capa.idx) is Channel) {
            Some(CapaError::CannotDuplicate)
        } else if !self.table_has_room(domain) {
            Some(CapaError::OutOfMemory)
        } else {
            None
        }
    }

    /// Copies a channel capability into the lowest free slot of the same
    /// table. Regions are split with `segment_region` instead; management
    /// and switch capabilities have a single holder and cannot be copied.
    pub fn duplicate(&mut self, domain: Handle, capa: LocalCapa) -> (r: Result<LocalCapa, CapaError>)
        requires
            old(self).wf(),
        ensures
            final(self).wf(),
            evolves(old(self).domain_slots(), final(self).domain_slots()),
            r is Err <==> old(self).duplicate_error(domain, capa) is Some,
            r is Err ==> r->Err_0 == old(self).duplicate_error(domain, capa)->Some_0 && *final(self) == *old(self),
            r is Ok ==> {
                let lc = r->Ok_0;
                &&& is_first_free(old(self).dom(domain).capas, lc.idx as int)
                &&& final(self).domain_map() == with_slot(
                    old(self).domain_map(),
                    domain,
                    lc.idx as int,
                    old(self).capa_at(domain, capa.idx),
                )
                &&& final(self).unchanged_but_domains(*old(self))
            },
    {
        if !self.domains.is_live(domain) {
            return Err(CapaError::CapabilityDoesNotExist);
        }
        if !self.domain_ref(domain).has_config(Bitmaps::PERMISSION, permission::DUPLICATE) {
            return Err(CapaError::InsufficientPermissions);
        }
        let c = match self.get_capa(domain, capa.idx) {
            Ok(Capa::Channel(d)) => Capa::Channel(d),
            Ok(_) => {
                return Err(CapaError::CannotDuplicate);
            },
            Err(e) => {
                return Err(e);
            },
        };
        let j = match self.find_free(domain) {
            Some(j) => j,
            None => {
                return Err(CapaError::OutOfMemory);
            },
        };
        proof {
            self.lemma_tables(domain);
        }
        self.set_capa(domain, j, c);
        Ok(LocalCapa::new(j))
    }

    /// The domain that a management or channel capability names.
    pub fn get_domain_capa(&self, domain: Handle, capa: LocalCapa) -> (r: Result<Handle, CapaError>)
        requires
            self.wf(),
        ensures
            !self.live(domain) ==> r == Err::<Handle, CapaError>(CapaError::CapabilityDoesNotExist),
            self.live(domain) ==> r == match channel_target(self.capa_at(domain, capa.idx)) {
                Some(d) => Ok(d),
                None => if self.capa_at(domain, capa.idx) == Capa::Empty {
                    Err(CapaError::CapabilityDoesNotExist)
                } else {
                    Err(CapaError::WrongCapabilityType)
                },
            },
    {
        if !self.domains.is_live(domain) {
            return Err(CapaError::CapabilityDoesNotExist);
        }
        match self.get_capa(domain, capa.idx) {
            Ok(Capa::Management(d)) => Ok(d),
            Ok(Capa::Channel(d)) => Ok(d),
            Ok(_) => Err(CapaError::WrongCapabilityType),
            Err(e) => Err(e),
        }
    }

    // ---------------------------------------------------- switch and traps

    /// Why `create_switch` would fail, if it would.
    pub open spec fn create_switch_error(&self, domain: Handle, core: usize) -> Option<CapaError> {
        if !self.live(domain) {
            Some(CapaError::CapabilityDoesNotExist)
        } else if core >= NB_CORES {
            Some(CapaError::InvalidCore)
        } else if !self.table_has_room(domain) {
            Some(CapaError::OutOfMemory)
        } else {
            None
        }
    }

    /// Gives `domain` a capability to switch back to itself on `core`.
    pub fn create_switch(&mut self, domain: Handle, core: usize) -> (r: Result<LocalCapa, CapaError>)
        requires
            old(self).wf(),
        ensures
            final(self).wf(),
            evolves(old(self).domain_slots(), final(self).domain_slots()),
            r is Err <==> old(self).create_switch_error(domain, core) is Some,
            r is Err ==> r->Err_0 == old(self).create_switch_error(domain, core)->Some_0 && *final(self) == *old(self),
            r is Ok ==> {
                let lc = r->Ok_0;
                &&& is_first_free(old(self).dom(domain).capas, lc.idx as int)
                &&& final(self).domain_map() == with_slot(
                    old(self).domain_map(),
                    domain,
                    lc.idx as int,
                    Capa::Switch { to: domain, core },
                )
                &&& final(self).unchanged_but_domains(*old(self))
            },
    {
        if !self.domains.is_live(domain) {
            return Err(CapaError::CapabilityDoesNotExist);
        }
        if core >= NB_CORES {
            return Err(CapaError::InvalidCore);
        }
        let j = match self.find_free(domain) {
            Some(j) => j,
            None => {
                return Err(CapaError::OutOfMemory);
            },
        };
        proof {
            self.lemma_tables(domain);
        }
        self.set_capa(domain, j, Capa::Switch { to: domain, core });
        Ok(LocalCapa::new(j))
    }

    /// Why `start_domain_on_core` would fail, if it would.
    pub open spec fn start_error(&self, domain: Handle, core_id: usize) -> Option<CapaError> {
        if core_id >= NB_CORES {
            Some(CapaError::InvalidCore)
        } else if !self.live(domain) {
            Some(CapaError::CapabilityDoesNotExist)
        } else if self.core_bindings()[core_id as int].domain is Some {
            Some(CapaError::InvalidCore)
        } else {
            None
        }
    }

    /// Binds `domain` to a core that runs nothing yet.
    pub fn start_domain_on_core(&mut self, domain: Handle, core_id: usize) -> (r: Result<(), CapaError>)
        requires
            old(self).wf(),
        ensures
            final(self).wf(),
            evolves(old(self).domain_slots(), final(self).domain_slots()),
            r is Err <==> old(self).start_error(domain, core_id) is Some,
            r is Err ==> r->Err_0 == old(self).start_error(domain, core_id)->Some_0 && *final(self) == *old(self),
            r is Ok ==> {
                &&& final(self).core_bindings() == old(self).core_bindings().update(
                    core_id as int,
                    Core { domain: Some(domain) },
                )
                &&& final(self).domain_map() == old(self).domain_map().insert(
                    domain,
                    DomainView {
                        execution_cores: old(self).dom(domain).execution_cores | (1u64 << core_id),
                        ..old(self).dom(domain)
                    },
                )
                &&& final(self).region_map() == old(self).region_map()
                &&& final(self).pending() == old(self).pending()
                &&& final(self).last_id() == old(self).last_id()
                &&& final(self).domain_room() == old(self).domain_room()
                &&& final(self).region_room() == old(self).region_room()
            },
    {
        if core_id >= NB_CORES {
            return Err(CapaError::InvalidCore);
        }
        if !self.domains.is_live(domain) {
            return Err(CapaError::CapabilityDoesNotExist);
        }
        if self.cores[core_id].domain.is_some() {
            return Err(CapaError::InvalidCore);
        }
        let d = self.domain_ref(domain);
        let manager = d.manager;
        let execution = d.execution_cores | (1u64 << core_id);
        self.write_links(domain, manager, execution);
        self.cores.set(core_id, Core { domain: Some(domain) });
        Ok(())
    }

    /// Why `switch` would fail, if it would.
    pub open spec fn switch_error(&self, domain: Handle, core: usize, capa: LocalCapa) -> Option<CapaError> {
        let c = self.capa_at(domain, capa.idx);
        if !self.live(domain) {
            Some(CapaError::CapabilityDoesNotExist)
        } else if c == Capa::Empty {
            Some(CapaError::CapabilityDoesNotExist)
        } else if !(c is Switch) {
            Some(CapaError::WrongCapabilityType)
        } else if !self.live(c->Switch_to) {
            Some(CapaError::CapabilityDoesNotExist)
        } else if c->Switch_to == domain {
            Some(CapaError::InvalidSwitch)
        } else if core >= NB_CORES || !crate::domain::bit_set(self.dom(c->Switch_to).cores, core as u64) {
            Some(CapaError::InvalidCore)
        } else if !self.table_has_room(c->Switch_to) || self.update_room() < 2 {
            Some(CapaError::OutOfMemory)
        } else {
            None
        }
    }

    /// Hands `core` from `domain` to the domain its switch capability `capa`
    /// names, which must be allowed on that core. The capability is used up;
    /// the domain switched to gets one to switch back, in the lowest free
    /// slot of its table.
    pub fn switch(&mut self, domain: Handle, core: usize, capa: LocalCapa) -> (r: Result<(), CapaError>)
        requires
            old(self).wf(),
        ensures
            final(self).wf(),
            evolves(old(self).domain_slots(), final(self).domain_slots()),
            r is Err <==> old(self).switch_error(domain, core, capa) is Some,
            r is Err ==> r->Err_0 == old(self).switch_error(domain, core, capa)->Some_0 && *final(self) == *old(self),
            r is Ok ==> {
                let next = old(self).capa_at(domain, capa.idx)->Switch_to;
                let bit = 1u64 << core;
                exists|j: int| {
                    let m1 = with_slot(old(self).domain_map(), next, j, Capa::Switch { to: domain, core });
                    let m2 = with_slot(m1, domain, capa.idx as int, Capa::Empty);
                    &&& #[trigger] is_first_free(old(self).dom(next).capas, j)
                    &&& final(self).domain_map() == m2.insert(
                        next,
                        DomainView { execution_cores: m2[next].execution_cores | bit, ..m2[next] },
                    ).insert(
                        domain,
                        DomainView { execution_cores: m2[domain].execution_cores & !bit, ..m2[domain] },
                    )
                    &&& final(self).pending() == old(self).pending().push(
                        Update::Switch { domain: next, return_capa: LocalCapa { idx: j as usize }, core },
                    ).push(Update::UpdateTraps { trap: old(self).dom(next).traps, core })
                }
            },
            r is Ok ==> final(self).core_bindings() == old(self).core_bindings().update(
                core as int,
                Core { domain: Some(old(self).capa_at(domain, capa.idx)->Switch_to) },
            ),
            r is Ok ==> final(self).region_map() == old(self).region_map() && final(self).last_id() == old(
                self,
            ).last_id() && final(self).domain_room() == old(self).domain_room() && final(self).region_room()
                == old(self).region_room(),
    {
        if !self.domains.is_live(domain) {
            return Err(CapaError::CapabilityDoesNotExist);
        }
        let next = match self.get_capa(domain, capa.idx) {
            Ok(Capa::Switch { to, core: _ }) => to,
            Ok(_) => {
                return Err(CapaError::WrongCapabilityType);
            },
            Err(e) => {
                return Err(e);
            },
        };
        if !self.domains.is_live(next) {
            return Err(CapaError::CapabilityDoesNotExist);
        }
        if next == domain {
            return Err(CapaError::InvalidSwitch);
        }
        if core >= NB_CORES || self.domain_ref(next).core_map() & (1u64 << core as u64) == 0 {
            return Err(CapaError::InvalidCore);
        }
        let j = match self.find_free(next) {
            Some(j) => j,
            None => {
                return Err(CapaError::OutOfMemory);
            },
        };
        if self.updates.free_room() < 2 {
            return Err(CapaError::OutOfMemory);
        }
        proof {
            self.lemma_tables(next);
            self.lemma_tables(domain);
        }
        let traps = self.domain_ref(next).traps();
        let bit: u64 = 1u64 << core as u64;
        self.set_capa(next, j, Capa::Switch { to: domain, core });
        self.set_capa(domain, capa.idx, Capa::Empty);
        let ghost m2 = self.domain_map();
        let n = self.domain_ref(next);
        let (nm, ne) = (n.manager, n.execution_cores | bit);
        self.write_links(next, nm, ne);
        let d = self.domain_ref(domain);
        let (dm, de) = (d.manager, d.execution_cores & !bit);
        self.write_links(domain, dm, de);
        self.cores.set(core, Core { domain: Some(next) });
        self.queue(Update::Switch { domain: next, return_capa: LocalCapa::new(j), core });
        self.queue(Update::UpdateTraps { trap: traps, core });
        Ok(())
    }

    /// The nearest manager of `domain`, up the chain, that claims `trap`.
    pub open spec fn trap_handler(&self, domain: Handle, trap: u64) -> Option<Handle> {
        handler_from(self.domain_map(), self.dom(domain).manager, trap, NB_DOMAINS as nat)
    }

    /// Why `handle_trap` would fail, if it would.
    pub open spec fn handle_trap_error(&self, domain: Handle, trap: u64) -> Option<CapaError> {
        if !self.live(domain) {
            Some(CapaError::CapabilityDoesNotExist)
        } else if handles_trap(self.dom(domain), trap) {
            Some(CapaError::ValidTrapCausedExit)
        } else if self.trap_handler(domain, trap) is None {
            Some(CapaError::CouldNotHandleTrap)
        } else if self.update_room() < 2 {
            Some(CapaError::OutOfMemory)
        } else {
            None
        }
    }

    /// Routes a trap that `domain` does not claim to the nearest manager up
    /// the chain that does, and tells platform code which domain takes it
    /// and which traps to intercept from then on.
    pub fn handle_trap(&mut self, domain: Handle, core: usize, trap: u64, info: u64) -> (r: Result<(), CapaError>)
        requires
            old(self).wf(),
        ensures
            final(self).wf(),
            evolves(old(self).domain_slots(), final(self).domain_slots()),
            r is Err <==> old(self).handle_trap_error(domain, trap) is Some,
            r is Err ==> r->Err_0 == old(self).handle_trap_error(domain, trap)->Some_0 && *final(self) == *old(self),
            r is Ok ==> {
                let manager = old(self).trap_handler(domain, trap)->Some_0;
                &&& final(self).pending() == old(self).pending().push(Update::Trap { manager, trap, info, core }).push(
                    Update::UpdateTraps { trap: old(self).dom(manager).traps, core },
                )
                &&& final(self).domain_map() == old(self).domain_map()
                &&& final(self).region_map() == old(self).region_map()
                &&& final(self).core_bindings() == old(self).core_bindings()
                &&& final(self).last_id() == old(self).last_id()
                &&& final(self).domain_room() == old(self).domain_room()
                &&& final(self).region_room() == old(self).region_room()
            },
    {
        if !self.domains.is_live(domain) {
            return Err(CapaError::CapabilityDoesNotExist);
        }
        if self.domain_ref(domain).can_handle(trap) {
            return Err(CapaError::ValidTrapCausedExit);
        }
        let manager = match self.find_trap_handler(self.domain_ref(domain).manager, trap) {
            Some(m) => m,
            None => {
                return Err(CapaError::CouldNotHandleTrap);
            },
        };
        if self.updates.free_room() < 2 {
            return Err(CapaError::OutOfMemory);
        }
        let traps = self.domain_ref(manager).traps();
        self.queue(Update::Trap { manager, trap, info, core });
        self.queue(Update::UpdateTraps { trap: traps, core });
        Ok(())
    }

    fn find_trap_handler(&self, start: Option<Handle>, trap: u64) -> (r: Option<Handle>)
        requires
            self.wf(),
        ensures
            r == handler_from(self.domain_map(), start, trap, NB_DOMAINS as nat),
            r is Some ==> self.live(r->Some_0),
    {
        let mut cur = start;
        let mut fuel: usize = NB_DOMAINS;
        loop
            invariant
                self.wf(),
                handler_from(self.domain_map(), start, trap, NB_DOMAINS as nat) == handler_from(
                    self.domain_map(),
                    cur,
                    trap,
                    fuel as nat,
                ),
            decreases fuel,
        {
            match cur {
                None => {
                    return None;
                },
                Some(h) => {
                    if fuel == 0 || !self.domains.is_live(h) {
                        return None;
                    }
                    let d = self.domain_ref(h);
                    if d.can_handle(trap) {
                        return Some(h);
                    }
                    cur = d.manager;
                    fuel = fuel - 1;
                },
            }
        }
    }

    // ---------------------------------------------------------- enumeration

    /// What enumeration reports of slot `i` of a live domain's table.
    pub open spec fn slot_info(&self, domain: Handle, i: int) -> Option<CapaInfo> {
        info_of(self.dom(domain).capas[i], self.domain_map(), self.region_map())
    }

    /// The first slot of `domain`'s table at or after the token that holds a
    /// capability, what it holds, and the token that resumes after it. Slots
    /// whose capability names something that no longer exists are passed over.
    pub fn enumerate(&self, domain: Handle, token: NextCapaToken) -> (r: Option<(CapaInfo, NextCapaToken)>)
        requires
            self.wf(),
        ensures
            !self.live(domain) ==> r is None,
            self.live(domain) ==> {
                let capas = self.dom(domain).capas;
                &&& r is None ==> forall|i: int| token.idx <= i < capas.len() ==> #[trigger] self.slot_info(domain, i) is None
                &&& r is Some ==> {
                    let i = r->Some_0.1.idx - 1;
                    &&& token.idx <= i < capas.len()
                    &&& forall|k: int| token.idx <= k < i ==> #[trigger] self.slot_info(domain, k) is None
                    &&& self.slot_info(domain, i) == Some(r->Some_0.0)
                }
            },
    {
        if !self.domains.is_live(domain) {
            return None;
        }
        proof {
            self.lemma_tables(domain);
        }
        let d = self.domain_ref(domain);
        let mut i: usize = token.idx;
        while i < d.capas.len()
            invariant
                self.wf(),
                self.live(domain),
                d@ == self.dom(domain),
                d.capas@.len() == NB_CAPAS_PER_DOMAIN,
                token.idx <= i,
                forall|k: int| token.idx <= k < i ==> #[trigger] self.slot_info(domain, k) is None,
            decreases d.capas.len() - i,
        {
            match self.capa_info(d.capas[i]) {
                Some(info) => {
                    return Some((info, NextCapaToken::from_usize(i + 1)));
                },
                None => {},
            }
            i = i + 1;
        }
        None
    }

    fn capa_info(&self, c: Capa) -> (r: Option<CapaInfo>)
        requires
            self.wf(),
        ensures
            r == info_of(c, self.domain_map(), self.region_map()),
    {
        match c {
            Capa::Region(h) => match self.region_of(h) {
                Some(reg) => Some(
                    CapaInfo::Region {
                        start: reg.access.start,
                        end: reg.access.end,
                        active: reg.active,
                        confidential: reg.confidential,
                        ops: reg.access.ops,
                    },
                ),
                None => None,
            },
            Capa::Management(d) => if self.domains.is_live(d) {
                let dom = self.domain_ref(d);
                Some(CapaInfo::Management { domain_id: dom.id, sealed: dom.sealed })
            } else {
                None
            },
            Capa::Channel(d) => if self.domains.is_live(d) {
                Some(CapaInfo::Channel { domain_id: self.domain_ref(d).id })
            } else {
                None
            },
            Capa::Switch { to, core } => if self.domains.is_live(to) {
                Some(CapaInfo::Switch { domain_id: self.domain_ref(to).id, core })
            } else {
                None
            },
            Capa::Empty => None,
        }
    }

    /// The live domain that comes `token`-th in slot order (counting from
    /// zero), and the token that names the next one. Meant for debugging.
    pub fn enumerate_domains(&self, token: NextCapaToken) -> (r: Option<(Handle, NextCapaToken)>)
        requires
            self.wf(),
        ensures
            r is None <==> live_below(self.domain_slots(), NB_DOMAINS as int) <= token.idx,
            r is Some ==> {
                let (h, next) = r->Some_0;
                &&& self.live(h)
                &&& live_below(self.domain_slots(), h.idx as int) == token.idx
                &&& next.idx == token.idx + 1
            },
    {
        let mut count: usize = 0;
        let mut i: usize = 0;
        while i < NB_DOMAINS
            invariant
                self.wf(),
                i <= NB_DOMAINS,
                count == live_below(self.domain_slots(), i as int),
                count <= i,
                count <= token.idx,
            decreases NB_DOMAINS - i,
        {
            match self.domains.handle_at(i) {
                Some(h) => {
                    if count == token.idx {
                        proof {
                            lemma_live_below_grows(self.domain_slots(), i as int + 1, NB_DOMAINS as int);
                        }
                        return Some((h, NextCapaToken::from_usize(token.idx + 1)));
                    }
                    count = count + 1;
                },
                None => {},
            }
            i = i + 1;
        }
        None
    }

    // -------------------------------------------------- restore and revoke

    /// The region slots, in order.
    pub closed spec fn region_slots(&self) -> Seq<Slot<RegionCapa>> {
        self.regions@
    }

    /// Empties every slot of a live domain's table that names region `x`.
    fn drop_refs(&mut self, d: Handle, x: Handle)
        requires
            old(self).wf(),
            old(self).live(d),
        ensures
            evolves(old(self).domains@, final(self).domains@),
            final(self).wf(),
            final(self).domain_map() == old(self).domain_map().insert(
                d,
                DomainView { capas: without_region(old(self).dom(d).capas, x), ..old(self).dom(d) },
            ),
            final(self).regions == old(self).regions,
            final(self).updates == old(self).updates,
            final(self).cores == old(self).cores,
            final(self).id_counter == old(self).id_counter,
            final(self).domains.free_count() == old(self).domains.free_count(),
    {
        proof {
            self.lemma_tables(d);
        }
        let ghost m0 = self.domain_map();
        let ghost c0 = self.dom(d).capas;
        let mut i: usize = 0;
        assert(self.domain_map() =~= m0.insert(
            d,
            DomainView {
                capas: Seq::new(c0.len(), |j: int| if j < i && c0[j] == Capa::Region(x) { Capa::Empty } else { c0[j] }),
                ..m0[d]
            },
        )) by {
            assert(Seq::new(c0.len(), |j: int| if j < i && c0[j] == Capa::Region(x) { Capa::Empty } else { c0[j] })
                =~= c0);
        }
        while i < NB_CAPAS_PER_DOMAIN
            invariant
                self.wf(),
                evolves(old(self).domains@, self.domains@),
                m0.contains_key(d),
                c0.len() == NB_CAPAS_PER_DOMAIN,
                i <= NB_CAPAS_PER_DOMAIN,
                self.domain_map() == m0.insert(
                    d,
                    DomainView {
                        capas: Seq::new(
                            c0.len(),
                            |j: int| if j < i && c0[j] == Capa::Region(x) { Capa::Empty } else { c0[j] },
                        ),
                        ..m0[d]
                    },
                ),
                self.regions == old(self).regions,
                self.updates == old(self).updates,
                self.cores == old(self).cores,
                self.id_counter == old(self).id_counter,
                self.domains.free_count() == old(self).domains.free_count(),
            decreases NB_CAPAS_PER_DOMAIN - i,
        {
            let ghost before = self.domain_map();
            if self.domain_ref(d).capas[i] == Capa::Region(x) {
                self.set_capa(d, i, Capa::Empty);
            }
            assert(self.domain_map() =~= m0.insert(
                d,
                DomainView {
                    capas: Seq::new(
                        c0.len(),
                        |j: int| if j < i + 1 && c0[j] == Capa::Region(x) { Capa::Empty } else { c0[j] },
                    ),
                    ..m0[d]
                },
            )) by {
                assert(self.domain_map()[d].capas =~= Seq::new(
                    c0.len(),
                    |j: int| if j < i + 1 && c0[j] == Capa::Region(x) { Capa::Empty } else { c0[j] },
                ));
            }
            i = i + 1;
        }
        assert(self.domain_map() =~= m0.insert(
            d,
            DomainView { capas: without_region(c0, x), ..m0[d] },
        )) by {
            assert(self.domain_map()[d].capas =~= without_region(c0, x));
        }
    }

    /// How many updates restoring `reg` queues for the regions carved from it.
    fn restore_cost(&self, reg: &RegionCapa) -> (r: usize)
        requires
            self.wf(),
        ensures
            r == restore_updates(self.region_slots(), *reg, NB_REGIONS as int).len(),
    {
        let mut n: usize = 0;
        let mut i: usize = 0;
        while i < NB_REGIONS
            invariant
                self.wf(),
                i <= NB_REGIONS,
                n == restore_updates(self.region_slots(), *reg, i as int).len(),
                n <= i,
            decreases NB_REGIONS - i,
        {
            match self.regions.handle_at(i) {
                Some(x) => {
                    let xr = match self.region_of(x) {
                        Some(v) => v,
                        None => vstd::pervasive::unreached(),
                    };
                    if is_descendant(&xr, reg) && xr.active {
                        n = n + 1;
                    }
                },
                None => {},
            }
            i = i + 1;
        }
        n
    }

    /// Drops every region carved out of `reg`, wherever it went, and makes
    /// `reg` (held by `domain` under handle `h`) active again.
    fn restore(&mut self, domain: Handle, h: Handle, reg: RegionCapa)
        requires
            old(self).wf(),
            old(self).live(domain),
            old(self).region_map().contains_key(h),
            old(self).region_map()[h] == reg,
            reg.domain == domain,
            old(self).update_room() >= restore_updates(old(self).region_slots(), reg, NB_REGIONS as int).len() + 1,
        ensures
            evolves(old(self).domains@, final(self).domains@),
            final(self).wf(),
            final(self).region_map() == prune(old(self).region_map(), old(self).region_slots(), reg, NB_REGIONS as int).insert(
                h,
                RegionCapa { active: true, ..reg },
            ),
            final(self).domain_map() == scrub(old(self).domain_map(), old(self).region_slots(), reg, NB_REGIONS as int),
            final(self).pending() == old(self).pending() + restore_updates(
                old(self).region_slots(),
                reg,
                NB_REGIONS as int,
            ).push(Update::PermissionUpdate { domain }),
            final(self).core_bindings() == old(self).core_bindings(),
            final(self).last_id() == old(self).last_id(),
            final(self).domain_room() == old(self).domain_room(),
    {
        let ghost s0 = self.regions@;
        let ghost rm0 = self.region_map();
        let ghost dm0 = self.domain_map();
        let ghost u0 = self.updates@;
        let ghost total = restore_updates(s0, reg, NB_REGIONS as int).len();
        let mut i: usize = 0;
        assert(self.region_map() =~= prune(rm0, s0, reg, i as int));
        assert(self.domain_map() =~= scrub(dm0, s0, reg, i as int)) by {
            assert forall|d: Handle| #[trigger] dm0.contains_key(d) implies scrubbed_table(dm0[d].capas, s0, reg, 0, d)
                =~= dm0[d].capas by {}
        }
        assert(self.updates@ =~= u0 + restore_updates(s0, reg, i as int));
        while i < NB_REGIONS
            invariant
                self.wf(),
                evolves(old(self).domains@, self.domains@),
                i <= NB_REGIONS,
                s0.len() == NB_REGIONS,
                rm0 == live_map(s0),
                forall|j: int| i <= j < NB_REGIONS ==> #[trigger] self.regions@[j] == s0[j],
                self.region_map() == prune(rm0, s0, reg, i as int),
                self.domain_map() == scrub(dm0, s0, reg, i as int),
                self.updates@ == u0 + restore_updates(s0, reg, i as int),
                self.updates.room() >= total - restore_updates(s0, reg, i as int).len() + 1,
                total == restore_updates(s0, reg, NB_REGIONS as int).len(),
                self.cores == old(self).cores,
                self.id_counter == old(self).id_counter,
                self.domains.free_count() == old(self).domains.free_count(),
            decreases NB_REGIONS - i,
        {
            proof {
                lemma_restore_updates_grow(s0, reg, i + 1, NB_REGIONS as int);
            }
            match self.regions.handle_at(i) {
                Some(x) => {
                    let xr = match self.region_of(x) {
                        Some(v) => v,
                        None => vstd::pervasive::unreached(),
                    };
                    if is_descendant(&xr, &reg) {
                        let ghost dm1 = self.domain_map();
                        let holder_live = self.domains.is_live(xr.domain);
                        if holder_live {
                            self.drop_refs(xr.domain, x);
                        }
                        assert(holder_live ==> self.domain_map() == dm1.insert(
                            xr.domain,
                            DomainView { capas: without_region(dm1[xr.domain].capas, x), ..dm1[xr.domain] },
                        ));
                        assert(!holder_live ==> self.domain_map() == dm1);
                        proof {
                            assert(self.domain_map() =~= scrub(dm0, s0, reg, i + 1)) by {
                                assert forall|d: Handle| #[trigger] dm0.contains_key(d) implies self.domain_map()[d]
                                    == scrub(dm0, s0, reg, i + 1)[d] by {
                                    assert(dm1.contains_key(d));
                                    assert(d == xr.domain ==> holder_live);
                                    assert forall|j: int| 0 <= j < dm0[d].capas.len() implies self.domain_map()[d].capas[j]
                                        == #[trigger] scrubbed_table(dm0[d].capas, s0, reg, i + 1, d)[j] by {
                                        let c = dm0[d].capas[j];
                                        assert(dm1[d].capas[j] == scrubbed_table(dm0[d].capas, s0, reg, i as int, d)[j]);
                                        assert(self.regions@[i as int] == s0[i as int]);
                                        if c is Region && c->Region_0.idx == i && slot_live(s0, c->Region_0) {
                                            assert(c->Region_0 == x);
                                        }
                                        if d == xr.domain {
                                            assert(dm1.contains_key(d));
                                            assert(holder_live);
                                            assert(self.domain_map()[d].capas == without_region(dm1[d].capas, x));
                                        } else {
                                            assert(self.domain_map()[d] == dm1[d]);
                                        }
                                    }
                                    assert(self.domain_map()[d].capas =~= scrubbed_table(dm0[d].capas, s0, reg, i + 1, d));
                                }
                                assert forall|d: Handle| #[trigger] self.domain_map().contains_key(d) <==> dm0.contains_key(d) by {
                                    assert(dm1.contains_key(d) <==> dm0.contains_key(d));
                                }
                            }
                        }
                        let ghost s1 = self.regions@;
                        let _ = self.regions.free(x);
                        proof {
                            lemma_clear(s1, x, (x.gen + 1) as u64);
                            assert(self.region_map() =~= prune(rm0, s0, reg, i + 1)) by {
                                assert forall|y: Handle| #[trigger] prune(rm0, s0, reg, i + 1).contains_key(y) implies self.region_map().contains_key(y) by {
                                    assert(y != x);
                                }
                            }
                        }
                        if xr.active {
                            self.queue(Update::PermissionUpdate { domain: xr.domain });
                        }
                        assert(self.updates@ =~= u0 + restore_updates(s0, reg, i + 1));
                    } else {
                        assert(self.region_map() =~= prune(rm0, s0, reg, i + 1));
                        assert(self.domain_map() =~= scrub(dm0, s0, reg, i + 1)) by {
                            assert forall|d: Handle| #[trigger] dm0.contains_key(d) implies scrubbed_table(dm0[d].capas, s0, reg, i as int, d)
                                =~= scrubbed_table(dm0[d].capas, s0, reg, i + 1, d) by {}
                        }
                    }
                },
                None => {
                    assert(self.region_map() =~= prune(rm0, s0, reg, i + 1));
                    assert(self.domain_map() =~= scrub(dm0, s0, reg, i + 1)) by {
                        assert forall|d: Handle| #[trigger] dm0.contains_key(d) implies scrubbed_table(dm0[d].capas, s0, reg, i as int, d)
                            =~= scrubbed_table(dm0[d].capas, s0, reg, i + 1, d) by {}
                    }
                },
            }
            i = i + 1;
        }
        assert(self.region_map().contains_key(h) && self.region_map()[h] == reg);
        self.write_region(h, RegionCapa { active: true, ..reg });
        self.queue(Update::PermissionUpdate { domain });
    }

    /// The domain slots, in order.
    pub closed spec fn domain_slots(&self) -> Seq<Slot<Domain>> {
        self.domains@
    }

    /// For each domain slot, whether its domain goes when `root` is revoked,
    /// and how many go.
    fn doomed_flags(&self, root: Handle) -> (r: (Vec<bool>, usize))
        requires
            self.wf(),
        ensures
            r.0@.len() == NB_DOMAINS,
            forall|k: int|
                0 <= k < NB_DOMAINS ==> #[trigger] r.0@[k] == doomed(
                    self.domain_map(),
                    root,
                    Handle { idx: k as usize, gen: self.domains@[k].gen },
                ),
            r.1 == revoke_updates(self.domains@, self.domain_map(), root, NB_DOMAINS as int).len(),
            r.1 <= NB_DOMAINS,
    {
        let mut flags: Vec<bool> = Vec::new();
        let mut count: usize = 0;
        let mut i: usize = 0;
        while i < NB_DOMAINS
            invariant
                self.wf(),
                i <= NB_DOMAINS,
                flags@.len() == i,
                forall|k: int|
                    0 <= k < i ==> #[trigger] flags@[k] == doomed(
                        self.domain_map(),
                        root,
                        Handle { idx: k as usize, gen: self.domains@[k].gen },
                    ),
                count == revoke_updates(self.domains@, self.domain_map(), root, i as int).len(),
                count <= i,
            decreases NB_DOMAINS - i,
        {
            let f = match self.domains.handle_at(i) {
                Some(x) => self.reaches(x, root),
                None => false,
            };
            flags.push(f);
            if f {
                count = count + 1;
            }
            i = i + 1;
        }
        (flags, count)
    }

    /// The domain a capability names, if it names one.
    fn named_domain(c: Capa) -> (r: Option<Handle>)
        ensures
            r == match c {
                Capa::Management(x) => Some(x),
                Capa::Channel(x) => Some(x),
                Capa::Switch { to, core } => Some(to),
                _ => None::<Handle>,
            },
    {
        match c {
            Capa::Management(x) => Some(x),
            Capa::Channel(x) => Some(x),
            Capa::Switch { to, core: _ } => Some(to),
            _ => None,
        }
    }

    /// Empties the slots of `y`'s table that name a doomed domain.
    fn clean_table(&mut self, y: Handle, root: Handle, flags: &Vec<bool>, Ghost(m0): Ghost<Map<Handle, DomainView>>)
        requires
            old(self).wf(),
            old(self).live(y),
            flags@.len() == NB_DOMAINS,
            forall|x: Handle| #[trigger] m0.contains_key(x) <==> old(self).live(x),
            forall|x: Handle| #[trigger] m0.contains_key(x) ==> flags@[x.idx as int] == doomed(m0, root, x),
        ensures
            final(self).wf(),
            final(self).domain_map() == old(self).domain_map().insert(
                y,
                DomainView { capas: cleaned_table(old(self).dom(y).capas, m0, root), ..old(self).dom(y) },
            ),
            final(self).regions == old(self).regions,
            final(self).updates == old(self).updates,
            final(self).cores == old(self).cores,
            final(self).id_counter == old(self).id_counter,
            final(self).domains.free_count() == old(self).domains.free_count(),
            forall|k: int| 0 <= k < NB_DOMAINS ==> (#[trigger] final(self).domains@[k]).gen == old(self).domains@[k].gen && (final(self).domains@[k].value is Some <==> old(self).domains@[k].value is Some),
    {
        proof {
            self.lemma_tables(y);
        }
        let ghost d0 = self.domain_map();
        let ghost c0 = self.dom(y).capas;
        let mut i: usize = 0;
        assert(self.domain_map() =~= d0.insert(
            y,
            DomainView {
                capas: Seq::new(c0.len(), |j: int| if j < i && names_doomed(m0, root, c0[j]) { Capa::Empty } else { c0[j] }),
                ..d0[y]
            },
        )) by {
            assert(Seq::new(c0.len(), |j: int| if j < i && names_doomed(m0, root, c0[j]) { Capa::Empty } else { c0[j] })
                =~= c0);
        }
        while i < NB_CAPAS_PER_DOMAIN
            invariant
                self.wf(),
                d0.contains_key(y),
                c0.len() == NB_CAPAS_PER_DOMAIN,
                i <= NB_CAPAS_PER_DOMAIN,
                flags@.len() == NB_DOMAINS,
                forall|x: Handle| #[trigger] m0.contains_key(x) <==> d0.contains_key(x),
                forall|x: Handle| #[trigger] m0.contains_key(x) ==> flags@[x.idx as int] == doomed(m0, root, x),
                self.domain_map() == d0.insert(
                    y,
                    DomainView {
                        capas: Seq::new(
                            c0.len(),
                            |j: int| if j < i && names_doomed(m0, root, c0[j]) { Capa::Empty } else { c0[j] },
                        ),
                        ..d0[y]
                    },
                ),
                forall|x: Handle| #[trigger] self.live(x) <==> d0.contains_key(x),
                self.regions == old(self).regions,
                self.updates == old(self).updates,
                self.cores == old(self).cores,
                self.id_counter == old(self).id_counter,
                self.domains.free_count() == old(self).domains.free_count(),
                forall|k: int| 0 <= k < NB_DOMAINS ==> (#[trigger] self.domains@[k]).gen == old(self).domains@[k].gen && (self.domains@[k].value is Some <==> old(self).domains@[k].value is Some),
            decreases NB_CAPAS_PER_DOMAIN - i,
        {
            let c = self.domain_ref(y).capas[i];
            let named = Self::named_domain(c);
            let hit = match named {
                Some(x) => self.domains.is_live(x) && flags[x.idx],
                None => false,
            };
            proof {
                if named is Some {
                    let x = named->Some_0;
                    assert(self.domains.live(x) == self.live(x));
                    assert(self.live(x) == m0.contains_key(x));
                    if m0.contains_key(x) {
                        assert(flags@[x.idx as int] == doomed(m0, root, x));
                    }
                    assert(hit == doomed(m0, root, x));
                }
            }
            assert(c == c0[i as int]);
            assert(hit == names_doomed(m0, root, c0[i as int]));
            if hit {
                self.set_capa(y, i, Capa::Empty);
            }
            assert(self.domain_map() =~= d0.insert(
                y,
                DomainView {
                    capas: Seq::new(
                        c0.len(),
                        |j: int| if j < i + 1 && names_doomed(m0, root, c0[j]) { Capa::Empty } else { c0[j] },
                    ),
                    ..d0[y]
                },
            )) by {
                assert(self.domain_map()[y].capas =~= Seq::new(
                    c0.len(),
                    |j: int| if j < i + 1 && names_doomed(m0, root, c0[j]) { Capa::Empty } else { c0[j] },
                ));
            }
            i = i + 1;
        }
        assert(self.domain_map() =~= d0.insert(
            y,
            DomainView { capas: cleaned_table(c0, m0, root), ..d0[y] },
        )) by {
            assert(self.domain_map()[y].capas =~= cleaned_table(c0, m0, root));
        }
    }

    /// Cleans the table of every domain that survives revoking `root`.
    fn clean_all(&mut self, root: Handle, flags: &Vec<bool>, Ghost(m0): Ghost<Map<Handle, DomainView>>)
        requires
            old(self).wf(),
            m0 == old(self).domain_map(),
            flags@.len() == NB_DOMAINS,
            forall|x: Handle| #[trigger] m0.contains_key(x) ==> flags@[x.idx as int] == doomed(m0, root, x),
        ensures
            evolves(old(self).domains@, final(self).domains@),
            final(self).wf(),
            final(self).domain_map() == Map::new(
                |y: Handle| m0.contains_key(y),
                |y: Handle|
                    if doomed(m0, root, y) {
                        m0[y]
                    } else {
                        DomainView { capas: cleaned_table(m0[y].capas, m0, root), ..m0[y] }
                    },
            ),
            final(self).regions == old(self).regions,
            final(self).updates == old(self).updates,
            final(self).cores == old(self).cores,
            final(self).id_counter == old(self).id_counter,
            final(self).domains.free_count() == old(self).domains.free_count(),
            forall|k: int| 0 <= k < NB_DOMAINS ==> (#[trigger] final(self).domains@[k]).gen == old(self).domains@[k].gen && (final(self).domains@[k].value is Some <==> old(self).domains@[k].value is Some),
    {
        let mut i: usize = 0;
        assert(self.domain_map() =~= Map::new(
            |y: Handle| m0.contains_key(y),
            |y: Handle|
                if y.idx < i && !doomed(m0, root, y) {
                    DomainView { capas: cleaned_table(m0[y].capas, m0, root), ..m0[y] }
                } else {
                    m0[y]
                },
        ));
        while i < NB_DOMAINS
            invariant
                self.wf(),
                i <= NB_DOMAINS,
                m0 == old(self).domain_map(),
                old(self).domains@.len() == NB_DOMAINS,
                flags@.len() == NB_DOMAINS,
                forall|x: Handle| #[trigger] m0.contains_key(x) ==> flags@[x.idx as int] == doomed(m0, root, x),
                self.domain_map() == Map::new(
                    |y: Handle| m0.contains_key(y),
                    |y: Handle|
                        if y.idx < i && !doomed(m0, root, y) {
                            DomainView { capas: cleaned_table(m0[y].capas, m0, root), ..m0[y] }
                        } else {
                            m0[y]
                        },
                ),
                self.regions == old(self).regions,
                self.updates == old(self).updates,
                self.cores == old(self).cores,
                self.id_counter == old(self).id_counter,
                self.domains.free_count() == old(self).domains.free_count(),
                forall|k: int| 0 <= k < NB_DOMAINS ==> (#[trigger] self.domains@[k]).gen == old(self).domains@[k].gen && (self.domains@[k].value is Some <==> old(self).domains@[k].value is Some),
            decreases NB_DOMAINS - i,
        {
            let ghost before = self.domain_map();
            match self.domains.handle_at(i) {
                Some(y) => {
                    assert(self.live(y));
                    assert(m0.contains_key(y));
                    if !flags[i] {
                        proof {
                            assert forall|x: Handle| #[trigger] m0.contains_key(x) <==> self.live(x) by {}
                        }
                        self.clean_table(y, root, flags, Ghost(m0));
                    }
                    proof {
                        assert forall|z: Handle| #[trigger] m0.contains_key(z) && z.idx == i implies z == y by {
                            assert(slot_live(old(self).domains@, z));
                        }
                    }
                },
                None => {
                    proof {
                        assert forall|z: Handle| #[trigger] m0.contains_key(z) implies z.idx != i by {
                            assert(before.contains_key(z));
                        }
                    }
                },
            }
            assert(self.domain_map() =~= Map::new(
                |y: Handle| m0.contains_key(y),
                |y: Handle|
                    if y.idx < i + 1 && !doomed(m0, root, y) {
                        DomainView { capas: cleaned_table(m0[y].capas, m0, root), ..m0[y] }
                    } else {
                        m0[y]
                    },
            ));
            i = i + 1;
        }
        assert(self.domain_map() =~= Map::new(
            |y: Handle| m0.contains_key(y),
            |y: Handle|
                if doomed(m0, root, y) {
                    m0[y]
                } else {
                    DomainView { capas: cleaned_table(m0[y].capas, m0, root), ..m0[y] }
                },
        )) by {
            assert forall|y: Handle| #[trigger] m0.contains_key(y) implies y.idx < NB_DOMAINS by {
                assert(slot_live(old(self).domains@, y));
            }
        }
    }

    /// Drops the regions held by domains that go when `root` is revoked.
    fn drop_doomed_regions(&mut self, root: Handle, flags: &Vec<bool>, Ghost(m0): Ghost<Map<Handle, DomainView>>)
        requires
            old(self).wf(),
            flags@.len() == NB_DOMAINS,
            forall|x: Handle| #[trigger] m0.contains_key(x) <==> old(self).live(x),
            forall|x: Handle| #[trigger] m0.contains_key(x) ==> flags@[x.idx as int] == doomed(m0, root, x),
        ensures
            evolves(old(self).domains@, final(self).domains@),
            final(self).wf(),
            final(self).region_map() == surviving_regions(old(self).region_map(), m0, root),
            final(self).domains == old(self).domains,
            final(self).updates == old(self).updates,
            final(self).cores == old(self).cores,
            final(self).id_counter == old(self).id_counter,
    {
        let ghost s0 = self.regions@;
        let ghost rm0 = self.region_map();
        let mut i: usize = 0;
        assert(self.region_map() =~= Map::new(
            |x: Handle| rm0.contains_key(x) && !(x.idx < i && doomed(m0, root, rm0[x].domain)),
            |x: Handle| rm0[x],
        ));
        while i < NB_REGIONS
            invariant
                self.wf(),
                i <= NB_REGIONS,
                s0.len() == NB_REGIONS,
                rm0 == live_map(s0),
                flags@.len() == NB_DOMAINS,
                forall|x: Handle| #[trigger] m0.contains_key(x) <==> self.live(x),
                forall|x: Handle| #[trigger] m0.contains_key(x) ==> flags@[x.idx as int] == doomed(m0, root, x),
                forall|j: int| i <= j < NB_REGIONS ==> #[trigger] self.regions@[j] == s0[j],
                self.region_map() == Map::new(
                    |x: Handle| rm0.contains_key(x) && !(x.idx < i && doomed(m0, root, rm0[x].domain)),
                    |x: Handle| rm0[x],
                ),
                self.domains == old(self).domains,
                self.updates == old(self).updates,
                self.cores == old(self).cores,
                self.id_counter == old(self).id_counter,
            decreases NB_REGIONS - i,
        {
            match self.regions.handle_at(i) {
                Some(x) => {
                    let xr = match self.region_of(x) {
                        Some(v) => v,
                        None => vstd::pervasive::unreached(),
                    };
                    let holder_live = self.domains.is_live(xr.domain);
                    proof {
                        assert(self.domains.live(xr.domain) == self.live(xr.domain));
                        assert(rm0.contains_key(x) && rm0[x] == xr);
                        if m0.contains_key(xr.domain) {
                            assert(flags@[xr.domain.idx as int] == doomed(m0, root, xr.domain));
                        }
                        assert((holder_live && flags@[xr.domain.idx as int]) == doomed(m0, root, xr.domain));
                    }
                    if holder_live && flags[xr.domain.idx] {
                        let ghost s1 = self.regions@;
                        let _ = self.regions.free(x);
                        proof {
                            lemma_clear(s1, x, (x.gen + 1) as u64);
                        }
                    }
                    proof {
                        assert forall|z: Handle| #[trigger] rm0.contains_key(z) && z.idx == i implies z == x by {}
                    }
                },
                None => {
                    proof {
                        assert forall|z: Handle| #[trigger] rm0.contains_key(z) implies z.idx != i by {}
                    }
                },
            }
            assert(self.region_map() =~= Map::new(
                |x: Handle| rm0.contains_key(x) && !(x.idx < i + 1 && doomed(m0, root, rm0[x].domain)),
                |x: Handle| rm0[x],
            ));
            i = i + 1;
        }
        assert(self.region_map() =~= surviving_regions(rm0, m0, root)) by {
            assert forall|x: Handle| #[trigger] rm0.contains_key(x) implies x.idx < NB_REGIONS by {}
        }
    }

    /// Frees the doomed domains and queues a `RevokeDomain` for each, in slot order.
    fn free_doomed(
        &mut self,
        root: Handle,
        flags: &Vec<bool>,
        Ghost(m0): Ghost<Map<Handle, DomainView>>,
        Ghost(s0): Ghost<Seq<Slot<Domain>>>,
    )
        requires
            old(self).wf(),
            m0 == dom_views(s0),
            s0.len() == NB_DOMAINS,
            flags@.len() == NB_DOMAINS,
            forall|k: int|
                0 <= k < NB_DOMAINS ==> #[trigger] flags@[k] == doomed(m0, root, Handle { idx: k as usize, gen: s0[k].gen }),
            forall|k: int|
                0 <= k < NB_DOMAINS ==> (#[trigger] old(self).domains@[k]).gen == s0[k].gen && (
                old(self).domains@[k].value is Some <==> s0[k].value is Some),
            old(self).update_room() >= revoke_updates(s0, m0, root, NB_DOMAINS as int).len(),
        ensures
            evolves(old(self).domains@, final(self).domains@),
            final(self).wf(),
            final(self).domain_map() == Map::new(
                |y: Handle| old(self).domain_map().contains_key(y) && !doomed(m0, root, y),
                |y: Handle| old(self).domain_map()[y],
            ),
            final(self).pending() == old(self).pending() + revoke_updates(s0, m0, root, NB_DOMAINS as int),
            final(self).regions == old(self).regions,
            final(self).cores == old(self).cores,
            final(self).id_counter == old(self).id_counter,
            forall|h: Handle|
                #[trigger] m0.contains_key(h) && doomed(m0, root, h) ==> final(self).domains@[h.idx as int].gen > h.gen,
    {
        let ghost d0 = self.domain_map();
        let ghost sb = self.domains@;
        let ghost u0 = self.updates@;
        let ghost total = revoke_updates(s0, m0, root, NB_DOMAINS as int).len();
        let mut i: usize = 0;
        assert(self.domain_map() =~= Map::new(
            |y: Handle| d0.contains_key(y) && !(y.idx < i && doomed(m0, root, y)),
            |y: Handle| d0[y],
        ));
        assert(self.updates@ =~= u0 + revoke_updates(s0, m0, root, i as int));
        while i < NB_DOMAINS
            invariant
                self.wf(),
                forall|h: Handle|
                    #[trigger] m0.contains_key(h) && doomed(m0, root, h) && h.idx < i ==> self.domains@[h.idx as int].gen > h.gen,
                evolves(old(self).domains@, self.domains@),
                i <= NB_DOMAINS,
                m0 == dom_views(s0),
                s0.len() == NB_DOMAINS,
                sb.len() == NB_DOMAINS,
                d0 == dom_views(sb),
                flags@.len() == NB_DOMAINS,
                forall|k: int|
                    0 <= k < NB_DOMAINS ==> #[trigger] flags@[k] == doomed(m0, root, Handle { idx: k as usize, gen: s0[k].gen }),
                forall|k: int|
                    0 <= k < NB_DOMAINS ==> (#[trigger] sb[k]).gen == s0[k].gen && (sb[k].value is Some <==> s0[k].value
                        is Some),
                forall|j: int| i <= j < NB_DOMAINS ==> #[trigger] self.domains@[j] == sb[j],
                self.domain_map() == Map::new(
                    |y: Handle| d0.contains_key(y) && !(y.idx < i && doomed(m0, root, y)),
                    |y: Handle| d0[y],
                ),
                self.updates@ == u0 + revoke_updates(s0, m0, root, i as int),
                self.updates.room() >= total - revoke_updates(s0, m0, root, i as int).len(),
                total == revoke_updates(s0, m0, root, NB_DOMAINS as int).len(),
                self.regions == old(self).regions,
                self.cores == old(self).cores,
                self.id_counter == old(self).id_counter,
            decreases NB_DOMAINS - i,
        {
            let ghost before = self.domains@;
            proof {
                lemma_revoke_updates_grow(s0, m0, root, i + 1, NB_DOMAINS as int);
            }
            let ghost xh = Handle { idx: i, gen: s0[i as int].gen };
            if flags[i] {
                assert(m0.contains_key(xh));
                let x = match self.domains.handle_at(i) {
                    Some(x) => x,
                    None => vstd::pervasive::unreached(),
                };
                assert(x == xh);
                let ghost s1 = self.domains@;
                let _ = self.domains.free(x);
                proof {
                    lemma_dom_clear(s1, x, (x.gen + 1) as u64);
                    crate::gen_arena::lemma_evolves_trans(old(self).domains@, s1, self.domains@);
                }
                self.queue(Update::RevokeDomain { domain: x });
            }
            proof {
                assert forall|z: Handle| #[trigger] d0.contains_key(z) && z.idx == i implies z == xh by {}
                assert forall|h: Handle|
                    #[trigger] m0.contains_key(h) && doomed(m0, root, h) && h.idx < i + 1 implies self.domains@[h.idx as int].gen
                        > h.gen by {
                    if h.idx == i {
                        assert(h == xh);
                        assert(flags@[i as int]);
                    } else {
                        assert(self.domains@[h.idx as int] == before[h.idx as int]);
                    }
                }
            }
            assert(self.domain_map() =~= Map::new(
                |y: Handle| d0.contains_key(y) && !(y.idx < i + 1 && doomed(m0, root, y)),
                |y: Handle| d0[y],
            ));
            assert(self.updates@ =~= u0 + revoke_updates(s0, m0, root, i + 1));
            i = i + 1;
        }
        assert(self.domain_map() =~= Map::new(
            |y: Handle| d0.contains_key(y) && !doomed(m0, root, y),
            |y: Handle| d0[y],
        )) by {
            assert forall|y: Handle| #[trigger] d0.contains_key(y) implies y.idx < NB_DOMAINS by {}
        }
        assert forall|h: Handle| #[trigger] m0.contains_key(h) implies h.idx < NB_DOMAINS by {}
    }

    /// How many region capabilities the domains going with `root` hold.
    fn orphan_count(&self, root: Handle, flags: &Vec<bool>, Ghost(m0): Ghost<Map<Handle, DomainView>>) -> (r: usize)
        requires
            self.wf(),
            flags@.len() == NB_DOMAINS,
            forall|x: Handle| #[trigger] m0.contains_key(x) <==> self.live(x),
            forall|x: Handle| #[trigger] m0.contains_key(x) ==> flags@[x.idx as int] == doomed(m0, root, x),
        ensures
            r == orphans(self.region_slots(), m0, root, NB_REGIONS as int).len(),
    {
        let mut n: usize = 0;
        let mut i: usize = 0;
        while i < NB_REGIONS
            invariant
                self.wf(),
                i <= NB_REGIONS,
                flags@.len() == NB_DOMAINS,
                forall|x: Handle| #[trigger] m0.contains_key(x) <==> self.live(x),
                forall|x: Handle| #[trigger] m0.contains_key(x) ==> flags@[x.idx as int] == doomed(m0, root, x),
                n == orphans(self.region_slots(), m0, root, i as int).len(),
                n <= i,
            decreases NB_REGIONS - i,
        {
            match self.regions.handle_at(i) {
                Some(x) => {
                    let xr = match self.region_of(x) {
                        Some(v) => v,
                        None => vstd::pervasive::unreached(),
                    };
                    let holder_live = self.domains.is_live(xr.domain);
                    proof {
                        assert(self.domains.live(xr.domain) == self.live(xr.domain));
                        if m0.contains_key(xr.domain) {
                            assert(flags@[xr.domain.idx as int] == doomed(m0, root, xr.domain));
                        }
                    }
                    if holder_live && flags[xr.domain.idx] {
                        n = n + 1;
                    }
                },
                None => {},
            }
            i = i + 1;
        }
        n
    }

    /// How many empty slots the table of `heir` will have once the
    /// capabilities naming domains that go with `root` are taken out.
    fn cleaned_room(&self, heir: Handle, root: Handle, flags: &Vec<bool>, Ghost(m0): Ghost<Map<Handle, DomainView>>) -> (r:
        usize)
        requires
            self.wf(),
            self.live(heir),
            flags@.len() == NB_DOMAINS,
            forall|x: Handle| #[trigger] m0.contains_key(x) <==> self.live(x),
            forall|x: Handle| #[trigger] m0.contains_key(x) ==> flags@[x.idx as int] == doomed(m0, root, x),
        ensures
            r == count_empty(cleaned_table(self.dom(heir).capas, m0, root), NB_CAPAS_PER_DOMAIN as int),
    {
        proof {
            self.lemma_tables(heir);
        }
        let ghost c0 = self.dom(heir).capas;
        let d = self.domain_ref(heir);
        let mut n: usize = 0;
        let mut i: usize = 0;
        while i < NB_CAPAS_PER_DOMAIN
            invariant
                self.wf(),
                d@ == self.dom(heir),
                c0 == d.capas@,
                c0.len() == NB_CAPAS_PER_DOMAIN,
                i <= NB_CAPAS_PER_DOMAIN,
                flags@.len() == NB_DOMAINS,
                forall|x: Handle| #[trigger] m0.contains_key(x) <==> self.live(x),
                forall|x: Handle| #[trigger] m0.contains_key(x) ==> flags@[x.idx as int] == doomed(m0, root, x),
                n == count_empty(cleaned_table(c0, m0, root), i as int),
                n <= i,
            decreases NB_CAPAS_PER_DOMAIN - i,
        {
            let c = d.capas[i];
            let named = Self::named_domain(c);
            let hit = match named {
                Some(x) => self.domains.is_live(x) && flags[x.idx],
                None => false,
            };
            proof {
                if named is Some {
                    let x = named->Some_0;
                    assert(self.domains.live(x) == self.live(x));
                    if m0.contains_key(x) {
                        assert(flags@[x.idx as int] == doomed(m0, root, x));
                    }
                }
                assert(hit == names_doomed(m0, root, c0[i as int]));
            }
            if c == Capa::Empty || hit {
                n = n + 1;
            }
            i = i + 1;
        }
        n
    }

    /// Hands every region held by a domain going with `root` to `heir`, in
    /// slot order, each into the lowest free slot of the heir's table.
    fn release_regions(
        &mut self,
        root: Handle,
        heir: Handle,
        flags: &Vec<bool>,
        Ghost(m0): Ghost<Map<Handle, DomainView>>,
    )
        requires
            old(self).wf(),
            old(self).live(heir),
            !doomed(m0, root, heir),
            flags@.len() == NB_DOMAINS,
            forall|x: Handle| #[trigger] m0.contains_key(x) <==> old(self).live(x),
            forall|x: Handle| #[trigger] m0.contains_key(x) ==> flags@[x.idx as int] == doomed(m0, root, x),
            count_empty(old(self).dom(heir).capas, NB_CAPAS_PER_DOMAIN as int) >= orphans(
                old(self).region_slots(),
                m0,
                root,
                NB_REGIONS as int,
            ).len(),
        ensures
            evolves(old(self).domains@, final(self).domains@),
            final(self).wf(),
            final(self).region_map() == Map::new(
                |x: Handle| old(self).region_map().contains_key(x),
                |x: Handle|
                    if doomed(m0, root, old(self).region_map()[x].domain) {
                        RegionCapa { domain: heir, ..old(self).region_map()[x] }
                    } else {
                        old(self).region_map()[x]
                    },
            ),
            final(self).domain_map() == old(self).domain_map().insert(
                heir,
                DomainView {
                    capas: fill(old(self).dom(heir).capas, orphans(old(self).region_slots(), m0, root, NB_REGIONS as int)),
                    ..old(self).dom(heir)
                },
            ),
            forall|k: int| 0 <= k < NB_DOMAINS ==> (#[trigger] final(self).domains@[k]).gen == old(self).domains@[k].gen && (final(self).domains@[k].value is Some <==> old(self).domains@[k].value is Some),
            final(self).updates == old(self).updates,
            final(self).cores == old(self).cores,
            final(self).id_counter == old(self).id_counter,
    {
        proof {
            self.lemma_tables(heir);
        }
        let ghost s0 = self.regions@;
        let ghost rm0 = self.region_map();
        let ghost d0 = self.domain_map();
        let ghost c0 = self.dom(heir).capas;
        let ghost total = orphans(s0, m0, root, NB_REGIONS as int).len();
        let mut i: usize = 0;
        assert(self.region_map() =~= Map::new(
            |x: Handle| rm0.contains_key(x),
            |x: Handle| if x.idx < i && doomed(m0, root, rm0[x].domain) { RegionCapa { domain: heir, ..rm0[x] } } else { rm0[x] },
        ));
        assert(self.domain_map() =~= d0.insert(heir, DomainView { capas: fill(c0, orphans(s0, m0, root, i as int)), ..d0[heir] }));
        while i < NB_REGIONS
            invariant
                self.wf(),
                i <= NB_REGIONS,
                s0.len() == NB_REGIONS,
                rm0 == live_map(s0),
                d0.contains_key(heir),
                c0 == d0[heir].capas,
                c0.len() == NB_CAPAS_PER_DOMAIN,
                !doomed(m0, root, heir),
                flags@.len() == NB_DOMAINS,
                forall|x: Handle| #[trigger] m0.contains_key(x) <==> self.live(x),
                forall|x: Handle| #[trigger] m0.contains_key(x) ==> flags@[x.idx as int] == doomed(m0, root, x),
                forall|j: int| i <= j < NB_REGIONS ==> #[trigger] self.regions@[j] == s0[j],
                self.region_map() == Map::new(
                    |x: Handle| rm0.contains_key(x),
                    |x: Handle|
                        if x.idx < i && doomed(m0, root, rm0[x].domain) {
                            RegionCapa { domain: heir, ..rm0[x] }
                        } else {
                            rm0[x]
                        },
                ),
                self.domain_map() == d0.insert(heir, DomainView { capas: fill(c0, orphans(s0, m0, root, i as int)), ..d0[heir] }),
                count_empty(fill(c0, orphans(s0, m0, root, i as int)), NB_CAPAS_PER_DOMAIN as int) + orphans(s0, m0, root, i as int).len()
                    >= total,
                total == orphans(s0, m0, root, NB_REGIONS as int).len(),
                forall|k: int| 0 <= k < NB_DOMAINS ==> (#[trigger] self.domains@[k]).gen == old(self).domains@[k].gen && (self.domains@[k].value is Some <==> old(self).domains@[k].value is Some),
                self.updates == old(self).updates,
                self.cores == old(self).cores,
                self.id_counter == old(self).id_counter,
            decreases NB_REGIONS - i,
        {
            proof {
                lemma_orphans_grow(s0, m0, root, i + 1, NB_REGIONS as int);
            }
            let ghost items = orphans(s0, m0, root, i as int);
            let ghost p = fill(c0, items);
            match self.regions.handle_at(i) {
                Some(x) => {
                    let xr = match self.region_of(x) {
                        Some(v) => v,
                        None => vstd::pervasive::unreached(),
                    };
                    let holder_live = self.domains.is_live(xr.domain);
                    proof {
                        assert(self.domains.live(xr.domain) == self.live(xr.domain));
                        assert(rm0.contains_key(x) && rm0[x] == xr);
                        if m0.contains_key(xr.domain) {
                            assert(flags@[xr.domain.idx as int] == doomed(m0, root, xr.domain));
                        }
                        assert forall|z: Handle| #[trigger] rm0.contains_key(z) && z.idx == i implies z == x by {}
                    }
                    if holder_live && flags[xr.domain.idx] {
                        assert(orphans(s0, m0, root, i + 1) == items.push(Capa::Region(x)));
                        assert(self.dom(heir).capas == p);
                        proof {
                            self.lemma_tables(heir);
                            lemma_count_pos(p, NB_CAPAS_PER_DOMAIN as int);
                        }
                        let j = match self.find_free(heir) {
                            Some(j) => j,
                            None => vstd::pervasive::unreached(),
                        };
                        proof {
                            lemma_first_free_unique(p, j as int);
                            lemma_count_update(p, j as int, Capa::Region(x), NB_CAPAS_PER_DOMAIN as int);
                            assert(items.push(Capa::Region(x)).drop_last() == items);
                        }
                        self.set_capa(heir, j, Capa::Region(x));
                        self.write_region(x, RegionCapa { domain: heir, ..xr });
                        assert(self.domain_map() =~= d0.insert(
                            heir,
                            DomainView { capas: fill(c0, orphans(s0, m0, root, i + 1)), ..d0[heir] },
                        ));
                    } else {
                        assert(orphans(s0, m0, root, i + 1) == items);
                    }
                },
                None => {
                    proof {
                        assert forall|z: Handle| #[trigger] rm0.contains_key(z) implies z.idx != i by {}
                    }
                    assert(orphans(s0, m0, root, i + 1) == items);
                },
            }
            assert(self.region_map() =~= Map::new(
                |x: Handle| rm0.contains_key(x),
                |x: Handle|
                    if x.idx < i + 1 && doomed(m0, root, rm0[x].domain) {
                        RegionCapa { domain: heir, ..rm0[x] }
                    } else {
                        rm0[x]
                    },
            ));
            i = i + 1;
        }
        assert(self.region_map() =~= Map::new(
            |x: Handle| rm0.contains_key(x),
            |x: Handle| if doomed(m0, root, rm0[x].domain) { RegionCapa { domain: heir, ..rm0[x] } } else { rm0[x] },
        )) by {
            assert forall|x: Handle| #[trigger] rm0.contains_key(x) implies x.idx < NB_REGIONS by {}
        }
    }

    /// Why `revoke_domain` would fail, if it would: the heir's table must
    /// take the regions coming back to it, and the queue the updates.
    pub open spec fn revoke_domain_error(&self, domain: Handle) -> Option<CapaError> {
        let m = self.domain_map();
        let s = self.region_slots();
        if !self.live(domain) {
            Some(CapaError::CapabilityDoesNotExist)
        } else if (heir_of(m, domain) is Some && count_empty(
            cleaned_table(m[heir_of(m, domain)->Some_0].capas, m, domain),
            NB_CAPAS_PER_DOMAIN as int,
        ) < orphans(s, m, domain, NB_REGIONS as int).len()) || self.update_room() < revoke_updates(
            self.domain_slots(),
            m,
            domain,
            NB_DOMAINS as int,
        ).len() + heir_updates(m, s, domain).len() {
            Some(CapaError::OutOfMemory)
        } else {
            None
        }
    }

    /// Revokes `domain` and every domain it manages, transitively. Every
    /// capability naming one of them leaves the tables of the domains that
    /// remain. The regions they held go back up the management chain to the
    /// manager of `domain`, into the lowest free slots of its table, in slot
    /// order; only when that manager goes too, or there is none, are they
    /// dropped. Each revoked domain is freed with a `RevokeDomain` update, in
    /// slot order, and the heir then gets a `PermissionUpdate`.
    pub fn revoke_domain(&mut self, domain: Handle) -> (r: Result<(), CapaError>)
        requires
            old(self).wf(),
        ensures
            final(self).wf(),
            evolves(old(self).domain_slots(), final(self).domain_slots()),
            r is Err <==> old(self).revoke_domain_error(domain) is Some,
            r is Err ==> r->Err_0 == old(self).revoke_domain_error(domain)->Some_0 && *final(self) == *old(self),
            r is Ok ==> old(self).revoked(*final(self), domain),
            r is Ok ==> old(self).retires_freed(*final(self)),
    {
        if !self.domains.is_live(domain) {
            return Err(CapaError::CapabilityDoesNotExist);
        }
        let (flags, count) = self.doomed_flags(domain);
        let ghost m0 = self.domain_map();
        let ghost s0 = self.domains@;
        let ghost rs0 = self.regions@;
        proof {
            assert forall|x: Handle| #[trigger] m0.contains_key(x) implies flags@[x.idx as int] == doomed(m0, domain, x) by {
                assert(slot_live(s0, x));
                assert(flags@[x.idx as int] == doomed(m0, domain, Handle { idx: x.idx, gen: s0[x.idx as int].gen }));
            }
            assert forall|x: Handle| #[trigger] m0.contains_key(x) <==> self.live(x) by {}
        }
        let heir: Option<Handle> = match self.domain_ref(domain).manager {
            Some(h) => if self.domains.is_live(h) && !flags[h.idx] {
                Some(h)
            } else {
                None
            },
            None => None,
        };
        proof {
            match m0[domain].manager {
                Some(h) => {
                    assert(self.domains.live(h) == self.live(h));
                },
                None => {},
            }
            assert(heir == heir_of(m0, domain));
        }
        let k = self.orphan_count(domain, &flags, Ghost(m0));
        match heir {
            Some(h) => {
                if self.cleaned_room(h, domain, &flags, Ghost(m0)) < k {
                    return Err(CapaError::OutOfMemory);
                }
            },
            None => {},
        }
        let extra: usize = if heir.is_some() && k > 0 {
            1
        } else {
            0
        };
        if self.updates.free_room() < count + extra {
            return Err(CapaError::OutOfMemory);
        }
        self.clean_all(domain, &flags, Ghost(m0));
        let ghost m1 = self.domain_map();
        match heir {
            Some(h) => {
                assert(self.dom(h).capas == cleaned_table(m0[h].capas, m0, domain));
                self.release_regions(domain, h, &flags, Ghost(m0));
            },
            None => {
                self.drop_doomed_regions(domain, &flags, Ghost(m0));
            },
        }
        let ghost m2 = self.domain_map();
        self.free_doomed(domain, &flags, Ghost(m0), Ghost(s0));
        match heir {
            Some(h) => {
                if k > 0 {
                    self.queue(Update::PermissionUpdate { domain: h });
                }
                assert(self.domain_map() =~= revoked_domains(m0, rs0, domain));
            },
            None => {
                assert(self.domain_map() =~= revoked_domains(m0, rs0, domain));
            },
        }
        assert(self.region_map() =~= released_regions(live_map(rs0), m0, domain));
        assert forall|h: Handle| #[trigger] m0.contains_key(h) && !self.live(h) implies doomed(m0, domain, h) by {
            if !doomed(m0, domain, h) {
                assert(revoked_domains(m0, rs0, domain).contains_key(h));
            }
        }
        assert(self.pending() =~= old(self).pending() + revoke_updates(s0, m0, domain, NB_DOMAINS as int) + heir_updates(
            m0,
            rs0,
            domain,
        ));
        Ok(())
    }

    /// Every domain handle that stopped resolving had its slot's generation
    /// raised past its own.
    pub open spec fn retires_freed(&self, after: CapaEngine) -> bool {
        forall|h: Handle|
            #[trigger] self.live(h) && !after.live(h) ==> h.idx < after.domain_slots().len()
                && after.domain_slots()[h.idx as int].gen > h.gen
    }

    /// What a successful revocation of `domain` leads to.
    pub open spec fn revoked(&self, after: CapaEngine, domain: Handle) -> bool {
        let m = self.domain_map();
        let s = self.region_slots();
        &&& after.domain_map() == revoked_domains(m, s, domain)
        &&& after.region_map() == released_regions(self.region_map(), m, domain)
        &&& after.pending() == self.pending() + revoke_updates(self.domain_slots(), m, domain, NB_DOMAINS as int)
            + heir_updates(m, s, domain)
        &&& after.core_bindings() == self.core_bindings()
        &&& after.last_id() == self.last_id()
    }

    /// Why `restore_region` would fail, if it would.
    pub open spec fn restore_error(&self, domain: Handle, capa: LocalCapa) -> Option<CapaError> {
        let c = self.capa_at(domain, capa.idx);
        let reg = self.region_map()[c->Region_0];
        if !self.live(domain) {
            Some(CapaError::CapabilityDoesNotExist)
        } else if c == Capa::Empty {
            Some(CapaError::CapabilityDoesNotExist)
        } else if !(c is Region) {
            Some(CapaError::WrongCapabilityType)
        } else if !self.region_map().contains_key(c->Region_0) {
            Some(CapaError::CapabilityDoesNotExist)
        } else if reg.domain != domain {
            Some(CapaError::InternalRegionError)
        } else if self.update_room() < restore_updates(self.region_slots(), reg, NB_REGIONS as int).len() + 1 {
            Some(CapaError::OutOfMemory)
        } else {
            None
        }
    }

    /// What a successful restore of the region in slot `capa` of `domain` leads to.
    pub open spec fn restored(&self, after: CapaEngine, domain: Handle, capa: LocalCapa) -> bool {
        let h = self.capa_at(domain, capa.idx)->Region_0;
        let reg = self.region_map()[h];
        &&& after.region_map() == prune(self.region_map(), self.region_slots(), reg, NB_REGIONS as int).insert(
            h,
            RegionCapa { active: true, ..reg },
        )
        &&& after.domain_map() == scrub(self.domain_map(), self.region_slots(), reg, NB_REGIONS as int)
        &&& after.pending() == self.pending() + restore_updates(self.region_slots(), reg, NB_REGIONS as int).push(
            Update::PermissionUpdate { domain },
        )
        &&& after.core_bindings() == self.core_bindings()
        &&& after.last_id() == self.last_id()
    }

    /// Takes back a region of `domain`: every region carved out of it, by
    /// whichever domain holds it now, is dropped from that domain's table
    /// and freed, and the region becomes active again. The holders of the
    /// active pieces dropped, then `domain`, get a `PermissionUpdate`.
    pub fn restore_region(&mut self, domain: Handle, region: LocalCapa) -> (r: Result<(), CapaError>)
        requires
            old(self).wf(),
        ensures
            final(self).wf(),
            evolves(old(self).domain_slots(), final(self).domain_slots()),
            r is Err <==> old(self).restore_error(domain, region) is Some,
            r is Err ==> r->Err_0 == old(self).restore_error(domain, region)->Some_0 && *final(self) == *old(self),
            r is Ok ==> old(self).restored(*final(self), domain, region),
    {
        if !self.domains.is_live(domain) {
            return Err(CapaError::CapabilityDoesNotExist);
        }
        let h = match self.get_capa(domain, region.idx) {
            Ok(Capa::Region(h)) => h,
            Ok(_) => {
                return Err(CapaError::WrongCapabilityType);
            },
            Err(e) => {
                return Err(e);
            },
        };
        let reg = match self.region_of(h) {
            Some(reg) => reg,
            None => {
                return Err(CapaError::CapabilityDoesNotExist);
            },
        };
        if reg.domain != domain {
            return Err(CapaError::InternalRegionError);
        }
        let cost = self.restore_cost(&reg);
        if self.updates.free_room() <= cost {
            return Err(CapaError::OutOfMemory);
        }
        self.restore(domain, h, reg);
        Ok(())
    }

    /// Why `revoke` would fail, if it would.
    pub open spec fn revoke_error(&self, domain: Handle, capa: LocalCapa) -> Option<CapaError> {
        let c = self.capa_at(domain, capa.idx);
        if !self.live(domain) {
            Some(CapaError::CapabilityDoesNotExist)
        } else if c == Capa::Empty {
            Some(CapaError::CapabilityDoesNotExist)
        } else {
            match c {
                Capa::Region(_) => self.restore_error(domain, capa),
                Capa::Management(child) => if self.live(child) {
                    self.revoke_domain_error(child)
                } else {
                    None
                },
                _ => None,
            }
        }
    }

    /// Revokes the capability in slot `capa` of `domain`. A region is
    /// restored rather than destroyed (see `restore_region`); a management
    /// capability revokes the domain it names with all its descendants (see
    /// `revoke_domain`), which also clears the slot; any other capability
    /// just leaves the table.
    pub fn revoke(&mut self, domain: Handle, capa: LocalCapa) -> (r: Result<(), CapaError>)
        requires
            old(self).wf(),
        ensures
            final(self).wf(),
            evolves(old(self).domain_slots(), final(self).domain_slots()),
            r is Err <==> old(self).revoke_error(domain, capa) is Some,
            r is Err ==> r->Err_0 == old(self).revoke_error(domain, capa)->Some_0 && *final(self) == *old(self),
            r is Ok ==> old(self).retires_freed(*final(self)),
            r is Ok ==> match old(self).capa_at(domain, capa.idx) {
                Capa::Region(_) => old(self).restored(*final(self), domain, capa),
                Capa::Management(child) if old(self).live(child) => old(self).revoked(*final(self), child),
                _ => {
                    &&& final(self).domain_map() == with_slot(
                        old(self).domain_map(),
                        domain,
                        capa.idx as int,
                        Capa::Empty,
                    )
                    &&& final(self).unchanged_but_domains(*old(self))
                },
            },
    {
        if !self.domains.is_live(domain) {
            return Err(CapaError::CapabilityDoesNotExist);
        }
        let c = match self.get_capa(domain, capa.idx) {
            Ok(c) => c,
            Err(e) => {
                return Err(e);
            },
        };
        match c {
            Capa::Region(_) => self.restore_region(domain, capa),
            Capa::Management(child) => {
                if self.domains.is_live(child) {
                    self.revoke_domain(child)
                } else {
                    proof {
                        self.lemma_tables(domain);
                    }
                    self.set_capa(domain, capa.idx, Capa::Empty);
                    Ok(())
                }
            },
            _ => {
                proof {
                    self.lemma_tables(domain);
                }
                self.set_capa(domain, capa.idx, Capa::Empty);
                Ok(())
            },
        }
    }

    /// The memory a domain can access: the rights of each active region it
    /// holds, in slot order. Platform code programs page tables from it.
    pub fn domain_regions(&self, domain: Handle) -> (r: Vec<AccessRights>)
        requires
            self.wf(),
        ensures
            r@ == regions_of(self.region_slots(), domain, NB_REGIONS as int),
    {
        let mut out: Vec<AccessRights> = Vec::new();
        let mut i: usize = 0;
        while i < NB_REGIONS
            invariant
                self.wf(),
                i <= NB_REGIONS,
                out@ == regions_of(self.region_slots(), domain, i as int),
            decreases NB_REGIONS - i,
        {
            match self.regions.handle_at(i) {
                Some(x) => {
                    let xr = match self.region_of(x) {
                        Some(v) => v,
                        None => vstd::pervasive::unreached(),
                    };
                    if xr.domain == domain && xr.active {
                        out.push(xr.access);
                    }
                },
                None => {},
            }
            i = i + 1;
        }
        out
    }

    /// Takes the oldest pending update.
    pub fn pop_update(&mut self) -> (r: Option<Update>)
        requires
            old(self).wf(),
        ensures
            final(self).wf(),
            evolves(old(self).domain_slots(), final(self).domain_slots()),
            old(self).pending().len() == 0 ==> r is None && *final(self) == *old(self),
            old(self).pending().len() > 0 ==> {
                &&& r == Some(old(self).pending()[0])
                &&& final(self).pending() == old(self).pending().drop_first()
                &&& final(self).domain_map() == old(self).domain_map()
                &&& final(self).region_map() == old(self).region_map()
                &&& final(self).core_bindings() == old(self).core_bindings()
                &&& final(self).last_id() == old(self).last_id()
                &&& final(self).domain_room() == old(self).domain_room()
                &&& final(self).region_room() == old(self).region_room()
            },
    {
        self.updates.pop()
    }

    /// A fresh domain id.
    fn domain_id(&mut self) -> (r: usize)
        requires
            old(self).id_counter < usize::MAX,
        ensures
            evolves(old(self).domains@, final(self).domains@),
            r == old(self).id_counter + 1,
            *final(self) == (CapaEngine { id_counter: r, ..*old(self) }),
    {
        self.id_counter = self.id_counter + 1;
        self.id_counter
    }
}

impl Default for CapaEngine {
    fn default() -> (r: CapaEngine)
        ensures
            r.wf(),
            r.domain_map() == Map::<Handle, DomainView>::empty(),
            r.region_map() == Map::<Handle, RegionCapa>::empty(),
            r.pending() == Seq::<Update>::empty(),
    {
        CapaEngine::new()
    }
}

} // verus!
