//! Scheduler: sequences declared units of work and, before a round runs,
//! proves that no two projections in scope — within one unit, or across
//! units of the same declared-parallel group — touch the same physical
//! component index with mutable access anywhere, and that each singleton
//! has at most one mutable accessor (or any number of readers) per round.
//! A failed check is a fatal configuration error, raised at setup time
//! before any record is touched.

use vstd::prelude::*;
use crate::bundle::BundleMeta;
use crate::fetch::{
    FetchRequest, MappingTable, full_avail, lemma_find_free_props, lemma_seq_contain_props,
    find_free, req_leaf_ids, req_leaf_muts, seq_contain_leaves, seq_contain_ok, table_leaves,
    table_valid,
};
use crate::filter::{FilterExpr, filter_holds, pass};
use crate::world::World;

verus! {

/// How a declared access uses its target: read-only or mutable.
#[derive(Debug, Clone, Copy, PartialEq, Eq, Structural)]
pub enum Alias {
    /// Read-only access.
    Imut,
    /// Mutable access.
    Mut,
}

impl Alias {
    pub fn is_imut(&self) -> (r: bool)
        ensures
            r == (*self is Imut),
    {
        match self {
            Alias::Imut => true,
            Alias::Mut => false,
        }
    }

    pub fn is_mut(&self) -> (r: bool)
        ensures
            r == (*self is Mut),
    {
        match self {
            Alias::Imut => false,
            Alias::Mut => true,
        }
    }
}

/// Accumulated access declarations, one entry per declaration, keyed by a
/// stable type id. A new declaration conflicts when its target is already
/// declared and either side wants mutable access.
#[derive(Debug)]
pub struct AliasMap {
    /// Every declaration seen so far.
    pub entries: Vec<(u64, Alias)>,
}

impl AliasMap {
    /// Whether a new declaration of `id` with `usage` would alias an
    /// earlier one unsoundly.
    pub open spec fn conflicts(self, id: u64, usage: Alias) -> bool {
        exists|k: int| 0 <= k < self.entries@.len()
            && (#[trigger] self.entries@[k]).0 == id
            && (usage is Mut || self.entries@[k].1 is Mut)
    }

    pub fn new() -> (r: AliasMap)
        ensures
            r.entries@.len() == 0,
    {
        AliasMap { entries: Vec::new() }
    }

    /// Declares one access. Returns whether the declaration is sound beside
    /// everything declared before; an unsound one is refused and changes
    /// nothing — the caller treats that as a fatal configuration error.
    #[verifier::loop_isolation(false)]
    pub fn insert(&mut self, type_id: u64, usage: Alias) -> (r: bool)
        ensures
            r == !old(self).conflicts(type_id, usage),
            r ==> final(self).entries@ == old(self).entries@.push((type_id, usage)),
            !r ==> final(self).entries@ == old(self).entries@,
    {
        let mut k: usize = 0;
        while k < self.entries.len()
            invariant
                k <= self.entries@.len(),
                forall|i: int| 0 <= i < k ==> !((#[trigger] self.entries@[i]).0 == type_id
                    && (usage is Mut || self.entries@[i].1 is Mut)),
            decreases self.entries@.len() - k,
        {
            if self.entries[k].0 == type_id && (usage.is_mut() || self.entries[k].1.is_mut()) {
                return false;
            }
            k = k + 1;
        }
        self.entries.push((type_id, usage));
        true
    }
}

/// Per-unit bookkeeping while a unit of work is registered: which
/// singletons it asked for, and whether it already took the broad handles
/// that must stay unique within one unit.
#[derive(Debug)]
pub struct SystemState {
    /// Singleton ids the unit declared one by one.
    pub res: Vec<u64>,
    /// Whether the unit took the all-singletons handle.
    pub resources: bool,
    /// Whether the unit took its record-access handle.
    pub access: bool,
    /// Whether the unit took its command handle.
    pub command: bool,
    /// The unit's component-access declarations.
    pub alias_map: AliasMap,
}

impl SystemState {
    pub fn new() -> (r: SystemState)
        ensures
            r.res@.len() == 0,
            !r.resources,
            !r.access,
            !r.command,
            r.alias_map.entries@.len() == 0,
    {
        SystemState {
            res: Vec::new(),
            resources: false,
            access: false,
            command: false,
            alias_map: AliasMap::new(),
        }
    }

    /// Declares one singleton: sound unless the unit already declared the
    /// same one, or took the all-singletons handle.
    #[verifier::loop_isolation(false)]
    pub fn new_res(&mut self, id: u64) -> (r: bool)
        ensures
            r == (!old(self).resources && !old(self).res@.contains(id)),
            r ==> final(self).res@ == old(self).res@.push(id),
            !r ==> final(self).res@ == old(self).res@,
            final(self).resources == old(self).resources,
            final(self).access == old(self).access,
            final(self).command == old(self).command,
            final(self).alias_map == old(self).alias_map,
    {
        if self.resources {
            return false;
        }
        let mut k: usize = 0;
        while k < self.res.len()
            invariant
                k <= self.res@.len(),
                forall|i: int| 0 <= i < k ==> self.res@[i] != id,
            decreases self.res@.len() - k,
        {
            if self.res[k] == id {
                return false;
            }
            k = k + 1;
        }
        self.res.push(id);
        true
    }

    /// Takes the all-singletons handle: sound only while no singleton was
    /// declared one by one and the handle was not taken already.
    pub fn new_resources(&mut self) -> (r: bool)
        ensures
            r == (!old(self).resources && old(self).res@.len() == 0),
            final(self).resources == (old(self).resources || r),
            final(self).res == old(self).res,
            final(self).access == old(self).access,
            final(self).command == old(self).command,
            final(self).alias_map == old(self).alias_map,
    {
        if self.resources || self.res.len() > 0 {
            return false;
        }
        self.resources = true;
        true
    }

    /// Takes the record-access handle: at most one per unit.
    pub fn new_access(&mut self) -> (r: bool)
        ensures
            r == !old(self).access,
            final(self).access,
            final(self).res == old(self).res,
            final(self).resources == old(self).resources,
            final(self).command == old(self).command,
            final(self).alias_map == old(self).alias_map,
    {
        if self.access {
            return false;
        }
        self.access = true;
        true
    }

    /// Takes the command handle: at most one per unit.
    pub fn new_command(&mut self) -> (r: bool)
        ensures
            r == !old(self).command,
            final(self).command,
            final(self).res == old(self).res,
            final(self).resources == old(self).resources,
            final(self).access == old(self).access,
            final(self).alias_map == old(self).alias_map,
    {
        if self.command {
            return false;
        }
        self.command = true;
        true
    }
}

/// One unit of work's declared interface: the projections it will run, each
/// with its predicate, and the singletons it will touch, each with its
/// declared intent.
#[derive(Debug)]
pub struct System {
    /// Declared projections, each paired with its predicate.
    pub fetches: Vec<(FetchRequest, FilterExpr)>,
    /// Declared singleton accesses.
    pub res: Vec<(u64, Alias)>,
}

impl System {
    pub fn new() -> (r: System)
        ensures
            r.fetches@.len() == 0,
            r.res@.len() == 0,
    {
        System { fetches: Vec::new(), res: Vec::new() }
    }

    /// Declares one projection with its predicate.
    pub fn declare_query(&mut self, req: FetchRequest, filt: FilterExpr)
        ensures
            final(self).fetches@ == old(self).fetches@.push((req, filt)),
            final(self).res == old(self).res,
    {
        self.fetches.push((req, filt));
    }

    /// Declares one singleton access.
    pub fn declare_res(&mut self, id: u64, usage: Alias)
        ensures
            final(self).res@ == old(self).res@.push((id, usage)),
            final(self).fetches == old(self).fetches,
    {
        self.res.push((id, usage));
    }
}

/// Collects a mapping tree's flat physical indices, in depth-first order.
#[verifier::loop_isolation(false)]
fn leaves_into(mt: &MappingTable, out: &mut Vec<usize>)
    ensures
        final(out)@.len() == old(out)@.len() + table_leaves(*mt).len(),
        forall|k: int| 0 <= k < old(out)@.len() ==> #[trigger] final(out)@[k] == old(out)@[k],
        forall|k: int| 0 <= k < table_leaves(*mt).len()
            ==> #[trigger] final(out)@[old(out)@.len() + k] == table_leaves(*mt)[k],
    decreases *mt,
{
    match mt {
        MappingTable::Mapping(i) => {
            out.push(*i);
        },
        MappingTable::Node(ms) => {
            let mut k: usize = 0;
            while k < ms.len()
                invariant
                    k <= ms@.len(),
                    out@.len() == old(out)@.len()
                        + crate::fetch::table_leaves_list(ms@.subrange(0, k as int)).len(),
                    forall|j: int| 0 <= j < old(out)@.len()
                        ==> #[trigger] out@[j] == old(out)@[j],
                    forall|j: int|
                        0 <= j < crate::fetch::table_leaves_list(ms@.subrange(0, k as int)).len()
                        ==> #[trigger] out@[old(out)@.len() + j]
                            == crate::fetch::table_leaves_list(ms@.subrange(0, k as int))[j],
                decreases ms@.len() - k,
            {
                proof {
                    assert(decreases_to!(*mt => mt->Node_0));
                    assert(decreases_to!(mt->Node_0 => ms@[k as int]));
                    assert(decreases_to!(*mt => ms@[k as int]));
                }
                let ghost out_mid = out@;
                leaves_into(&ms[k], out);
                proof {
                    assert(ms@.subrange(0, k as int).push(ms@[k as int])
                        =~= ms@.subrange(0, k as int + 1));
                    crate::fetch::lemma_table_leaves_push(ms@.subrange(0, k as int), ms@[k as int]);
                    let base = old(out)@.len() as int;
                    let a = crate::fetch::table_leaves_list(ms@.subrange(0, k as int));
                    let c = table_leaves(ms@[k as int]);
                    let ab = crate::fetch::table_leaves_list(ms@.subrange(0, k as int + 1));
                    assert(ab == a + c);
                    assert forall|j: int| 0 <= j < ab.len()
                        implies #[trigger] out@[base + j] == ab[j] by {
                        if j < a.len() {
                            assert(ab[j] == a[j]);
                            assert(out@[base + j] == out_mid[base + j]);
                        } else {
                            let kk = j - a.len();
                            assert(ab[j] == c[kk]);
                            assert(out@[out_mid.len() + kk] == c[kk]);
                            assert(base + j == out_mid.len() + kk);
                        }
                    }
                }
                k = k + 1;
            }
            proof {
                assert(ms@.subrange(0, ms@.len() as int) =~= ms@);
            }
        },
    }
}

/// Collects a request's flat leaf mutability flags, in depth-first order.
#[verifier::loop_isolation(false)]
fn muts_into(req: &FetchRequest, out: &mut Vec<bool>)
    ensures
        final(out)@.len() == old(out)@.len() + req_leaf_muts(*req).len(),
        forall|k: int| 0 <= k < old(out)@.len() ==> #[trigger] final(out)@[k] == old(out)@[k],
        forall|k: int| 0 <= k < req_leaf_muts(*req).len()
            ==> #[trigger] final(out)@[old(out)@.len() + k] == req_leaf_muts(*req)[k],
    decreases *req,
{
    match req {
        FetchRequest::Unit { mutable, .. } => {
            out.push(*mutable);
        },
        FetchRequest::Tuple(rs) => {
            let mut k: usize = 0;
            while k < rs.len()
                invariant
                    k <= rs@.len(),
                    out@.len() == old(out)@.len()
                        + crate::fetch::leaf_muts_list(rs@.subrange(0, k as int)).len(),
                    forall|j: int| 0 <= j < old(out)@.len()
                        ==> #[trigger] out@[j] == old(out)@[j],
                    forall|j: int|
                        0 <= j < crate::fetch::leaf_muts_list(rs@.subrange(0, k as int)).len()
                        ==> #[trigger] out@[old(out)@.len() + j]
                            == crate::fetch::leaf_muts_list(rs@.subrange(0, k as int))[j],
                decreases rs@.len() - k,
            {
                proof {
                    assert(decreases_to!(*req => req->Tuple_0));
                    assert(decreases_to!(req->Tuple_0 => rs@[k as int]));
                    assert(decreases_to!(*req => rs@[k as int]));
                }
                let ghost out_mid = out@;
                muts_into(&rs[k], out);
                proof {
                    assert(rs@.subrange(0, k as int).push(rs@[k as int])
                        =~= rs@.subrange(0, k as int + 1));
                    crate::fetch::lemma_leaf_ids_push(rs@.subrange(0, k as int), rs@[k as int]);
                    let base = old(out)@.len() as int;
                    let a = crate::fetch::leaf_muts_list(rs@.subrange(0, k as int));
                    let c = req_leaf_muts(rs@[k as int]);
                    let ab = crate::fetch::leaf_muts_list(rs@.subrange(0, k as int + 1));
                    assert(ab == a + c);
                    assert forall|j: int| 0 <= j < ab.len()
                        implies #[trigger] out@[base + j] == ab[j] by {
                        if j < a.len() {
                            assert(ab[j] == a[j]);
                            assert(out@[base + j] == out_mid[base + j]);
                        } else {
                            let kk = j - a.len();
                            assert(ab[j] == c[kk]);
                            assert(out@[out_mid.len() + kk] == c[kk]);
                            assert(base + j == out_mid.len() + kk);
                        }
                    }
                }
                k = k + 1;
            }
            proof {
                assert(rs@.subrange(0, rs@.len() as int) =~= rs@);
            }
        },
    }
}

/// Whether two projections, resolved against one schema, consume a shared
/// physical index with mutable access on at least one side.
pub open spec fn pair_conflict(r1: FetchRequest, r2: FetchRequest, ids: Seq<u64>) -> bool {
    let full = full_avail(ids.len() as int);
    let l1 = seq_contain_leaves(req_leaf_ids(r1), ids, full);
    let l2 = seq_contain_leaves(req_leaf_ids(r2), ids, full);
    let m1 = req_leaf_muts(r1);
    let m2 = req_leaf_muts(r2);
    &&& seq_contain_ok(req_leaf_ids(r1), ids, full)
    &&& seq_contain_ok(req_leaf_ids(r2), ids, full)
    &&& exists|k1: int, k2: int| 0 <= k1 < l1.len() && 0 <= k2 < l2.len()
            && #[trigger] l1[k1] == #[trigger] l2[k2] && (m1[k1] || m2[k2])
}

/// Whether two projections alias on one schema: resolves both against the
/// schema (through its cache) and compares their consumed physical indices,
/// flagging any shared index that either side takes mutably.
#[verifier::loop_isolation(false)]
pub fn requests_conflict(r1: &FetchRequest, r2: &FetchRequest, meta: &mut BundleMeta) -> (r: bool)
    requires
        old(meta).wf(),
    ensures
        final(meta).wf(),
        final(meta).bundle_id == old(meta).bundle_id,
        final(meta).components_ids == old(meta).components_ids,
        final(meta).chunks == old(meta).chunks,
        final(meta).filter_cache == old(meta).filter_cache,
        r == pair_conflict(*r1, *r2, old(meta).components_ids@),
{
    let ghost ids = old(meta).components_ids@;
    let ghost full = full_avail(ids.len() as int);
    let t1 = match meta.fetch_idx(r1) {
        Some(t) => t,
        None => {
            return false;
        },
    };
    let t2 = match meta.fetch_idx(r2) {
        Some(t) => t,
        None => {
            return false;
        },
    };
    let mut l1: Vec<usize> = Vec::new();
    leaves_into(&meta.fetch_cache[t1].1, &mut l1);
    let mut l2: Vec<usize> = Vec::new();
    leaves_into(&meta.fetch_cache[t2].1, &mut l2);
    let mut m1: Vec<bool> = Vec::new();
    muts_into(r1, &mut m1);
    let mut m2: Vec<bool> = Vec::new();
    muts_into(r2, &mut m2);
    let ghost bl1 = seq_contain_leaves(req_leaf_ids(*r1), ids, full);
    let ghost bl2 = seq_contain_leaves(req_leaf_ids(*r2), ids, full);
    let ghost bm1 = req_leaf_muts(*r1);
    let ghost bm2 = req_leaf_muts(*r2);
    proof {
        crate::fetch::lemma_table_for_leaf_len(*r1, meta.fetch_cache@[t1 as int].1);
        crate::fetch::lemma_table_for_leaf_len(*r2, meta.fetch_cache@[t2 as int].1);
        crate::fetch::lemma_leaf_counts(*r1);
        crate::fetch::lemma_leaf_counts(*r2);
        lemma_seq_contain_props(req_leaf_ids(*r1), ids, full);
        lemma_seq_contain_props(req_leaf_ids(*r2), ids, full);
        assert(l1@.len() == bl1.len() && l2@.len() == bl2.len());
        assert(m1@.len() == bm1.len() && m2@.len() == bm2.len());
        assert forall|k: int| 0 <= k < bl1.len() implies #[trigger] l1@[k] == bl1[k] by {
            assert(l1@[0 + k] == table_leaves(meta.fetch_cache@[t1 as int].1)[k]);
        }
        assert forall|k: int| 0 <= k < bl2.len() implies #[trigger] l2@[k] == bl2[k] by {
            assert(l2@[0 + k] == table_leaves(meta.fetch_cache@[t2 as int].1)[k]);
        }
        assert forall|k: int| 0 <= k < bm1.len() implies #[trigger] m1@[k] == bm1[k] by {
            assert(m1@[0 + k] == bm1[k]);
        }
        assert forall|k: int| 0 <= k < bm2.len() implies #[trigger] m2@[k] == bm2[k] by {
            assert(m2@[0 + k] == bm2[k]);
        }
    }
    let mut k1: usize = 0;
    while k1 < l1.len()
        invariant
            k1 <= l1@.len(),
            forall|a: int, b: int| 0 <= a < k1 && 0 <= b < l2@.len()
                ==> !(#[trigger] l1@[a] == #[trigger] l2@[b] && (m1@[a] || m2@[b])),
        decreases l1@.len() - k1,
    {
        let mut k2: usize = 0;
        while k2 < l2.len()
            invariant
                k1 < l1@.len(),
                k2 <= l2@.len(),
                forall|b: int| 0 <= b < k2
                    ==> !(l1@[k1 as int] == #[trigger] l2@[b] && (m1@[k1 as int] || m2@[b])),
            decreases l2@.len() - k2,
        {
            if l1[k1] == l2[k2] && (m1[k1] || m2[k2]) {
                proof {
                    assert(bl1[k1 as int] == bl2[k2 as int]
                        && (bm1[k1 as int] || bm2[k2 as int]));
                }
                return true;
            }
            k2 = k2 + 1;
        }
        k1 = k1 + 1;
    }
    proof {
        assert forall|a: int, b: int| 0 <= a < bl1.len() && 0 <= b < bl2.len()
            implies !(#[trigger] bl1[a] == #[trigger] bl2[b] && (bm1[a] || bm2[b])) by {
            assert(!(l1@[a] == l2@[b] && (m1@[a] || m2@[b])));
        }
    }
    false
}

/// Whether two declared queries collide on schema `j`: both predicates
/// pass, both projections resolve, and they consume a shared physical index
/// with mutable access on at least one side.
pub open spec fn queries_conflict_on(
    w: World,
    q1: (FetchRequest, FilterExpr),
    q2: (FetchRequest, FilterExpr),
    j: int,
) -> bool {
    let ids = w.metas@[j].components_ids@;
    &&& filter_holds(q1.1, ids)
    &&& filter_holds(q2.1, ids)
    &&& pair_conflict(q1.0, q2.0, ids)
}

/// Whether two declared queries collide on any registered schema.
#[verifier::loop_isolation(false)]
pub fn queries_conflict_anywhere(
    world: &mut World,
    q1: &(FetchRequest, FilterExpr),
    q2: &(FetchRequest, FilterExpr),
) -> (r: bool)
    requires
        old(world).wf(),
    ensures
        final(world).wf(),
        world_same_shape(*old(world), *final(world)),
        r == exists|j: int| 0 <= j < old(world).metas@.len()
            && queries_conflict_on(*old(world), *q1, *q2, j),
{
    let ghost pre = *old(world);
    let mut j: usize = 0;
    while j < world.metas.len()
        invariant
            world.wf(),
            world_same_shape(pre, *world),
            forall|i: int| 0 <= i < j ==> !queries_conflict_on(pre, *q1, *q2, i),
        decreases world.metas@.len() - j,
    {
        proof {
            assert(pre.meta_ok(j as int));
            assert(world.meta_ok(j as int));
        }
        let ghost mid = *world;
        let m = &mut world.metas[j];
        let f1 = m.filter(&q1.1);
        let f2 = m.filter(&q2.1);
        if f1 && f2 {
            let c = requests_conflict(&q1.0, &q2.0, m);
            proof {
                crate::world::lemma_meta_touch_keeps_wf(mid, *world, j as int);
            }
            if c {
                proof {
                    assert(queries_conflict_on(pre, *q1, *q2, j as int));
                }
                return true;
            }
        } else {
            proof {
                crate::world::lemma_meta_touch_keeps_wf(mid, *world, j as int);
            }
        }
        j = j + 1;
    }
    false
}

/// Two stores with the same shape: same segments, singletons, capacity and
/// schemas — only the schema caches may differ.
pub open spec fn world_same_shape(a: World, b: World) -> bool {
    &&& b.capacity == a.capacity
    &&& b.chunks == a.chunks
    &&& b.resources == a.resources
    &&& b.metas@.len() == a.metas@.len()
    &&& forall|j: int| 0 <= j < a.metas@.len() ==> {
            &&& (#[trigger] b.metas@[j]).bundle_id == a.metas@[j].bundle_id
            &&& b.metas@[j].components_ids == a.metas@[j].components_ids
            &&& b.metas@[j].chunks == a.metas@[j].chunks
        }
}

/// No two projections declared within one unit of the group, or across two
/// units of the group, collide on any registered schema.
pub open spec fn group_safe(w: World, g: Seq<System>) -> bool {
    forall|a: int, b: int, x: int, y: int, j: int|
        #![trigger g[a].fetches@[x], g[b].fetches@[y], w.metas@[j]]
        0 <= a <= b < g.len() && 0 <= x < g[a].fetches@.len() && 0 <= y < g[b].fetches@.len()
            && (a != b || x != y) && 0 <= j < w.metas@.len()
            ==> !queries_conflict_on(w, g[a].fetches@[x], g[b].fetches@[y], j)
}

/// Checks one declared-parallel group against every registered schema:
/// true exactly when no pair of its projections can alias a component
/// column with mutable access. Alias detection expands each mapping tree,
/// per schema both sides select, to its consumed physical indices; the
/// trees land in the schema caches on the way.
#[verifier::loop_isolation(false)]
pub fn check_group(world: &mut World, g: &Vec<System>) -> (r: bool)
    requires
        old(world).wf(),
    ensures
        final(world).wf(),
        world_same_shape(*old(world), *final(world)),
        r == group_safe(*old(world), g@),
{
    let ghost pre = *old(world);
    let mut a: usize = 0;
    while a < g.len()
        invariant
            world.wf(),
            world_same_shape(pre, *world),
            forall|a0: int, b0: int, x0: int, y0: int, j0: int|
                #![trigger g@[a0].fetches@[x0], g@[b0].fetches@[y0], pre.metas@[j0]]
                0 <= a0 <= b0 < g@.len() && 0 <= x0 < g@[a0].fetches@.len()
                    && 0 <= y0 < g@[b0].fetches@.len() && (a0 != b0 || x0 != y0)
                    && 0 <= j0 < pre.metas@.len() && a0 < a
                    ==> !queries_conflict_on(pre, g@[a0].fetches@[x0], g@[b0].fetches@[y0], j0),
        decreases g@.len() - a,
    {
        let mut b: usize = a;
        while b < g.len()
            invariant
                world.wf(),
                world_same_shape(pre, *world),
                a < g@.len(),
                a <= b,
                forall|a0: int, b0: int, x0: int, y0: int, j0: int|
                    #![trigger g@[a0].fetches@[x0], g@[b0].fetches@[y0], pre.metas@[j0]]
                    0 <= a0 <= b0 < g@.len() && 0 <= x0 < g@[a0].fetches@.len()
                        && 0 <= y0 < g@[b0].fetches@.len() && (a0 != b0 || x0 != y0)
                        && 0 <= j0 < pre.metas@.len() && (a0 < a || (a0 == a && b0 < b))
                        ==> !queries_conflict_on(pre, g@[a0].fetches@[x0], g@[b0].fetches@[y0], j0),
            decreases g@.len() - b,
        {
            let mut x: usize = 0;
            while x < g[a].fetches.len()
                invariant
                    world.wf(),
                    world_same_shape(pre, *world),
                    a < g@.len(),
                    a <= b < g@.len(),
                    x <= g@[a as int].fetches@.len(),
                    forall|x0: int, y0: int, j0: int|
                        #![trigger g@[a as int].fetches@[x0], g@[b as int].fetches@[y0], pre.metas@[j0]]
                        0 <= x0 < g@[a as int].fetches@.len()
                            && 0 <= y0 < g@[b as int].fetches@.len()
                            && (a != b || x0 != y0) && 0 <= j0 < pre.metas@.len() && x0 < x
                            ==> !queries_conflict_on(
                                pre,
                                g@[a as int].fetches@[x0],
                                g@[b as int].fetches@[y0],
                                j0,
                            ),
                decreases g@[a as int].fetches@.len() - x,
            {
                let mut y: usize = if a == b {
                    x + 1
                } else {
                    0
                };
                while y < g[b].fetches.len()
                    invariant
                        world.wf(),
                        world_same_shape(pre, *world),
                        a < g@.len(),
                        a <= b < g@.len(),
                        x < g@[a as int].fetches@.len(),
                        a == b ==> y >= x + 1,
                        forall|y0: int, j0: int|
                            #![trigger g@[b as int].fetches@[y0], pre.metas@[j0]]
                            0 <= y0 < g@[b as int].fetches@.len() && (a != b || x != y0)
                                && 0 <= j0 < pre.metas@.len()
                                && (y0 < y && (a != b || y0 > x))
                                ==> !queries_conflict_on(
                                    pre,
                                    g@[a as int].fetches@[x as int],
                                    g@[b as int].fetches@[y0],
                                    j0,
                                ),
                    decreases g@[b as int].fetches@.len() - y,
                {
                    let ghost mid = *world;
                    let hit = {
                        let qa = &g[a].fetches[x];
                        let qb = &g[b].fetches[y];
                        queries_conflict_anywhere(world, qa, qb)
                    };
                    if hit {
                        proof {
                            let j0 = choose|j0: int| 0 <= j0 < mid.metas@.len()
                                && queries_conflict_on(
                                    mid,
                                    g@[a as int].fetches@[x as int],
                                    g@[b as int].fetches@[y as int],
                                    j0,
                                );
                            assert(pre.metas@[j0].components_ids
                                == mid.metas@[j0].components_ids);
                            assert(queries_conflict_on(
                                pre,
                                g@[a as int].fetches@[x as int],
                                g@[b as int].fetches@[y as int],
                                j0,
                            ));
                        }
                        return false;
                    }
                    proof {
                        assert forall|j0: int| 0 <= j0 < pre.metas@.len()
                            implies !queries_conflict_on(
                                pre,
                                g@[a as int].fetches@[x as int],
                                g@[b as int].fetches@[y as int],
                                j0,
                            ) by {
                            assert(pre.metas@[j0].components_ids
                                == mid.metas@[j0].components_ids);
                            assert(!queries_conflict_on(
                                mid,
                                g@[a as int].fetches@[x as int],
                                g@[b as int].fetches@[y as int],
                                j0,
                            ));
                        }
                    }
                    y = y + 1;
                }
                x = x + 1;
            }
            // queries of the symmetric order are covered by symmetry of the
            // conflict relation
            proof {
                if a == b {
                    lemma_conflict_symmetric_all(pre, g@[a as int]);
                }
            }
            b = b + 1;
        }
        a = a + 1;
    }
    true
}

/// Aliasing is symmetric: within one unit, checking each unordered pair of
/// its projections once covers both orders.
proof fn lemma_conflict_symmetric_all(w: World, s: System)
    ensures
        forall|x: int, y: int, j: int|
            #![trigger s.fetches@[x], s.fetches@[y], w.metas@[j]]
            0 <= x < s.fetches@.len() && 0 <= y < s.fetches@.len() && 0 <= j < w.metas@.len()
                ==> queries_conflict_on(w, s.fetches@[x], s.fetches@[y], j)
                    == queries_conflict_on(w, s.fetches@[y], s.fetches@[x], j),
{
    assert forall|x: int, y: int, j: int|
        0 <= x < s.fetches@.len() && 0 <= y < s.fetches@.len() && 0 <= j < w.metas@.len()
        implies #[trigger] queries_conflict_on(w, #[trigger] s.fetches@[x], s.fetches@[y], j)
            == queries_conflict_on(w, #[trigger] s.fetches@[y], s.fetches@[x], j) by {
        lemma_pair_conflict_symmetric(
            s.fetches@[x].0,
            s.fetches@[y].0,
            w.metas@[j].components_ids@,
        );
    }
}

/// A shared mutably-taken index between two projections is shared whichever
/// of the two is named first.
proof fn lemma_pair_conflict_symmetric(r1: FetchRequest, r2: FetchRequest, ids: Seq<u64>)
    ensures
        pair_conflict(r1, r2, ids) == pair_conflict(r2, r1, ids),
{
    let full = full_avail(ids.len() as int);
    let l1 = seq_contain_leaves(req_leaf_ids(r1), ids, full);
    let l2 = seq_contain_leaves(req_leaf_ids(r2), ids, full);
    let m1 = req_leaf_muts(r1);
    let m2 = req_leaf_muts(r2);
    if pair_conflict(r1, r2, ids) {
        let (k1, k2) = choose|k1: int, k2: int| 0 <= k1 < l1.len() && 0 <= k2 < l2.len()
            && #[trigger] l1[k1] == #[trigger] l2[k2] && (m1[k1] || m2[k2]);
        assert(l2[k2] == l1[k1] && (m2[k2] || m1[k1]));
    }
    if pair_conflict(r2, r1, ids) {
        let (k2, k1) = choose|k2: int, k1: int| 0 <= k2 < l2.len() && 0 <= k1 < l1.len()
            && #[trigger] l2[k2] == #[trigger] l1[k1] && (m2[k2] || m1[k1]);
        assert(l1[k1] == l2[k2] && (m1[k1] || m2[k2]));
    }
}

/// The singleton rule over a list of declarations: two declarations of the
/// same id are only sound when both are read-only — at most one mutable
/// accessor, or any number of readers, per singleton per round.
pub open spec fn alias_sound(decls: Seq<(u64, Alias)>) -> bool {
    forall|i: int, k: int| 0 <= i < k < decls.len() && (#[trigger] decls[i]).0
        == (#[trigger] decls[k]).0 ==> decls[i].1 is Imut && decls[k].1 is Imut
}

/// Every singleton declaration of a round, in group, unit, declaration
/// order.
pub open spec fn round_decls(groups: Seq<Vec<System>>) -> Seq<(u64, Alias)>
    decreases groups,
{
    if groups.len() == 0 {
        Seq::empty()
    } else {
        unit_decls(groups[0]@) + round_decls(groups.drop_first())
    }
}

/// Every singleton declaration of one group's units, in order.
pub open spec fn unit_decls(units: Seq<System>) -> Seq<(u64, Alias)>
    decreases units,
{
    if units.len() == 0 {
        Seq::empty()
    } else {
        units[0].res@ + unit_decls(units.drop_first())
    }
}

proof fn lemma_unit_decls_push(units: Seq<System>, x: System)
    ensures
        unit_decls(units.push(x)) == unit_decls(units) + x.res@,
    decreases units,
{
    if units.len() == 0 {
        assert(units.push(x)[0] == x);
        assert(units.push(x).drop_first() =~= Seq::<System>::empty());
        assert(unit_decls(Seq::<System>::empty()) =~= Seq::<(u64, Alias)>::empty());
        assert(unit_decls(units.push(x)) =~= x.res@);
        assert(unit_decls(units) + x.res@ =~= x.res@);
    } else {
        assert(units.push(x)[0] == units[0]);
        assert(units.push(x).drop_first() =~= units.drop_first().push(x));
        lemma_unit_decls_push(units.drop_first(), x);
        assert(unit_decls(units.push(x)) =~= unit_decls(units) + x.res@);
    }
}

proof fn lemma_round_decls_push(groups: Seq<Vec<System>>, x: Vec<System>)
    ensures
        round_decls(groups.push(x)) == round_decls(groups) + unit_decls(x@),
    decreases groups,
{
    if groups.len() == 0 {
        assert(groups.push(x)[0] == x);
        assert(groups.push(x).drop_first() =~= Seq::<Vec<System>>::empty());
        assert(round_decls(Seq::<Vec<System>>::empty()) =~= Seq::<(u64, Alias)>::empty());
        assert(round_decls(groups.push(x)) =~= unit_decls(x@));
        assert(round_decls(groups) + unit_decls(x@) =~= unit_decls(x@));
    } else {
        assert(groups.push(x)[0] == groups[0]);
        assert(groups.push(x).drop_first() =~= groups.drop_first().push(x));
        lemma_round_decls_push(groups.drop_first(), x);
        assert(round_decls(groups.push(x)) =~= round_decls(groups) + unit_decls(x@));
    }
}

/// Collects every singleton declaration of a round, in order.
#[verifier::loop_isolation(false)]
fn collect_round_decls(groups: &Vec<Vec<System>>) -> (out: Vec<(u64, Alias)>)
    ensures
        out@ == round_decls(groups@),
{
    let mut out: Vec<(u64, Alias)> = Vec::new();
    let mut g: usize = 0;
    while g < groups.len()
        invariant
            g <= groups@.len(),
            out@ == round_decls(groups@.subrange(0, g as int)),
        decreases groups@.len() - g,
    {
        let mut s: usize = 0;
        while s < groups[g].len()
            invariant
                g < groups@.len(),
                s <= groups@[g as int]@.len(),
                out@ == round_decls(groups@.subrange(0, g as int))
                    + unit_decls(groups@[g as int]@.subrange(0, s as int)),
            decreases groups@[g as int]@.len() - s,
        {
            let mut k: usize = 0;
            while k < groups[g][s].res.len()
                invariant
                    g < groups@.len(),
                    s < groups@[g as int]@.len(),
                    k <= groups@[g as int]@[s as int].res@.len(),
                    out@ == round_decls(groups@.subrange(0, g as int))
                        + unit_decls(groups@[g as int]@.subrange(0, s as int))
                        + groups@[g as int]@[s as int].res@.subrange(0, k as int),
                decreases groups@[g as int]@[s as int].res@.len() - k,
            {
                out.push(groups[g][s].res[k]);
                proof {
                    assert(groups@[g as int]@[s as int].res@.subrange(0, k as int).push(
                        groups@[g as int]@[s as int].res@[k as int],
                    ) =~= groups@[g as int]@[s as int].res@.subrange(0, k as int + 1));
                    assert(out@ =~= round_decls(groups@.subrange(0, g as int))
                        + unit_decls(groups@[g as int]@.subrange(0, s as int))
                        + groups@[g as int]@[s as int].res@.subrange(0, k as int + 1));
                }
                k = k + 1;
            }
            proof {
                assert(groups@[g as int]@[s as int].res@.subrange(
                    0,
                    groups@[g as int]@[s as int].res@.len() as int,
                ) =~= groups@[g as int]@[s as int].res@);
                assert(groups@[g as int]@.subrange(0, s as int).push(groups@[g as int]@[s as int])
                    =~= groups@[g as int]@.subrange(0, s as int + 1));
                lemma_unit_decls_push(
                    groups@[g as int]@.subrange(0, s as int),
                    groups@[g as int]@[s as int],
                );
                assert(out@ =~= round_decls(groups@.subrange(0, g as int))
                    + unit_decls(groups@[g as int]@.subrange(0, s as int + 1)));
            }
            s = s + 1;
        }
        proof {
            assert(groups@[g as int]@.subrange(0, groups@[g as int]@.len() as int)
                =~= groups@[g as int]@);
            assert(groups@.subrange(0, g as int).push(groups@[g as int])
                =~= groups@.subrange(0, g as int + 1));
            lemma_round_decls_push(groups@.subrange(0, g as int), groups@[g as int]);
            assert(out@ =~= round_decls(groups@.subrange(0, g as int + 1))
                + unit_decls(groups@[g as int]@.subrange(0, 0)));
            assert(unit_decls(groups@[g as int]@.subrange(0, 0)) =~= Seq::<(u64, Alias)>::empty());
            assert(out@ =~= round_decls(groups@.subrange(0, g as int + 1)));
        }
        g = g + 1;
    }
    proof {
        assert(groups@.subrange(0, groups@.len() as int) =~= groups@);
    }
    out
}

/// Whether a round's singleton declarations obey the rule: declaring them
/// one by one into an alias map accepts all of them exactly when no
/// singleton is doubly declared with a mutable side.
#[verifier::loop_isolation(false)]
pub fn check_singletons(groups: &Vec<Vec<System>>) -> (r: bool)
    ensures
        r == alias_sound(round_decls(groups@)),
{
    let decls = collect_round_decls(groups);
    let mut map = AliasMap::new();
    let mut k: usize = 0;
    while k < decls.len()
        invariant
            k <= decls@.len(),
            map.entries@ == decls@.subrange(0, k as int),
            alias_sound(decls@.subrange(0, k as int)),
        decreases decls@.len() - k,
    {
        let d = decls[k];
        let ok = map.insert(d.0, d.1);
        if !ok {
            proof {
                let prefix = decls@.subrange(0, k as int);
                let w = choose|i: int| 0 <= i < prefix.len() && (#[trigger] prefix[i]).0 == d.0
                    && (d.1 is Mut || prefix[i].1 is Mut);
                assert(decls@[w] == prefix[w]);
                assert(!(decls@[w].1 is Imut && decls@[k as int].1 is Imut));
            }
            return false;
        }
        proof {
            let now = decls@.subrange(0, k as int + 1);
            let prefix = decls@.subrange(0, k as int);
            assert(now =~= prefix.push(d));
            assert(map.entries@ =~= now);
            assert forall|i: int, k2: int| 0 <= i < k2 < now.len() && (#[trigger] now[i]).0
                == (#[trigger] now[k2]).0
                implies now[i].1 is Imut && now[k2].1 is Imut by {
                if k2 == now.len() - 1 {
                    assert(!(d.1 is Mut || prefix[i].1 is Mut));
                } else {
                    assert(prefix[i] == now[i] && prefix[k2] == now[k2]);
                }
            }
        }
        k = k + 1;
    }
    proof {
        assert(decls@.subrange(0, decls@.len() as int) =~= decls@);
    }
    true
}

/// Checks a whole round before it runs: every declared-parallel group free
/// of component aliasing, and the round's singleton declarations sound.
/// False is a fatal configuration error, found at setup time before any
/// record is touched.
#[verifier::loop_isolation(false)]
pub fn check_round(world: &mut World, groups: &Vec<Vec<System>>) -> (r: bool)
    requires
        old(world).wf(),
    ensures
        final(world).wf(),
        world_same_shape(*old(world), *final(world)),
        r == ((forall|g: int| 0 <= g < groups@.len()
            ==> group_safe(*old(world), (#[trigger] groups@[g])@))
            && alias_sound(round_decls(groups@))),
{
    let ghost pre = *old(world);
    if !check_singletons(groups) {
        return false;
    }
    let mut g: usize = 0;
    while g < groups.len()
        invariant
            world.wf(),
            world_same_shape(pre, *world),
            g <= groups@.len(),
            forall|g0: int| 0 <= g0 < g ==> group_safe(pre, (#[trigger] groups@[g0])@),
        decreases groups@.len() - g,
    {
        let ghost mid = *world;
        let ok = check_group(world, &groups[g]);
        if !ok {
            proof {
                lemma_group_safe_shape(pre, mid, groups@[g as int]@);
            }
            return false;
        }
        proof {
            lemma_group_safe_shape(pre, mid, groups@[g as int]@);
        }
        g = g + 1;
    }
    true
}

/// Law of parallel aliasing: two units of work in one declared-parallel
/// group, one asking mutable and the other read access to the same
/// component, collide on any registered schema that carries the component
/// and passes both predicates. The group cannot be proven safe, so the round check
/// reports the fatal configuration error at setup time, before any record
/// is touched.
pub proof fn lemma_parallel_mut_read_conflict(
    w: World,
    g: Seq<System>,
    a: int,
    b: int,
    x: int,
    y: int,
    j: int,
    comp: u64,
)
    requires
        w.wf(),
        0 <= a < b < g.len(),
        0 <= x < g[a].fetches@.len(),
        0 <= y < g[b].fetches@.len(),
        g[a].fetches@[x].0 == (FetchRequest::Unit { type_id: comp, mutable: true }),
        g[b].fetches@[y].0 == (FetchRequest::Unit { type_id: comp, mutable: false }),
        0 <= j < w.metas@.len(),
        w.metas@[j].components_ids@.contains(comp),
        filter_holds(g[a].fetches@[x].1, w.metas@[j].components_ids@),
        filter_holds(g[b].fetches@[y].1, w.metas@[j].components_ids@),
    ensures
        queries_conflict_on(w, g[a].fetches@[x], g[b].fetches@[y], j),
        !group_safe(w, g),
{
    let ids = w.metas@[j].components_ids@;
    let full = full_avail(ids.len() as int);
    let r1 = g[a].fetches@[x].0;
    let r2 = g[b].fetches@[y].0;
    assert(req_leaf_ids(r1) == seq![comp]);
    assert(req_leaf_ids(r2) == seq![comp]);
    assert(req_leaf_muts(r1) == seq![true]);
    assert(req_leaf_muts(r2) == seq![false]);
    let f = find_free(ids, full, comp, 0);
    lemma_find_free_props(ids, full, comp, 0);
    assert(f < ids.len()) by {
        if f == ids.len() {
            let k = choose|k: int| 0 <= k < ids.len() && ids[k] == comp;
            assert(!(full[k] && ids[k] == comp));
        }
    }
    let tids = seq![comp];
    assert(tids.drop_first() =~= Seq::<u64>::empty());
    assert(seq_contain_ok(Seq::<u64>::empty(), ids, full.update(f, false)));
    assert(seq_contain_ok(tids, ids, full));
    assert(seq_contain_leaves(Seq::<u64>::empty(), ids, full.update(f, false))
        =~= Seq::<int>::empty());
    assert(seq_contain_leaves(tids, ids, full) =~= seq![f]);
    let l1 = seq_contain_leaves(req_leaf_ids(r1), ids, full);
    let l2 = seq_contain_leaves(req_leaf_ids(r2), ids, full);
    assert(l1[0] == f && l2[0] == f);
    assert(req_leaf_muts(r1)[0] == true);
    assert(pair_conflict(r1, r2, ids));
    assert(queries_conflict_on(w, g[a].fetches@[x], g[b].fetches@[y], j));
    assert(!group_safe(w, g)) by {
        if group_safe(w, g) {
            assert(!queries_conflict_on(w, g[a].fetches@[x], g[b].fetches@[y], j));
        }
    }
}

/// Group safety reads only the store's schemas, which caches never change.
proof fn lemma_group_safe_shape(a: World, b: World, g: Seq<System>)
    requires
        world_same_shape(a, b),
    ensures
        group_safe(a, g) == group_safe(b, g),
{
    assert(a.metas@.len() == b.metas@.len());
    if group_safe(a, g) {
        assert forall|a0: int, b0: int, x0: int, y0: int, j0: int|
            #![trigger g[a0].fetches@[x0], g[b0].fetches@[y0], b.metas@[j0]]
            0 <= a0 <= b0 < g.len() && 0 <= x0 < g[a0].fetches@.len()
                && 0 <= y0 < g[b0].fetches@.len() && (a0 != b0 || x0 != y0)
                && 0 <= j0 < b.metas@.len()
            implies !queries_conflict_on(b, g[a0].fetches@[x0], g[b0].fetches@[y0], j0) by {
            assert(b.metas@[j0].components_ids == a.metas@[j0].components_ids);
            assert(!queries_conflict_on(a, g[a0].fetches@[x0], g[b0].fetches@[y0], j0));
        }
    }
    if group_safe(b, g) {
        assert forall|a0: int, b0: int, x0: int, y0: int, j0: int|
            #![trigger g[a0].fetches@[x0], g[b0].fetches@[y0], a.metas@[j0]]
            0 <= a0 <= b0 < g.len() && 0 <= x0 < g[a0].fetches@.len()
                && 0 <= y0 < g[b0].fetches@.len() && (a0 != b0 || x0 != y0)
                && 0 <= j0 < a.metas@.len()
            implies !queries_conflict_on(a, g[a0].fetches@[x0], g[b0].fetches@[y0], j0) by {
            assert(b.metas@[j0].components_ids == a.metas@[j0].components_ids);
            assert(!queries_conflict_on(b, g[a0].fetches@[x0], g[b0].fetches@[y0], j0));
        }
    }
}

/// Cached resolutions of one projection: per schema id, the mapping tree it
/// resolved to, or `None` where it does not resolve.
#[derive(Debug)]
pub struct FetchCache {
    /// The projection this cache is for.
    pub req: FetchRequest,
    /// One entry per synced schema.
    pub tables: Vec<(u64, Option<MappingTable>)>,
}

impl FetchCache {
    /// Every entry tells the truth about the schema it names.
    pub open spec fn ok_for(self, w: World) -> bool {
        forall|e: int| 0 <= e < self.tables@.len() ==> {
            let (bid, t) = #[trigger] self.tables@[e];
            let ids = w.schema_ids(bid);
            &&& w.has_meta(bid)
            &&& (t is Some <==> seq_contain_ok(
                req_leaf_ids(self.req),
                ids,
                full_avail(ids.len() as int),
            ))
            &&& (t matches Option::Some(mt) ==> crate::fetch::table_for(self.req, mt)
                && table_leaves(mt) == seq_contain_leaves(
                    req_leaf_ids(self.req),
                    ids,
                    full_avail(ids.len() as int),
                ))
        }
    }

    pub fn new(req: FetchRequest) -> (r: FetchCache)
        ensures
            r.req == req,
            r.tables@.len() == 0,
    {
        FetchCache { req, tables: Vec::new() }
    }
}

/// Cached verdicts of one predicate: per schema id, whether it passes.
#[derive(Debug)]
pub struct QueryCache {
    /// The predicate this cache is for.
    pub filt: FilterExpr,
    /// One entry per synced schema.
    pub tables: Vec<(u64, bool)>,
}

impl QueryCache {
    /// Every entry tells the truth about the schema it names.
    pub open spec fn ok_for(self, w: World) -> bool {
        forall|e: int| 0 <= e < self.tables@.len() ==> {
            let (bid, p) = #[trigger] self.tables@[e];
            &&& w.has_meta(bid)
            &&& p == filter_holds(self.filt, w.schema_ids(bid))
        }
    }

    pub fn new(filt: FilterExpr) -> (r: QueryCache)
        ensures
            r.filt == filt,
            r.tables@.len() == 0,
    {
        QueryCache { filt, tables: Vec::new() }
    }
}

/// The scheduler: holds the declared units of work, grouped, with the
/// projection and predicate caches that one sync per round fills for every
/// schema it has not seen, monotonically.
#[derive(Debug)]
pub struct Scheduler {
    /// Schema ids already folded into every cache.
    pub cached: Vec<u64>,
    /// One cache per registered projection.
    pub fetch_caches: Vec<FetchCache>,
    /// One cache per registered predicate.
    pub query_caches: Vec<QueryCache>,
    /// The units of work, in registration order, grouped: units inside one
    /// group are declared to run in parallel.
    pub groups: Vec<Vec<System>>,
    /// Bookkeeping for the unit being registered.
    pub temp_system_state: SystemState,
}

impl Scheduler {
    /// Every cache entry tells the truth about the store's schemas.
    pub open spec fn caches_ok(self, w: World) -> bool {
        &&& forall|f: int| 0 <= f < self.fetch_caches@.len()
                ==> (#[trigger] self.fetch_caches@[f]).ok_for(w)
        &&& forall|q: int| 0 <= q < self.query_caches@.len()
                ==> (#[trigger] self.query_caches@[q]).ok_for(w)
    }

    /// Every schema the scheduler has marked as seen has one entry in
    /// every cache.
    pub open spec fn lists_synced(self) -> bool {
        &&& forall|k: int, f: int|
                #![trigger self.cached@[k], self.fetch_caches@[f]]
                0 <= k < self.cached@.len() && 0 <= f < self.fetch_caches@.len()
                    ==> exists|e: int|
                    0 <= e < self.fetch_caches@[f].tables@.len()
                        && (#[trigger] self.fetch_caches@[f].tables@[e]).0 == self.cached@[k]
        &&& forall|k: int, q: int|
                #![trigger self.cached@[k], self.query_caches@[q]]
                0 <= k < self.cached@.len() && 0 <= q < self.query_caches@.len()
                    ==> exists|e: int|
                    0 <= e < self.query_caches@[q].tables@.len()
                        && (#[trigger] self.query_caches@[q].tables@[e]).0 == self.cached@[k]
    }

    pub fn new() -> (r: Scheduler)
        ensures
            r.cached@.len() == 0,
            r.fetch_caches@.len() == 0,
            r.query_caches@.len() == 0,
            r.groups@.len() == 0,
    {
        Scheduler {
            cached: Vec::new(),
            fetch_caches: Vec::new(),
            query_caches: Vec::new(),
            groups: Vec::new(),
            temp_system_state: SystemState::new(),
        }
    }

    /// A fresh scheduler for a store; its caches fill at the first sync.
    pub fn from_world(world: &World) -> (r: Scheduler)
        ensures
            r.cached@.len() == 0,
            r.fetch_caches@.len() == 0,
            r.query_caches@.len() == 0,
            r.groups@.len() == 0,
            r.caches_ok(*world),
    {
        Scheduler::new()
    }

    /// Registers a projection; its cache fills at the next sync. Every
    /// projection is registered before the first sync, so no cache misses
    /// schemas folded in earlier.
    pub fn registry_fetch(&mut self, req: FetchRequest)
        requires
            old(self).cached@.len() == 0,
        ensures
            exists|f: int| 0 <= f < final(self).fetch_caches@.len()
                && crate::fetch::req_eq((#[trigger] final(self).fetch_caches@[f]).req, req),
            final(self).query_caches == old(self).query_caches,
            final(self).groups == old(self).groups,
            final(self).cached == old(self).cached,
            forall|f: int| 0 <= f < old(self).fetch_caches@.len()
                ==> #[trigger] final(self).fetch_caches@[f] == old(self).fetch_caches@[f],
            final(self).fetch_caches@.len() >= old(self).fetch_caches@.len(),
            final(self).fetch_caches@.len() <= old(self).fetch_caches@.len() + 1,
            final(self).fetch_caches@.len() == old(self).fetch_caches@.len() + 1 ==> {
                let fc = final(self).fetch_caches@.last();
                fc.req == req && fc.tables@.len() == 0
            },
    {
        let mut k: usize = 0;
        while k < self.fetch_caches.len()
            invariant
                k <= self.fetch_caches@.len(),
            decreases self.fetch_caches@.len() - k,
        {
            if crate::fetch::fetch_req_eq(&self.fetch_caches[k].req, &req) {
                proof {
                    assert(crate::fetch::req_eq(self.fetch_caches@[k as int].req, req));
                }
                return ;
            }
            k = k + 1;
        }
        proof {
            crate::fetch::lemma_req_eq_refl(req);
        }
        self.fetch_caches.push(FetchCache::new(req));
        proof {
            assert(crate::fetch::req_eq(self.fetch_caches@.last().req, req));
        }
    }

    /// Registers a predicate; its cache fills at the next sync. Every
    /// predicate is registered before the first sync, so no cache misses
    /// schemas folded in earlier.
    pub fn registry_query(&mut self, filt: FilterExpr)
        requires
            old(self).cached@.len() == 0,
        ensures
            exists|q: int| 0 <= q < final(self).query_caches@.len()
                && crate::filter::filter_eq((#[trigger] final(self).query_caches@[q]).filt, filt),
            final(self).fetch_caches == old(self).fetch_caches,
            final(self).groups == old(self).groups,
            final(self).cached == old(self).cached,
            forall|q: int| 0 <= q < old(self).query_caches@.len()
                ==> #[trigger] final(self).query_caches@[q] == old(self).query_caches@[q],
            final(self).query_caches@.len() >= old(self).query_caches@.len(),
            final(self).query_caches@.len() <= old(self).query_caches@.len() + 1,
            final(self).query_caches@.len() == old(self).query_caches@.len() + 1 ==> {
                let qc = final(self).query_caches@.last();
                qc.filt == filt && qc.tables@.len() == 0
            },
    {
        let mut k: usize = 0;
        while k < self.query_caches.len()
            invariant
                k <= self.query_caches@.len(),
            decreases self.query_caches@.len() - k,
        {
            if crate::filter::filter_expr_eq(&self.query_caches[k].filt, &filt) {
                proof {
                    assert(crate::filter::filter_eq(self.query_caches@[k as int].filt, filt));
                }
                return ;
            }
            k = k + 1;
        }
        proof {
            crate::filter::lemma_filter_eq_refl(filt);
        }
        self.query_caches.push(QueryCache::new(filt));
        proof {
            assert(crate::filter::filter_eq(self.query_caches@.last().filt, filt));
        }
    }

    /// Registers one unit of work as its own group: units registered this
    /// way run in registration order.
    pub fn add_system(&mut self, sys: System)
        ensures
            final(self).groups@.len() == old(self).groups@.len() + 1,
            forall|g: int| 0 <= g < old(self).groups@.len()
                ==> #[trigger] final(self).groups@[g] == old(self).groups@[g],
            final(self).groups@.last()@ == seq![sys],
            final(self).fetch_caches == old(self).fetch_caches,
            final(self).query_caches == old(self).query_caches,
            final(self).cached == old(self).cached,
    {
        let mut group: Vec<System> = Vec::new();
        group.push(sys);
        proof {
            assert(group@ =~= seq![sys]);
        }
        self.groups.push(group);
    }

    /// Registers a declared-parallel group of units: the round check must
    /// prove them free of shared mutable access before any round runs.
    pub fn add_parallel(&mut self, group: Vec<System>)
        ensures
            final(self).groups@ == old(self).groups@.push(group),
            final(self).fetch_caches == old(self).fetch_caches,
            final(self).query_caches == old(self).query_caches,
            final(self).cached == old(self).cached,
    {
        self.groups.push(group);
    }

    /// Stores a singleton value in the store's type-keyed slots, so units
    /// of work can select it.
    pub fn add_resources(
        &mut self,
        world: &mut World,
        id: u64,
        value: crate::component::CompValue,
    ) -> (r: Option<crate::component::CompValue>)
        requires
            old(world).wf(),
        ensures
            final(world).wf(),
            *final(self) == *old(self),
            r == old(world).resources.value_of(id),
            final(world).resources.value_of(id)
                == Option::Some(value),
            forall|other: u64| other != id
                ==> final(world).resources.value_of(other)
                    == old(world).resources.value_of(other),
            final(world).chunks == old(world).chunks,
            final(world).metas == old(world).metas,
            final(world).capacity == old(world).capacity,
    {
        let r = world.resources.get_res_mut(id, value);
        proof {
            assert forall|c: int| 0 <= c < world.chunks@.len() implies world.chunk_ok(c) by {
                assert(old(world).chunk_ok(c));
            }
            assert forall|j: int| 0 <= j < world.metas@.len() implies world.meta_ok(j) by {
                assert(old(world).meta_ok(j));
            }
        }
        r
    }

    /// Syncs the caches: every schema not yet seen gets one entry in every
    /// cache, computed once — monotonic, never recomputed.
    #[verifier::loop_isolation(false)]
    pub fn sync(&mut self, world: &World)
        requires
            world.wf(),
            old(self).caches_ok(*world),
            old(self).lists_synced(),
        ensures
            final(self).caches_ok(*world),
            final(self).lists_synced(),
            forall|j: int| 0 <= j < world.metas@.len()
                ==> final(self).cached@.contains((#[trigger] world.metas@[j]).bundle_id),
            final(self).groups == old(self).groups,
            final(self).fetch_caches@.len() == old(self).fetch_caches@.len(),
            final(self).query_caches@.len() == old(self).query_caches@.len(),
            forall|f: int| 0 <= f < old(self).fetch_caches@.len()
                ==> (#[trigger] final(self).fetch_caches@[f]).req
                    == old(self).fetch_caches@[f].req,
            forall|q: int| 0 <= q < old(self).query_caches@.len()
                ==> (#[trigger] final(self).query_caches@[q]).filt
                    == old(self).query_caches@[q].filt,
    {
        let mut j: usize = 0;
        while j < world.metas.len()
            invariant
                world.wf(),
                self.caches_ok(*world),
                self.lists_synced(),
                forall|j0: int| 0 <= j0 < j
                    ==> self.cached@.contains((#[trigger] world.metas@[j0]).bundle_id),
                self.groups == old(self).groups,
                self.fetch_caches@.len() == old(self).fetch_caches@.len(),
                self.query_caches@.len() == old(self).query_caches@.len(),
                forall|f: int| 0 <= f < old(self).fetch_caches@.len()
                    ==> (#[trigger] self.fetch_caches@[f]).req == old(self).fetch_caches@[f].req,
                forall|q: int| 0 <= q < old(self).query_caches@.len()
                    ==> (#[trigger] self.query_caches@[q]).filt == old(self).query_caches@[q].filt,
            decreases world.metas@.len() - j,
        {
            let bid = world.metas[j].bundle_id;
            proof {
                assert(world.meta_ok(j as int));
                crate::world::lemma_find_meta_props(world.metas@, bid, 0);
            }
            if !crate::filter::contains_id(&self.cached, bid) {
                let ghost jj = world.meta_idx(bid);
                let ghost s0 = *self;
                let mut f: usize = 0;
                while f < self.fetch_caches.len()
                    invariant
                        world.wf(),
                        j < world.metas@.len(),
                        f <= self.fetch_caches@.len(),
                        world.has_meta(bid),
                        world.schema_ids(bid) == world.metas@[j as int].components_ids@,
                        self.caches_ok(*world),
                        self.lists_synced(),
                        forall|f0: int| 0 <= f0 < f ==> exists|e: int|
                            0 <= e < (#[trigger] self.fetch_caches@[f0]).tables@.len()
                                && (#[trigger] self.fetch_caches@[f0].tables@[e]).0 == bid,
                        self.groups == old(self).groups,
                        self.cached == s0.cached,
                        self.query_caches == s0.query_caches,
                        self.query_caches@.len() == old(self).query_caches@.len(),
                        forall|q0: int| 0 <= q0 < old(self).query_caches@.len()
                            ==> (#[trigger] self.query_caches@[q0]).filt
                                == old(self).query_caches@[q0].filt,
                        self.fetch_caches@.len() == old(self).fetch_caches@.len(),
                        forall|f0: int| 0 <= f0 < old(self).fetch_caches@.len()
                            ==> (#[trigger] self.fetch_caches@[f0]).req
                                == old(self).fetch_caches@[f0].req,
                    decreases self.fetch_caches@.len() - f,
                {
                    let mut avail: Vec<bool> = Vec::new();
                    let mut i: usize = 0;
                    while i < world.metas[j].components_ids.len()
                        invariant
                            j < world.metas@.len(),
                            i <= world.metas@[j as int].components_ids@.len(),
                            avail@ =~= Seq::new(i as nat, |x: int| true),
                        decreases world.metas@[j as int].components_ids@.len() - i,
                    {
                        avail.push(true);
                        i = i + 1;
                    }
                    proof {
                        assert(avail@ =~= full_avail(
                            world.metas@[j as int].components_ids@.len() as int,
                        ));
                    }
                    let t = crate::fetch::contain(
                        &self.fetch_caches[f].req,
                        &world.metas[j].components_ids,
                        &mut avail,
                    );
                    let ghost fc_pre = self.fetch_caches@[f as int];
                    let ghost all_pre = *self;
                    self.fetch_caches[f].tables.push((bid, t));
                    proof {
                        assert forall|k: int, f0: int|
                            #![trigger self.cached@[k], self.fetch_caches@[f0]]
                            0 <= k < self.cached@.len() && 0 <= f0 < self.fetch_caches@.len()
                            implies exists|e: int|
                                0 <= e < self.fetch_caches@[f0].tables@.len()
                                    && (#[trigger] self.fetch_caches@[f0].tables@[e]).0
                                        == self.cached@[k] by {
                            let e = choose|e: int|
                                0 <= e < all_pre.fetch_caches@[f0].tables@.len()
                                    && (#[trigger] all_pre.fetch_caches@[f0].tables@[e]).0
                                        == all_pre.cached@[k];
                            assert(self.fetch_caches@[f0].tables@[e].0 == self.cached@[k]);
                        }
                        assert forall|k: int, q0: int|
                            #![trigger self.cached@[k], self.query_caches@[q0]]
                            0 <= k < self.cached@.len() && 0 <= q0 < self.query_caches@.len()
                            implies exists|e: int|
                                0 <= e < self.query_caches@[q0].tables@.len()
                                    && (#[trigger] self.query_caches@[q0].tables@[e]).0
                                        == self.cached@[k] by {
                            let e = choose|e: int|
                                0 <= e < all_pre.query_caches@[q0].tables@.len()
                                    && (#[trigger] all_pre.query_caches@[q0].tables@[e]).0
                                        == all_pre.cached@[k];
                            assert(self.query_caches@[q0].tables@[e].0 == self.cached@[k]);
                        }
                        assert forall|f0: int| 0 <= f0 < f + 1 implies exists|e: int|
                            0 <= e < (#[trigger] self.fetch_caches@[f0]).tables@.len()
                                && (#[trigger] self.fetch_caches@[f0].tables@[e]).0 == bid by {
                            if f0 < f {
                                let e = choose|e: int|
                                    0 <= e < all_pre.fetch_caches@[f0].tables@.len()
                                        && (#[trigger] all_pre.fetch_caches@[f0].tables@[e]).0
                                            == bid;
                                assert(self.fetch_caches@[f0].tables@[e].0 == bid);
                            } else {
                                assert(self.fetch_caches@[f0].tables@[
                                    self.fetch_caches@[f0].tables@.len() - 1].0 == bid);
                            }
                        }
                        let fc = self.fetch_caches@[f as int];
                        assert(fc.req == fc_pre.req);
                        assert forall|e: int| 0 <= e < fc.tables@.len() implies {
                            let (b0, t0) = #[trigger] fc.tables@[e];
                            let ids = world.schema_ids(b0);
                            &&& world.has_meta(b0)
                            &&& (t0 is Some <==> seq_contain_ok(
                                req_leaf_ids(fc.req),
                                ids,
                                full_avail(ids.len() as int),
                            ))
                            &&& (t0 matches Option::Some(mt)
                                ==> crate::fetch::table_for(fc.req, mt) && table_leaves(mt)
                                    == seq_contain_leaves(
                                    req_leaf_ids(fc.req),
                                    ids,
                                    full_avail(ids.len() as int),
                                ))
                        } by {
                            if e < fc.tables@.len() - 1 {
                                assert(fc.tables@[e] == fc_pre.tables@[e]);
                                assert(fc_pre.ok_for(*world));
                            }
                        }
                        assert(fc.ok_for(*world));
                        assert forall|f0: int| 0 <= f0 < self.fetch_caches@.len()
                            implies (#[trigger] self.fetch_caches@[f0]).ok_for(*world) by {
                            if f0 != f {
                                assert(self.fetch_caches@[f0] == old(self).fetch_caches@[f0]
                                    || self.fetch_caches@[f0].ok_for(*world));
                            }
                        }
                    }
                    f = f + 1;
                }
                let mut q: usize = 0;
                while q < self.query_caches.len()
                    invariant
                        world.wf(),
                        j < world.metas@.len(),
                        q <= self.query_caches@.len(),
                        world.has_meta(bid),
                        world.schema_ids(bid) == world.metas@[j as int].components_ids@,
                        self.caches_ok(*world),
                        self.lists_synced(),
                        forall|f0: int| 0 <= f0 < self.fetch_caches@.len() ==> exists|e: int|
                            0 <= e < (#[trigger] self.fetch_caches@[f0]).tables@.len()
                                && (#[trigger] self.fetch_caches@[f0].tables@[e]).0 == bid,
                        forall|q0: int| 0 <= q0 < q ==> exists|e: int|
                            0 <= e < (#[trigger] self.query_caches@[q0]).tables@.len()
                                && (#[trigger] self.query_caches@[q0].tables@[e]).0 == bid,
                        self.groups == old(self).groups,
                        self.cached == s0.cached,
                        self.fetch_caches@.len() == old(self).fetch_caches@.len(),
                        self.query_caches@.len() == old(self).query_caches@.len(),
                        forall|f0: int| 0 <= f0 < old(self).fetch_caches@.len()
                            ==> (#[trigger] self.fetch_caches@[f0]).req
                                == old(self).fetch_caches@[f0].req,
                        forall|q0: int| 0 <= q0 < old(self).query_caches@.len()
                            ==> (#[trigger] self.query_caches@[q0]).filt
                                == old(self).query_caches@[q0].filt,
                    decreases self.query_caches@.len() - q,
                {
                    let p = pass(&self.query_caches[q].filt, &world.metas[j].components_ids);
                    let ghost qc_pre = self.query_caches@[q as int];
                    let ghost all_pre = *self;
                    self.query_caches[q].tables.push((bid, p));
                    proof {
                        assert forall|k: int, q0: int|
                            #![trigger self.cached@[k], self.query_caches@[q0]]
                            0 <= k < self.cached@.len() && 0 <= q0 < self.query_caches@.len()
                            implies exists|e: int|
                                0 <= e < self.query_caches@[q0].tables@.len()
                                    && (#[trigger] self.query_caches@[q0].tables@[e]).0
                                        == self.cached@[k] by {
                            let e = choose|e: int|
                                0 <= e < all_pre.query_caches@[q0].tables@.len()
                                    && (#[trigger] all_pre.query_caches@[q0].tables@[e]).0
                                        == all_pre.cached@[k];
                            assert(self.query_caches@[q0].tables@[e].0 == self.cached@[k]);
                        }
                        assert forall|q0: int| 0 <= q0 < q + 1 implies exists|e: int|
                            0 <= e < (#[trigger] self.query_caches@[q0]).tables@.len()
                                && (#[trigger] self.query_caches@[q0].tables@[e]).0 == bid by {
                            if q0 < q {
                                let e = choose|e: int|
                                    0 <= e < all_pre.query_caches@[q0].tables@.len()
                                        && (#[trigger] all_pre.query_caches@[q0].tables@[e]).0
                                            == bid;
                                assert(self.query_caches@[q0].tables@[e].0 == bid);
                            } else {
                                assert(self.query_caches@[q0].tables@.last().0 == bid);
                                assert(self.query_caches@[q0].tables@[
                                    self.query_caches@[q0].tables@.len() - 1].0 == bid);
                            }
                        }
                        let qc = self.query_caches@[q as int];
                        assert forall|e: int| 0 <= e < qc.tables@.len() implies {
                            let (b0, p0) = #[trigger] qc.tables@[e];
                            &&& world.has_meta(b0)
                            &&& p0 == filter_holds(qc.filt, world.schema_ids(b0))
                        } by {
                            if e < qc.tables@.len() - 1 {
                                assert(qc.tables@[e] == qc_pre.tables@[e]);
                                assert(qc_pre.ok_for(*world));
                            }
                        }
                        assert(qc.ok_for(*world));
                    }
                    q = q + 1;
                }
                proof {
                    let pre_cached = self.cached@;
                    assert forall|f0: int| 0 <= f0 < self.fetch_caches@.len()
                        implies exists|e: int|
                            0 <= e < (#[trigger] self.fetch_caches@[f0]).tables@.len()
                                && (#[trigger] self.fetch_caches@[f0].tables@[e]).0 == bid by {}
                }
                self.cached.push(bid);
                proof {
                    assert(self.cached@.last() == bid);
                    assert forall|k: int, f0: int|
                        #![trigger self.cached@[k], self.fetch_caches@[f0]]
                        0 <= k < self.cached@.len() && 0 <= f0 < self.fetch_caches@.len()
                        implies exists|e: int|
                            0 <= e < self.fetch_caches@[f0].tables@.len()
                                && (#[trigger] self.fetch_caches@[f0].tables@[e]).0
                                    == self.cached@[k] by {
                        if k < self.cached@.len() - 1 {
                            assert(self.cached@[k] == s0.cached@[k]);
                        } else {
                            assert(self.cached@[k] == bid);
                        }
                    }
                    assert forall|k: int, q0: int|
                        #![trigger self.cached@[k], self.query_caches@[q0]]
                        0 <= k < self.cached@.len() && 0 <= q0 < self.query_caches@.len()
                        implies exists|e: int|
                            0 <= e < self.query_caches@[q0].tables@.len()
                                && (#[trigger] self.query_caches@[q0].tables@[e]).0
                                    == self.cached@[k] by {
                        if k < self.cached@.len() - 1 {
                            assert(self.cached@[k] == s0.cached@[k]);
                        } else {
                            assert(self.cached@[k] == bid);
                        }
                    }
                    assert forall|j0: int| 0 <= j0 < j + 1
                        implies self.cached@.contains((#[trigger] world.metas@[j0]).bundle_id) by {
                        if j0 < j {
                            let kk = choose|kk: int| 0 <= kk < s0.cached@.len()
                                && s0.cached@[kk] == world.metas@[j0].bundle_id;
                            assert(self.cached@[kk] == world.metas@[j0].bundle_id);
                        } else {
                            assert(self.cached@.last() == world.metas@[j0].bundle_id);
                        }
                    }
                }
            } else {
                proof {
                    assert(self.cached@.contains(bid));
                }
            }
            j = j + 1;
        }
    }

    /// Seals the registrations: the schedule is what a round runs.
    pub fn build(self) -> (r: Schedule)
        ensures
            r.inner == self,
    {
        Schedule { inner: self }
    }
}

/// First verdict entry for a schema id, or the table's length.
pub open spec fn find_verdict(tables: Seq<(u64, bool)>, bid: u64, from: int) -> int
    decreases tables.len() - from,
{
    if from < 0 || from >= tables.len() {
        tables.len() as int
    } else if tables[from].0 == bid {
        from
    } else {
        find_verdict(tables, bid, from + 1)
    }
}

/// A predicate cache's verdict for a schema: its first entry for the
/// schema's id, false when it holds none.
pub open spec fn qc_verdict(qc: QueryCache, bid: u64) -> bool {
    let i = find_verdict(qc.tables@, bid, 0);
    i < qc.tables@.len() && qc.tables@[i].1
}

/// Whether projection-cache entry `e` is selected under a predicate cache:
/// its mapping resolved, the predicate's cached verdict true, and the
/// schema registered.
pub open spec fn access_selects(fc: FetchCache, qc: QueryCache, w: World, e: int) -> bool {
    &&& fc.tables@[e].1 is Some
    &&& qc_verdict(qc, fc.tables@[e].0)
    &&& w.has_meta(fc.tables@[e].0)
}

/// The projection-cache entries selected under a predicate cache, at or
/// after `from`, in cache order.
pub open spec fn access_entries(fc: FetchCache, qc: QueryCache, w: World, from: int) -> Seq<int>
    decreases fc.tables@.len() - from,
{
    if from < 0 || from >= fc.tables@.len() {
        Seq::empty()
    } else if access_selects(fc, qc, w, from) {
        seq![from] + access_entries(fc, qc, w, from + 1)
    } else {
        access_entries(fc, qc, w, from + 1)
    }
}

impl Scheduler {
    /// The standing of one registered projection, under one registered
    /// predicate, across the synced schemas: exactly one (cached mapping
    /// tree, segment-ordinal list) pair per schema whose cached predicate
    /// verdict is true and whose cached mapping resolved — spec query
    /// selection — each pair carrying that schema's owned segments; the
    /// store is not touched.
    #[verifier::loop_isolation(false)]
    pub fn new_access<'a>(&'a self, world: &'a World, f: usize, q: usize) -> (r: crate::iter::Access<
        'a,
    >)
        requires
            world.wf(),
            f < self.fetch_caches@.len(),
            q < self.query_caches@.len(),
            self.caches_ok(*world),
        ensures
            r.wf_access(),
            r.reads_valid(),
            r.chunks == &world.chunks,
            r.req == &self.fetch_caches@[f as int].req,
            ({
                let fc = self.fetch_caches@[f as int];
                let qc = self.query_caches@[q as int];
                let picks = access_entries(fc, qc, *world, 0);
                &&& r.selected_chunks@.len() == picks.len()
                &&& forall|k: int| 0 <= k < picks.len() ==> {
                        let e = #[trigger] picks[k];
                        &&& *r.selected_chunks@[k].0 == fc.tables@[e].1->0
                        &&& r.selected_chunks@[k].1@ == world.metas@[world.meta_idx(
                            fc.tables@[e].0,
                        )].chunks@
                    }
            }),
    {
        let fc = &self.fetch_caches[f];
        let qc = &self.query_caches[q];
        let ghost picks = access_entries(*fc, *qc, *world, 0);
        let mut selected: Vec<(&'a MappingTable, Vec<usize>)> = Vec::new();
        let ghost mut chosen = Seq::<int>::empty();
        let mut e: usize = 0;
        while e < fc.tables.len()
            invariant
                world.wf(),
                fc == &self.fetch_caches@[f as int],
                qc == &self.query_caches@[q as int],
                f < self.fetch_caches@.len(),
                q < self.query_caches@.len(),
                self.caches_ok(*world),
                e <= fc.tables@.len(),
                access_entries(*fc, *qc, *world, 0) == chosen + access_entries(
                    *fc,
                    *qc,
                    *world,
                    e as int,
                ),
                selected@.len() == chosen.len(),
                forall|k: int| 0 <= k < chosen.len() ==> {
                    let e0 = #[trigger] chosen[k];
                    &&& 0 <= e0 < fc.tables@.len()
                    &&& access_selects(*fc, *qc, *world, e0)
                    &&& *selected@[k].0 == fc.tables@[e0].1->0
                    &&& selected@[k].1@ == world.metas@[world.meta_idx(fc.tables@[e0].0)].chunks@
                },
                forall|k: int, i: int|
                    0 <= k < selected@.len() && 0 <= i < (#[trigger] selected@[k]).1@.len() ==> {
                        &&& #[trigger] selected@[k].1@[i] < world.chunks@.len()
                        &&& world.chunks@[selected@[k].1@[i] as int].wf()
                    },
                forall|k: int, i: int, s: int|
                    0 <= k < selected@.len() && 0 <= i < (#[trigger] selected@[k]).1@.len()
                        && 0 <= s < world.chunks@[selected@[k].1@[i] as int].bundles@.len()
                        && world.chunks@[selected@[k].1@[i] as int].occupied(s)
                        ==> table_valid(
                        fc.req,
                        *selected@[k].0,
                        #[trigger] world.chunks@[selected@[k].1@[i] as int].bundles@[s]@,
                    ),
            decreases fc.tables@.len() - e,
        {
            let bid = fc.tables[e].0;
            let mut taken = false;
            match &fc.tables[e].1 {
                Some(mapping) => {
                    let mut passes = false;
                    let mut found_v = false;
                    let mut w: usize = 0;
                    while w < qc.tables.len() && !found_v
                        invariant
                            qc == &self.query_caches@[q as int],
                            w <= qc.tables@.len(),
                            !found_v ==> find_verdict(qc.tables@, bid, 0) == find_verdict(
                                qc.tables@,
                                bid,
                                w as int,
                            ),
                            !found_v ==> !passes,
                            found_v ==> w < qc.tables@.len()
                                && find_verdict(qc.tables@, bid, 0) == w
                                && passes == qc.tables@[w as int].1,
                        decreases qc.tables@.len() - w, (if found_v { 0int } else { 1int }),
                    {
                        if qc.tables[w].0 == bid {
                            passes = qc.tables[w].1;
                            found_v = true;
                        } else {
                            w = w + 1;
                        }
                    }
                    proof {
                        assert(passes == qc_verdict(*qc, bid));
                    }
                    if passes {
                        match world.find_meta_index(bid) {
                            Some(j) => {
                                proof {
                                    assert(world.meta_ok(j as int));
                                }
                                let mut list: Vec<usize> = Vec::new();
                                let mut c: usize = 0;
                                while c < world.metas[j].chunks.len()
                                    invariant
                                        world.wf(),
                                        j < world.metas@.len(),
                                        c <= world.metas@[j as int].chunks@.len(),
                                        list@.len() == c,
                                        forall|i: int| 0 <= i < c ==> #[trigger] list@[i]
                                            == world.metas@[j as int].chunks@[i],
                                        forall|i: int| 0 <= i < c ==> {
                                            &&& #[trigger] list@[i] < world.chunks@.len()
                                            &&& world.chunks@[list@[i] as int].wf()
                                        },
                                    decreases world.metas@[j as int].chunks@.len() - c,
                                {
                                    proof {
                                        assert(world.meta_ok(j as int));
                                        assert(world.chunk_ok(
                                            world.metas@[j as int].chunks@[c as int] as int,
                                        ));
                                    }
                                    list.push(world.metas[j].chunks[c]);
                                    c = c + 1;
                                }
                                proof {
                                    assert(list@ =~= world.metas@[j as int].chunks@);
                                    // the cached tree reads every live
                                    // record of this schema's segments
                                    let ids = world.metas@[j as int].components_ids@;
                                    let mt = fc.tables@[e as int].1->0;
                                    assert forall|i: int, s: int|
                                        0 <= i < list@.len() && 0 <= s
                                            < world.chunks@[list@[i] as int].bundles@.len()
                                            && world.chunks@[list@[i] as int].occupied(s)
                                        implies table_valid(
                                            fc.req,
                                            mt,
                                            #[trigger] world.chunks@[
                                                list@[i] as int].bundles@[s]@,
                                        ) by {
                                        let cid = list@[i] as int;
                                        assert(world.chunk_ok(cid));
                                        crate::world::lemma_meta_idx_self(*world, j as int);
                                        assert(crate::component::cells_ids(
                                            world.chunks@[cid].bundles@[s]@,
                                        ) == ids);
                                        crate::fetch::lemma_resolved_table_reads(
                                            fc.req,
                                            mt,
                                            world.chunks@[cid].bundles@[s]@,
                                            ids,
                                            full_avail(ids.len() as int),
                                        );
                                    }
                                }
                                selected.push((mapping, list));
                                taken = true;
                                proof {
                                    assert(access_selects(*fc, *qc, *world, e as int));
                                    chosen = chosen.push(e as int);
                                    assert(access_entries(*fc, *qc, *world, e as int)
                                        == seq![e as int] + access_entries(
                                        *fc,
                                        *qc,
                                        *world,
                                        e as int + 1,
                                    ));
                                    assert(chosen.drop_last() + (seq![e as int] + access_entries(
                                        *fc,
                                        *qc,
                                        *world,
                                        e as int + 1,
                                    )) =~= chosen + access_entries(*fc, *qc, *world, e as int + 1));
                                }
                            },
                            None => {},
                        }
                    }
                },
                None => {},
            }
            proof {
                if !taken {
                    assert(!access_selects(*fc, *qc, *world, e as int));
                    assert(access_entries(*fc, *qc, *world, e as int) == access_entries(
                        *fc,
                        *qc,
                        *world,
                        e as int + 1,
                    ));
                }
            }
            e = e + 1;
        }
        proof {
            assert(access_entries(*fc, *qc, *world, fc.tables@.len() as int)
                =~= Seq::<int>::empty());
            assert(chosen + Seq::<int>::empty() =~= chosen);
        }
        crate::iter::Access { req: &fc.req, selected_chunks: selected, chunks: &world.chunks }
    }
}

/// A declared query: one projection paired with one predicate/// A declared query: one projection paired with one predicate, the unit in
/// which units of work state what they read.
#[derive(Debug)]
pub struct Query {
    /// The projection.
    pub fetch: FetchRequest,
    /// The predicate restricting which schemas the projection touches.
    pub filt: FilterExpr,
}

impl Query {
    pub fn new(fetch: FetchRequest, filt: FilterExpr) -> (r: Query)
        ensures
            r.fetch == fetch,
            r.filt == filt,
    {
        Query { fetch, filt }
    }
}

/// A sealed schedule: the registered units of work, grouped, ready to run
/// round after round.
#[derive(Debug)]
pub struct Schedule {
    /// The scheduler that was sealed.
    pub inner: Scheduler,
}

impl Schedule {
    /// Runs one round's setup: proves the declared groups free of aliasing
    /// and the singleton declarations sound, then syncs every cache for the
    /// store as it now stands. False is the fatal configuration error,
    /// raised before any record would be touched.
    pub fn run(&mut self, world: &mut World) -> (r: bool)
        requires
            old(world).wf(),
            old(self).inner.caches_ok(*old(world)),
            old(self).inner.lists_synced(),
        ensures
            final(world).wf(),
            world_same_shape(*old(world), *final(world)),
            final(self).inner.groups == old(self).inner.groups,
            r == ((forall|g: int| 0 <= g < old(self).inner.groups@.len()
                ==> group_safe(*old(world), (#[trigger] old(self).inner.groups@[g])@))
                && alias_sound(round_decls(old(self).inner.groups@))),
            r ==> {
                &&& final(self).inner.caches_ok(*final(world))
                &&& final(self).inner.lists_synced()
                &&& forall|j: int| 0 <= j < final(world).metas@.len()
                        ==> final(self).inner.cached@.contains(
                        (#[trigger] final(world).metas@[j]).bundle_id,
                    )
            },
    {
        let ok = check_round(world, &self.inner.groups);
        if !ok {
            return false;
        }
        proof {
            lemma_caches_ok_shape(self.inner, *old(world), *world);
        }
        self.inner.sync(world);
        true
    }
}

/// Cache truth depends only on the store's schemas, which caches never
/// change.
proof fn lemma_caches_ok_shape(s: Scheduler, a: World, b: World)
    requires
        world_same_shape(a, b),
        s.caches_ok(a),
    ensures
        s.caches_ok(b),
{
    assert forall|id: u64| #[trigger] b.meta_idx(id) == a.meta_idx(id) by {
        lemma_meta_find_same(a, b, id);
    }
    assert forall|f: int| 0 <= f < s.fetch_caches@.len()
        implies (#[trigger] s.fetch_caches@[f]).ok_for(b) by {
        let fc = s.fetch_caches@[f];
        assert(fc.ok_for(a));
        assert forall|e: int| 0 <= e < fc.tables@.len() implies {
            let (bid, t) = #[trigger] fc.tables@[e];
            let ids = b.schema_ids(bid);
            &&& b.has_meta(bid)
            &&& (t is Some <==> seq_contain_ok(
                req_leaf_ids(fc.req),
                ids,
                full_avail(ids.len() as int),
            ))
            &&& (t matches Option::Some(mt) ==> crate::fetch::table_for(fc.req, mt)
                && table_leaves(mt) == seq_contain_leaves(
                    req_leaf_ids(fc.req),
                    ids,
                    full_avail(ids.len() as int),
                ))
        } by {
            let bid = fc.tables@[e].0;
            lemma_meta_find_same(a, b, bid);
            assert(b.schema_ids(bid) == a.schema_ids(bid));
        }
    }
    assert forall|q: int| 0 <= q < s.query_caches@.len()
        implies (#[trigger] s.query_caches@[q]).ok_for(b) by {
        let qc = s.query_caches@[q];
        assert(qc.ok_for(a));
        assert forall|e: int| 0 <= e < qc.tables@.len() implies {
            let (bid, p) = #[trigger] qc.tables@[e];
            &&& b.has_meta(bid)
            &&& p == filter_holds(qc.filt, b.schema_ids(bid))
        } by {
            let bid = qc.tables@[e].0;
            lemma_meta_find_same(a, b, bid);
            assert(b.schema_ids(bid) == a.schema_ids(bid));
        }
    }
}

/// Equal schema lists mean equal schema searches.
proof fn lemma_meta_find_same(a: World, b: World, id: u64)
    requires
        world_same_shape(a, b),
    ensures
        b.meta_idx(id) == a.meta_idx(id),
        b.has_meta(id) == a.has_meta(id),
        a.has_meta(id) ==> b.schema_ids(id) == a.schema_ids(id),
{
    lemma_meta_find_same_from(a, b, id, 0);
    if a.has_meta(id) {
        crate::world::lemma_find_meta_props(a.metas@, id, 0);
    }
}

proof fn lemma_meta_find_same_from(a: World, b: World, id: u64, from: int)
    requires
        world_same_shape(a, b),
        0 <= from <= a.metas@.len(),
    ensures
        crate::world::find_meta(b.metas@, id, from) == crate::world::find_meta(
            a.metas@,
            id,
            from,
        ),
    decreases a.metas@.len() - from,
{
    if from < a.metas@.len() && a.metas@[from].bundle_id != id {
        lemma_meta_find_same_from(a, b, id, from + 1);
    }
}

} // verus!
