//! The global store: owns every storage segment, the schema registry and
//! the singleton slots. Single logical writer: one execution context mutates
//! the store at a time. Insertion routes a record to a segment of its
//! schema with room, allocating a new segment lazily; handles come back
//! generation-tagged, and every access checks them.

use vstd::prelude::*;
use crate::bundle::BundleMeta;
use crate::component::{CompCell, cells_ids};
use crate::fetch::{
    FetchRequest, full_avail, lemma_seq_contain_props, req_leaf_ids, seq_contain_leaves,
    seq_contain_ok,
};
use crate::resources::Resources;
use crate::storage::{ALIVE_TAG, CHUNK_SIZE, Chunk, Entity};

verus! {

/// First metadata record with the given schema id, or the count when none.
pub open spec fn find_meta(metas: Seq<BundleMeta>, bundle_id: u64, from: int) -> int
    decreases metas.len() - from,
{
    if from < 0 || from >= metas.len() {
        metas.len() as int
    } else if metas[from].bundle_id == bundle_id {
        from
    } else {
        find_meta(metas, bundle_id, from + 1)
    }
}

/// What the metadata search returns.
pub proof fn lemma_find_meta_props(metas: Seq<BundleMeta>, bundle_id: u64, from: int)
    requires
        0 <= from <= metas.len(),
    ensures
        from <= find_meta(metas, bundle_id, from) <= metas.len(),
        find_meta(metas, bundle_id, from) < metas.len()
            ==> metas[find_meta(metas, bundle_id, from)].bundle_id == bundle_id,
        forall|i: int| from <= i < find_meta(metas, bundle_id, from)
            ==> metas[i].bundle_id != bundle_id,
    decreases metas.len() - from,
{
    if from < metas.len() && metas[from].bundle_id != bundle_id {
        lemma_find_meta_props(metas, bundle_id, from + 1);
    }
}

/// The global store.
#[derive(Debug)]
pub struct World {
    /// Every storage segment, its ordinal its position here.
    pub chunks: Vec<Chunk>,
    /// One metadata record per registered schema.
    pub metas: Vec<BundleMeta>,
    /// The type-keyed singleton slots.
    pub resources: Resources,
    /// How many records each segment holds.
    pub capacity: usize,
}

impl World {
    /// Position of a schema's metadata, or the metadata count.
    pub open spec fn meta_idx(self, bundle_id: u64) -> int {
        find_meta(self.metas@, bundle_id, 0)
    }

    pub open spec fn has_meta(self, bundle_id: u64) -> bool {
        self.meta_idx(bundle_id) < self.metas@.len()
    }

    /// The component-id list a schema was registered with.
    pub open spec fn schema_ids(self, bundle_id: u64) -> Seq<u64> {
        self.metas@[self.meta_idx(bundle_id)].components_ids@
    }

    /// One segment's place in the store: consistent ordinal, capacity and
    /// registration, and invariant (a) — every live record in it carries
    /// exactly its schema's component ids.
    pub open spec fn chunk_ok(self, c: int) -> bool {
        let ch = self.chunks@[c];
        let j = self.meta_idx(ch.bundle_id);
        &&& ch.wf()
        &&& ch.index == c
        &&& ch.capacity == self.capacity
        &&& j < self.metas@.len()
        &&& self.metas@[j].chunks@.contains(c as usize)
        &&& forall|s: int| 0 <= s < ch.bundles@.len() && ch.occupied(s)
                ==> cells_ids(#[trigger] ch.bundles@[s]@) == self.metas@[j].components_ids@
    }

    /// One schema's place in the store: well-formed metadata whose segment
    /// list names existing segments of this schema, each once.
    pub open spec fn meta_ok(self, j: int) -> bool {
        let m = self.metas@[j];
        &&& m.wf()
        &&& m.chunks@.no_duplicates()
        &&& forall|k: int| 0 <= k < m.chunks@.len() ==> {
                &&& #[trigger] m.chunks@[k] < self.chunks@.len()
                &&& self.chunks@[m.chunks@[k] as int].bundle_id == m.bundle_id
            }
    }

    /// The store's invariant.
    pub open spec fn wf(self) -> bool {
        &&& 1 <= self.capacity
        &&& forall|c: int| 0 <= c < self.chunks@.len() ==> self.chunk_ok(c)
        &&& forall|j: int| 0 <= j < self.metas@.len() ==> self.meta_ok(j)
        &&& forall|j1: int, j2: int| 0 <= j1 < j2 < self.metas@.len()
                ==> (#[trigger] self.metas@[j1]).bundle_id
                    != (#[trigger] self.metas@[j2]).bundle_id
        &&& self.resources.wf()
    }

    /// Tri-state validity of a handle against the whole store.
    pub open spec fn alive_spec(self, e: Entity) -> Option<bool> {
        if e.index as int / self.capacity as int >= self.chunks@.len() {
            Option::None
        } else {
            self.chunks@[e.index as int / self.capacity as int].alive_spec(e)
        }
    }

    /// Whether the slot behind a global index currently holds a record.
    pub open spec fn slot_live(self, idx: int) -> bool {
        let c = idx / self.capacity as int;
        let l = idx % self.capacity as int;
        &&& c < self.chunks@.len()
        &&& l < self.chunks@[c].alive@.len()
        &&& self.chunks@[c].occupied(l)
    }

    /// The erased record a handle's slot holds.
    pub open spec fn record_at(self, e: Entity) -> Seq<CompCell> {
        self.chunks@[e.index as int / self.capacity as int].bundles@[e.index as int
            % self.capacity as int]@
    }

    pub fn new() -> (r: World)
        ensures
            r.wf(),
            r.chunks@.len() == 0,
            r.metas@.len() == 0,
            r.resources.slots@.len() == 0,
            r.capacity == CHUNK_SIZE,
    {
        World {
            chunks: Vec::new(),
            metas: Vec::new(),
            resources: Resources::new(),
            capacity: CHUNK_SIZE,
        }
    }

    /// A store whose segments hold `capacity` records each.
    pub fn with_capacity(capacity: usize) -> (r: World)
        requires
            1 <= capacity,
        ensures
            r.wf(),
            r.chunks@.len() == 0,
            r.metas@.len() == 0,
            r.resources.slots@.len() == 0,
            r.capacity == capacity,
    {
        World {
            chunks: Vec::new(),
            metas: Vec::new(),
            resources: Resources::new(),
            capacity,
        }
    }

    /// A fresh scheduler over this store; its caches fill at the first
    /// sync.
    pub fn scheduler(&self) -> (r: crate::scheduler::Scheduler)
        ensures
            r.cached@.len() == 0,
            r.fetch_caches@.len() == 0,
            r.query_caches@.len() == 0,
            r.groups@.len() == 0,
            r.caches_ok(*self),
    {
        crate::scheduler::Scheduler::from_world(self)
    }

    /// Position of a schema's metadata, if registered.
    #[verifier::loop_isolation(false)]
    pub fn find_meta_index(&self, bundle_id: u64) -> (r: Option<usize>)
        ensures
            match r {
                Option::Some(j) => j == self.meta_idx(bundle_id) && j < self.metas@.len(),
                Option::None => !self.has_meta(bundle_id),
            },
    {
        let mut k: usize = 0;
        while k < self.metas.len()
            invariant
                k <= self.metas@.len(),
                find_meta(self.metas@, bundle_id, 0) == find_meta(self.metas@, bundle_id, k as int),
            decreases self.metas@.len() - k,
        {
            if self.metas[k].bundle_id == bundle_id {
                return Some(k);
            }
            k = k + 1;
        }
        None
    }

    /// Registers a schema: records its component-id list, fixed from now
    /// on, unless the schema id is already known. Returns whether it was.
    pub fn register(&mut self, bundle_id: u64, components_ids: Vec<u64>) -> (r: bool)
        requires
            old(self).wf(),
            components_ids@.no_duplicates(),
        ensures
            final(self).wf(),
            r == old(self).has_meta(bundle_id),
            register_post(*old(self), *final(self), bundle_id, components_ids),
    {
        match self.find_meta_index(bundle_id) {
            Some(_) => true,
            None => {
                proof {
                    lemma_find_meta_props(self.metas@, bundle_id, 0);
                }
                let meta = BundleMeta::new(bundle_id, components_ids);
                self.metas.push(meta);
                proof {
                    let pre = old(self);
                    let n = pre.metas@.len() as int;
                    lemma_find_meta_extend(pre.metas@, self.metas@, bundle_id);
                    assert forall|c: int| 0 <= c < self.chunks@.len()
                        implies self.chunk_ok(c) by {
                        assert(pre.chunk_ok(c));
                        let ch = self.chunks@[c];
                        lemma_find_meta_props(pre.metas@, ch.bundle_id, 0);
                        lemma_find_meta_extend(pre.metas@, self.metas@, ch.bundle_id);
                    }
                    assert forall|j: int| 0 <= j < self.metas@.len()
                        implies self.meta_ok(j) by {
                        if j < n {
                            assert(pre.meta_ok(j));
                        }
                    }
                    assert forall|j1: int, j2: int| 0 <= j1 < j2 < self.metas@.len()
                        implies (#[trigger] self.metas@[j1]).bundle_id
                            != (#[trigger] self.metas@[j2]).bundle_id by {
                        if j2 == n {
                            lemma_find_meta_props(pre.metas@, bundle_id, 0);
                        }
                    }
                }
                false
            },
        }
    }
}

/// The whole effect of registering a schema: a fresh metadata record with
/// the given component-id list when the schema id was unknown, nothing at
/// all when it was known already.
pub open spec fn register_post(
    pre: World,
    post: World,
    bundle_id: u64,
    components_ids: Vec<u64>,
) -> bool {
    &&& post.has_meta(bundle_id)
    &&& post.chunks == pre.chunks
    &&& post.resources == pre.resources
    &&& post.capacity == pre.capacity
    &&& pre.has_meta(bundle_id) ==> post.metas == pre.metas
    &&& !pre.has_meta(bundle_id) ==> {
        &&& post.metas@.len() == pre.metas@.len() + 1
        &&& forall|j: int| 0 <= j < pre.metas@.len()
                ==> #[trigger] post.metas@[j] == pre.metas@[j]
        &&& post.meta_idx(bundle_id) == pre.metas@.len()
        &&& post.metas@[pre.metas@.len() as int].bundle_id == bundle_id
        &&& post.metas@[pre.metas@.len() as int].components_ids == components_ids
        &&& post.metas@[pre.metas@.len() as int].chunks@.len() == 0
        &&& post.metas@[pre.metas@.len() as int].filter_cache@.len() == 0
        &&& post.metas@[pre.metas@.len() as int].fetch_cache@.len() == 0
    }
}

/// How one segment changes when a record is placed in it, and the handle
/// that comes back: a slot is appended while unallocated capacity remains,
/// else the free list's top slot is reused with its generation word raised
/// past every handle issued for it before.
pub open spec fn chunk_insert_post(pre: Chunk, post: Chunk, rec: Vec<CompCell>, e: Entity) -> bool {
    &&& post.index == pre.index
    &&& post.capacity == pre.capacity
    &&& post.bundle_id == pre.bundle_id
    &&& if pre.bundles@.len() < pre.capacity {
        &&& e == Entity {
            generator: ALIVE_TAG,
            index: (pre.index * pre.capacity + pre.bundles@.len()) as usize,
        }
        &&& post.bundles@ == pre.bundles@.push(rec)
        &&& post.alive@ == pre.alive@.push(ALIVE_TAG)
        &&& post.removed@ == pre.removed@
    } else {
        let slot = pre.removed@.last() as int;
        let gen = (pre.alive@[slot] + ALIVE_TAG + 1) as u64;
        &&& pre.can_reuse()
        &&& e == Entity { generator: gen, index: (pre.index * pre.capacity + slot) as usize }
        &&& post.bundles@ == pre.bundles@.update(slot, rec)
        &&& post.alive@ == pre.alive@.update(slot, gen)
        &&& post.removed@ == pre.removed@.drop_last()
    }
}

impl World {
    /// First position at or after `k` in schema `j`'s segment list naming a
    /// segment with room, or the list's length.
    pub open spec fn first_open_from(self, j: int, k: int) -> int
        decreases self.metas@[j].chunks@.len() - k,
    {
        let cs = self.metas@[j].chunks@;
        if k < 0 || k >= cs.len() {
            cs.len() as int
        } else if self.chunks@[cs[k] as int].has_room() {
            k
        } else {
            self.first_open_from(j, k + 1)
        }
    }

    /// Where a record of schema `j` goes: the first owned segment with
    /// room, or a fresh segment at the end of the store.
    pub open spec fn spawn_cid(self, j: int) -> int {
        let k = self.first_open_from(j, 0);
        if k < self.metas@[j].chunks@.len() {
            self.metas@[j].chunks@[k] as int
        } else {
            self.chunks@.len() as int
        }
    }
}

proof fn lemma_first_open_props(w: World, j: int, k: int)
    requires
        0 <= j < w.metas@.len(),
        0 <= k <= w.metas@[j].chunks@.len(),
    ensures
        k <= w.first_open_from(j, k) <= w.metas@[j].chunks@.len(),
        w.first_open_from(j, k) < w.metas@[j].chunks@.len()
            ==> w.chunks@[w.metas@[j].chunks@[w.first_open_from(j, k)] as int].has_room(),
        forall|i: int| k <= i < w.first_open_from(j, k)
            ==> !w.chunks@[w.metas@[j].chunks@[i] as int].has_room(),
    decreases w.metas@[j].chunks@.len() - k,
{
    let cs = w.metas@[j].chunks@;
    if k < cs.len() && !w.chunks@[cs[k] as int].has_room() {
        lemma_first_open_props(w, j, k + 1);
    }
}

proof fn lemma_first_open_at(w: World, j: int, from: int, m: int)
    requires
        0 <= j < w.metas@.len(),
        0 <= from <= m <= w.metas@[j].chunks@.len(),
        forall|i: int| from <= i < m
            ==> !w.chunks@[w.metas@[j].chunks@[i] as int].has_room(),
        m < w.metas@[j].chunks@.len()
            ==> w.chunks@[w.metas@[j].chunks@[m] as int].has_room(),
    ensures
        w.first_open_from(j, from) == m,
    decreases m - from,
{
    if from < m {
        lemma_first_open_at(w, j, from + 1, m);
    }
}

/// A freshly allocated segment holding just the placed record.
pub open spec fn new_chunk_post(
    nc: Chunk,
    cid: int,
    capacity: usize,
    bundle_id: u64,
    rec: Vec<CompCell>,
) -> bool {
    &&& nc.index == cid
    &&& nc.capacity == capacity
    &&& nc.bundle_id == bundle_id
    &&& nc.bundles@ == Seq::<Vec<CompCell>>::empty().push(rec)
    &&& nc.alive@ == Seq::<u64>::empty().push(ALIVE_TAG)
    &&& nc.removed@.len() == 0
}

/// The effect of placing one record of a schema the store already knows:
/// the record goes to the first of the schema's segments with room, or to a
/// fresh segment at the store's end when none has; nothing else moves.
pub open spec fn spawn_post_known(
    pre: World,
    post: World,
    bundle_id: u64,
    rec: Vec<CompCell>,
    e: Entity,
) -> bool {
    let j = pre.meta_idx(bundle_id);
    let cid = pre.spawn_cid(j);
    &&& post.capacity == pre.capacity
    &&& post.resources == pre.resources
    &&& post.metas@.len() == pre.metas@.len()
    &&& forall|j2: int| 0 <= j2 < pre.metas@.len() && j2 != j
            ==> #[trigger] post.metas@[j2] == pre.metas@[j2]
    &&& post.metas@[j].bundle_id == bundle_id
    &&& post.metas@[j].components_ids == pre.metas@[j].components_ids
    &&& post.metas@[j].filter_cache == pre.metas@[j].filter_cache
    &&& post.metas@[j].fetch_cache == pre.metas@[j].fetch_cache
    &&& if cid < pre.chunks@.len() {
        &&& post.chunks@.len() == pre.chunks@.len()
        &&& forall|c: int| 0 <= c < pre.chunks@.len() && c != cid
                ==> #[trigger] post.chunks@[c] == pre.chunks@[c]
        &&& post.metas@[j].chunks == pre.metas@[j].chunks
        &&& chunk_insert_post(pre.chunks@[cid], post.chunks@[cid], rec, e)
    } else {
        &&& post.chunks@.len() == pre.chunks@.len() + 1
        &&& forall|c: int| 0 <= c < pre.chunks@.len()
                ==> #[trigger] post.chunks@[c] == pre.chunks@[c]
        &&& post.metas@[j].chunks@ == pre.metas@[j].chunks@.push(cid as usize)
        &&& new_chunk_post(post.chunks@[cid], cid, pre.capacity, bundle_id, rec)
        &&& e == Entity { generator: ALIVE_TAG, index: (cid * pre.capacity) as usize }
    }
}

/// The whole effect of placing one record: the schema registered if it was
/// not, the record in the first of its segments with room — a fresh one at
/// the store's end if none had — and a handle to the slot it fills.
pub open spec fn spawn_post(
    pre: World,
    post: World,
    bundle_id: u64,
    new_ids: Vec<u64>,
    rec: Vec<CompCell>,
    e: Entity,
) -> bool {
    if pre.has_meta(bundle_id) {
        spawn_post_known(pre, post, bundle_id, rec, e)
    } else {
        let j = pre.metas@.len() as int;
        let cid = pre.chunks@.len() as int;
        &&& post.capacity == pre.capacity
        &&& post.resources == pre.resources
        &&& post.metas@.len() == j + 1
        &&& forall|j2: int| 0 <= j2 < j ==> #[trigger] post.metas@[j2] == pre.metas@[j2]
        &&& post.metas@[j].bundle_id == bundle_id
        &&& post.metas@[j].components_ids@ == new_ids@
        &&& post.metas@[j].filter_cache@.len() == 0
        &&& post.metas@[j].fetch_cache@.len() == 0
        &&& post.metas@[j].chunks@ == seq![cid as usize]
        &&& post.chunks@.len() == cid + 1
        &&& forall|c: int| 0 <= c < cid ==> #[trigger] post.chunks@[c] == pre.chunks@[c]
        &&& new_chunk_post(post.chunks@[cid], cid, pre.capacity, bundle_id, rec)
        &&& e == Entity { generator: ALIVE_TAG, index: (cid * pre.capacity) as usize }
    }
}

/// Changing one metadata record without touching its schema id leaves
/// every search where it was.
proof fn lemma_find_meta_update(pre: Seq<BundleMeta>, post: Seq<BundleMeta>, at: int, id: u64)
    requires
        pre.len() == post.len(),
        0 <= at < pre.len(),
        post[at].bundle_id == pre[at].bundle_id,
        forall|i: int| 0 <= i < pre.len() && i != at ==> post[i] == pre[i],
    ensures
        find_meta(post, id, 0) == find_meta(pre, id, 0),
{
    lemma_find_meta_update_from(pre, post, at, id, 0);
}

proof fn lemma_find_meta_update_from(
    pre: Seq<BundleMeta>,
    post: Seq<BundleMeta>,
    at: int,
    id: u64,
    from: int,
)
    requires
        pre.len() == post.len(),
        0 <= at < pre.len(),
        0 <= from <= pre.len(),
        post[at].bundle_id == pre[at].bundle_id,
        forall|i: int| 0 <= i < pre.len() && i != at ==> post[i] == pre[i],
    ensures
        find_meta(post, id, from) == find_meta(pre, id, from),
    decreases pre.len() - from,
{
    if from < pre.len() && pre[from].bundle_id != id {
        lemma_find_meta_update_from(pre, post, at, id, from + 1);
    }
}

/// Placing a record keeps the store's invariant.
proof fn lemma_spawn_preserves_wf(
    pre: World,
    post: World,
    bundle_id: u64,
    new_ids: Vec<u64>,
    rec: Vec<CompCell>,
    e: Entity,
)
    requires
        pre.wf(),
        spawn_post(pre, post, bundle_id, new_ids, rec, e),
        new_ids@.no_duplicates(),
        cells_ids(rec@) == if pre.has_meta(bundle_id) {
            pre.schema_ids(bundle_id)
        } else {
            new_ids@
        },
        (pre.chunks@.len() + 1) * pre.capacity <= usize::MAX,
    ensures
        post.wf(),
        post.has_meta(bundle_id),
        post.meta_idx(bundle_id) == if pre.has_meta(bundle_id) {
            pre.meta_idx(bundle_id)
        } else {
            pre.metas@.len() as int
        },
        post.schema_ids(bundle_id) == cells_ids(rec@),
        forall|id2: u64| id2 != bundle_id ==> post.has_meta(id2) == pre.has_meta(id2),
{
    lemma_find_meta_props(pre.metas@, bundle_id, 0);
    if pre.has_meta(bundle_id) {
        let j = pre.meta_idx(bundle_id);
        let cid = pre.spawn_cid(j);
        lemma_find_meta_update(pre.metas@, post.metas@, j, bundle_id);
        assert forall|id2: u64| true implies find_meta(post.metas@, id2, 0) == find_meta(
            pre.metas@,
            id2,
            0,
        ) by {
            lemma_find_meta_update(pre.metas@, post.metas@, j, id2);
        }
        lemma_first_open_props(pre, j, 0);
        assert(pre.meta_ok(j));
        if cid < pre.chunks@.len() {
            let k = pre.first_open_from(j, 0);
            assert(k < pre.metas@[j].chunks@.len()) by {
                if k >= pre.metas@[j].chunks@.len() {
                    assert(cid == pre.chunks@.len());
                }
            }
            assert(pre.metas@[j].chunks@[k] == cid as usize);
            assert(pre.metas@[j].chunks@.contains(cid as usize));
            assert(pre.chunks@[cid].bundle_id == bundle_id);
            let chp = pre.chunks@[cid];
            let chn = post.chunks@[cid];
            assert(pre.chunk_ok(cid));
            assert(pre.meta_idx(chp.bundle_id) == j);
            assert(cells_ids(rec@) == pre.metas@[j].components_ids@);
            assert(chn.wf()) by {
                lemma_chunk_insert_wf(chp, chn, rec, e);
            }
            assert forall|c: int| 0 <= c < post.chunks@.len() implies post.chunk_ok(c) by {
                assert(pre.chunk_ok(c));
                let ch2 = post.chunks@[c];
                assert(ch2.bundle_id == pre.chunks@[c].bundle_id);
                let jj = pre.meta_idx(pre.chunks@[c].bundle_id);
                lemma_find_meta_props(pre.metas@, pre.chunks@[c].bundle_id, 0);
                assert(0 <= jj < pre.metas@.len());
                assert(find_meta(post.metas@, ch2.bundle_id, 0)
                    == find_meta(pre.metas@, ch2.bundle_id, 0));
                if jj != j {
                    assert(post.metas@[jj] == pre.metas@[jj]);
                }
                assert(post.metas@[jj].components_ids == pre.metas@[jj].components_ids);
                assert(post.metas@[jj].chunks == pre.metas@[jj].chunks);
                if c == cid {
                    assert forall|s: int| 0 <= s < ch2.bundles@.len() && ch2.occupied(s)
                        implies cells_ids(#[trigger] ch2.bundles@[s]@)
                            == post.metas@[jj].components_ids@ by {
                        if chp.bundles@.len() < chp.capacity {
                            if s < chp.bundles@.len() {
                                assert(ch2.bundles@[s] == chp.bundles@[s]);
                                assert(chp.occupied(s));
                            } else {
                                assert(ch2.bundles@[s] == rec);
                            }
                        } else {
                            let slot = chp.removed@.last() as int;
                            if s == slot {
                                assert(ch2.bundles@[s] == rec);
                            } else {
                                assert(ch2.bundles@[s] == chp.bundles@[s]);
                                assert(chp.occupied(s));
                            }
                        }
                    }
                }
            }
            assert forall|j2: int| 0 <= j2 < post.metas@.len() implies post.meta_ok(j2) by {
                assert(pre.meta_ok(j2));
                if j2 == j {
                    assert(post.metas@[j2].chunks == pre.metas@[j2].chunks);
                    assert(post.metas@[j2].wf()) by {
                        assert(post.metas@[j2].components_ids == pre.metas@[j2].components_ids);
                        assert(post.metas@[j2].filter_cache == pre.metas@[j2].filter_cache);
                        assert(post.metas@[j2].fetch_cache == pre.metas@[j2].fetch_cache);
                        assert(pre.metas@[j2].wf());
                    }
                }
            }
        } else {
            // a fresh segment at the store's end
            assert(cid == pre.chunks@.len()) by {
                let k = pre.first_open_from(j, 0);
                if k < pre.metas@[j].chunks@.len() {
                    assert(pre.metas@[j].chunks@[k] < pre.chunks@.len());
                }
            }
            let nc = post.chunks@[cid];
            assert(nc.wf()) by {
                assert(nc.alive@[0] == ALIVE_TAG);
                assert forall|i: int| 0 <= i < nc.alive@.len()
                    implies (#[trigger] nc.alive@[i] < ALIVE_TAG
                        <==> nc.removed@.contains(i as usize)) by {
                    assert(i == 0);
                }
            }
            assert forall|c: int| 0 <= c < post.chunks@.len() implies post.chunk_ok(c) by {
                let ch2 = post.chunks@[c];
                assert(find_meta(post.metas@, ch2.bundle_id, 0)
                    == find_meta(pre.metas@, ch2.bundle_id, 0));
                if c < cid {
                    assert(pre.chunk_ok(c));
                    let jj = pre.meta_idx(pre.chunks@[c].bundle_id);
                    lemma_find_meta_props(pre.metas@, pre.chunks@[c].bundle_id, 0);
                    assert(0 <= jj < pre.metas@.len());
                    if jj != j {
                        assert(post.metas@[jj] == pre.metas@[jj]);
                    }
                    if jj == j {
                        assert(post.metas@[j].chunks@.contains(c as usize)) by {
                            let cs = pre.metas@[j].chunks@;
                            let k = choose|k: int| 0 <= k < cs.len() && cs[k] == c as usize;
                            assert(post.metas@[j].chunks@[k] == c as usize);
                        }
                    }
                } else {
                    assert(c == cid);
                    assert(post.meta_idx(nc.bundle_id) == j);
                    assert(post.metas@[j].chunks@.contains(cid as usize)) by {
                        assert(post.metas@[j].chunks@.last() == cid as usize);
                    }
                    assert forall|s: int| 0 <= s < nc.bundles@.len() && nc.occupied(s)
                        implies cells_ids(#[trigger] nc.bundles@[s]@)
                            == post.metas@[j].components_ids@ by {
                        assert(s == 0);
                        assert(nc.bundles@[0] == rec);
                    }
                }
            }
            assert forall|j2: int| 0 <= j2 < post.metas@.len() implies post.meta_ok(j2) by {
                assert(pre.meta_ok(j2));
                if j2 == j {
                    let csp = pre.metas@[j].chunks@;
                    let csn = post.metas@[j].chunks@;
                    assert(csn == csp.push(cid as usize));
                    assert(csn.no_duplicates()) by {
                        assert forall|a: int, b: int| 0 <= a < b < csn.len()
                            implies csn[a] != csn[b] by {
                            if b == csn.len() - 1 {
                                assert(csn[a] == csp[a]);
                                assert(pre.chunks@[csp[a] as int].bundle_id
                                    == pre.metas@[j].bundle_id);
                            } else {
                                assert(csn[a] == csp[a] && csn[b] == csp[b]);
                            }
                        }
                    }
                    assert forall|k: int| 0 <= k < csn.len() implies {
                        &&& #[trigger] csn[k] < post.chunks@.len()
                        &&& post.chunks@[csn[k] as int].bundle_id == post.metas@[j2].bundle_id
                    } by {
                        if k < csp.len() {
                            assert(csn[k] == csp[k]);
                        } else {
                            assert(csn[k] == cid as usize);
                        }
                    }
                    assert(post.metas@[j2].wf()) by {
                        assert(pre.metas@[j2].wf());
                    }
                }
            }
        }
    } else {
        // fresh schema: new metadata record and a fresh segment
        let j = pre.metas@.len() as int;
        let cid = pre.chunks@.len() as int;
        lemma_find_meta_extend(pre.metas@, post.metas@, bundle_id);
        assert forall|id2: u64| id2 != bundle_id implies find_meta(post.metas@, id2, 0)
            == if find_meta(pre.metas@, id2, 0) < pre.metas@.len() {
                find_meta(pre.metas@, id2, 0)
            } else {
                post.metas@.len() as int
            } by {
            lemma_find_meta_extend(pre.metas@, post.metas@, id2);
            lemma_find_meta_props(pre.metas@, id2, 0);
        }
        let nc = post.chunks@[cid];
        assert(nc.wf()) by {
            assert(nc.alive@[0] == ALIVE_TAG);
            assert forall|i: int| 0 <= i < nc.alive@.len()
                implies (#[trigger] nc.alive@[i] < ALIVE_TAG
                    <==> nc.removed@.contains(i as usize)) by {
                assert(i == 0);
            }
        }
        assert(post.metas@[j].wf()) by {
            assert(post.metas@[j].components_ids@ == new_ids@);
            assert(post.metas@[j].filter_cache@.len() == 0);
            assert(post.metas@[j].fetch_cache@.len() == 0);
        }
        assert forall|c: int| 0 <= c < post.chunks@.len() implies post.chunk_ok(c) by {
            let ch2 = post.chunks@[c];
            if c < cid {
                assert(pre.chunk_ok(c));
                let jj = pre.meta_idx(pre.chunks@[c].bundle_id);
                lemma_find_meta_props(pre.metas@, ch2.bundle_id, 0);
                assert(pre.metas@[jj].bundle_id == ch2.bundle_id);
                assert(jj < j);
                assert(ch2.bundle_id != bundle_id) by {
                    lemma_find_meta_props(pre.metas@, bundle_id, 0);
                }
                assert(find_meta(post.metas@, ch2.bundle_id, 0) == jj);
                assert(post.metas@[jj] == pre.metas@[jj]);
            } else {
                assert(c == cid);
                assert(post.meta_idx(bundle_id) == j);
                assert(post.metas@[j].chunks@.contains(cid as usize)) by {
                    assert(post.metas@[j].chunks@[0] == cid as usize);
                }
                assert forall|s: int| 0 <= s < nc.bundles@.len() && nc.occupied(s)
                    implies cells_ids(#[trigger] nc.bundles@[s]@)
                        == post.metas@[j].components_ids@ by {
                    assert(s == 0);
                    assert(nc.bundles@[0] == rec);
                }
            }
        }
        assert forall|j2: int| 0 <= j2 < post.metas@.len() implies post.meta_ok(j2) by {
            if j2 < j {
                assert(pre.meta_ok(j2));
                assert(post.metas@[j2] == pre.metas@[j2]);
                assert forall|k: int| 0 <= k < post.metas@[j2].chunks@.len() implies {
                    &&& #[trigger] post.metas@[j2].chunks@[k] < post.chunks@.len()
                    &&& post.chunks@[post.metas@[j2].chunks@[k] as int].bundle_id
                        == post.metas@[j2].bundle_id
                } by {}
            } else {
                assert(post.metas@[j2].chunks@ == seq![cid as usize]);
                assert(post.metas@[j2].chunks@.no_duplicates());
                assert forall|k: int| 0 <= k < post.metas@[j2].chunks@.len() implies {
                    &&& #[trigger] post.metas@[j2].chunks@[k] < post.chunks@.len()
                    &&& post.chunks@[post.metas@[j2].chunks@[k] as int].bundle_id
                        == post.metas@[j2].bundle_id
                } by {
                    assert(post.metas@[j2].chunks@[k] == cid as usize);
                }
            }
        }
        assert forall|j1: int, j2: int| 0 <= j1 < j2 < post.metas@.len()
            implies (#[trigger] post.metas@[j1]).bundle_id
                != (#[trigger] post.metas@[j2]).bundle_id by {
            if j2 == j {
                lemma_find_meta_props(pre.metas@, bundle_id, 0);
            }
        }
    }
}

/// An updated segment stays well-formed after an insertion.
proof fn lemma_chunk_insert_wf(pre: Chunk, post: Chunk, rec: Vec<CompCell>, e: Entity)
    requires
        pre.wf(),
        pre.has_room(),
        chunk_insert_post(pre, post, rec, e),
    ensures
        post.wf(),
{
    if pre.bundles@.len() < pre.capacity {
        assert forall|i: int| 0 <= i < post.alive@.len()
            implies (#[trigger] post.alive@[i] < ALIVE_TAG
                <==> post.removed@.contains(i as usize)) by {
            if i < pre.alive@.len() {
                assert(post.alive@[i] == pre.alive@[i]);
            } else {
                assert(post.alive@[i] == ALIVE_TAG);
                if post.removed@.contains(i as usize) {
                    let k = choose|k: int|
                        0 <= k < pre.removed@.len() && pre.removed@[k] == i as usize;
                    assert(pre.removed@[k] < pre.bundles@.len());
                }
            }
        }
    } else {
        let slot = pre.removed@.last() as int;
        let s = pre.removed@;
        assert(s.contains(slot as usize)) by {
            assert(s[s.len() - 1] == slot as usize);
        }
        assert(!s.drop_last().contains(slot as usize)) by {
            if s.drop_last().contains(slot as usize) {
                let k = choose|k: int|
                    0 <= k < s.drop_last().len() && s.drop_last()[k] == slot as usize;
                assert(s[k] == slot as usize);
                assert(s[s.len() - 1] == slot as usize);
            }
        }
        assert forall|i: int| 0 <= i < post.alive@.len()
            implies (#[trigger] post.alive@[i] < ALIVE_TAG
                <==> post.removed@.contains(i as usize)) by {
            if i == slot {
            } else {
                assert(post.alive@[i] == pre.alive@[i]);
                if s.drop_last().contains(i as usize) {
                    let k = choose|k: int|
                        0 <= k < s.drop_last().len() && s.drop_last()[k] == i as usize;
                    assert(s[k] == i as usize);
                    assert(s.contains(i as usize));
                }
                if s.contains(i as usize) {
                    let k = choose|k: int| 0 <= k < s.len() && s[k] == i as usize;
                    assert(k < s.len() - 1);
                    assert(s.drop_last()[k] == i as usize);
                    assert(s.drop_last().contains(i as usize));
                }
            }
        }
        assert forall|k: int| 0 <= k < post.removed@.len()
            implies #[trigger] post.removed@[k] < post.bundles@.len() by {
            assert(post.removed@[k] == s[k]);
        }
    }
}

/// What a caller sees after placing a record: the new handle is valid, was
/// not valid before, addresses exactly the placed record, and no other
/// slot's standing changed.
pub proof fn lemma_spawn_effects(
    pre: World,
    post: World,
    bundle_id: u64,
    new_ids: Vec<u64>,
    rec: Vec<CompCell>,
    e: Entity,
)
    requires
        pre.wf(),
        spawn_post(pre, post, bundle_id, new_ids, rec, e),
        (pre.chunks@.len() + 1) * pre.capacity <= usize::MAX,
    ensures
        post.alive_spec(e) == Option::Some(true),
        pre.alive_spec(e) != Option::Some(true),
        post.record_at(e) == rec@,
        forall|e2: Entity| e2.index != e.index
            ==> post.alive_spec(e2) == pre.alive_spec(e2),
        forall|e2: Entity| e2.index != e.index && pre.alive_spec(e2) == Option::Some(true)
            ==> post.record_at(e2) == pre.record_at(e2),
        e.generator >= ALIVE_TAG,
        !pre.slot_live(e.index as int),
{
    let cap = pre.capacity as int;
    let known = pre.has_meta(bundle_id);
    let j = if known { pre.meta_idx(bundle_id) } else { pre.metas@.len() as int };
    let cid = if known { pre.spawn_cid(j) } else { pre.chunks@.len() as int };
    if known {
        lemma_find_meta_props(pre.metas@, bundle_id, 0);
        lemma_first_open_props(pre, j, 0);
    }
    let inserted = known && cid < pre.chunks@.len();
    // the local slot the new handle addresses
    let local = if inserted {
        if pre.chunks@[cid].bundles@.len() < cap {
            pre.chunks@[cid].bundles@.len() as int
        } else {
            pre.chunks@[cid].removed@.last() as int
        }
    } else {
        0
    };
    if known {
        assert(pre.meta_ok(j));
        if cid < pre.chunks@.len() {
            let k = pre.first_open_from(j, 0);
            assert(k < pre.metas@[j].chunks@.len()) by {
                if k >= pre.metas@[j].chunks@.len() {
                    assert(cid == pre.chunks@.len());
                }
            }
            assert(pre.metas@[j].chunks@[k] == cid as usize);
        } else {
            assert(cid == pre.chunks@.len()) by {
                let k = pre.first_open_from(j, 0);
                if k < pre.metas@[j].chunks@.len() {
                    assert(pre.metas@[j].chunks@[k] < pre.chunks@.len());
                }
            }
        }
    }
    if inserted {
        assert(pre.chunk_ok(cid));
        let ch = pre.chunks@[cid];
        assert(ch.index == cid && ch.capacity == cap);
        assert(0 <= local < cap);
        assert(cid * cap + local <= usize::MAX) by (nonlinear_arith)
            requires
                (cid + 1) * cap <= usize::MAX,
                0 <= local < cap,
                0 <= cid,
        ;
        assert(e.index == cid * cap + local);
    } else {
        assert(cid == pre.chunks@.len());
        assert(cid * cap + cap <= usize::MAX) by (nonlinear_arith)
            requires
                (cid + 1) * cap <= usize::MAX,
                1 <= cap,
        ;
        assert(e.index == cid * cap + local);
    }
    assert(e.index as int / cap == cid && e.index as int % cap == local) by (nonlinear_arith)
        requires
            e.index == cid * cap + local,
            0 <= local < cap,
            0 <= cid,
            1 <= cap,
    ;
    assert(post.alive_spec(e) == Option::Some(true)) by {
        let chn = post.chunks@[cid];
        assert(chn.alive_spec(e) == Option::Some(true));
    }
    assert(pre.alive_spec(e) != Option::Some(true)) by {
        if cid < pre.chunks@.len() {
            let ch = pre.chunks@[cid];
            if local < ch.alive@.len() {
                assert(ch.alive@[local] < ALIVE_TAG);
                assert(e.generator >= ALIVE_TAG);
            }
        }
    }
    assert(post.record_at(e) == rec@);
    assert forall|e2: Entity| e2.index != e.index
        implies post.alive_spec(e2) == pre.alive_spec(e2) by {
        let c2 = e2.index as int / cap;
        let l2 = e2.index as int % cap;
        assert(0 <= l2 < cap && e2.index == c2 * cap + l2) by (nonlinear_arith)
            requires
                c2 == e2.index as int / cap,
                l2 == e2.index as int % cap,
                1 <= cap,
                0 <= e2.index,
        ;
        if c2 < pre.chunks@.len() {
            if c2 == cid {
                assert(l2 != local);
                let ch = pre.chunks@[cid];
                let chn = post.chunks@[cid];
                assert(chn.alive_spec(e2) == ch.alive_spec(e2));
            } else {
                assert(post.chunks@[c2] == pre.chunks@[c2]);
            }
        } else if c2 < post.chunks@.len() {
            // the freshly made segment: only its slot 0 is allocated
            assert(c2 == cid);
            assert(l2 != 0);
            let chn = post.chunks@[c2];
            assert(chn.alive@.len() == 1);
            assert(chn.alive_spec(e2) is None);
        }
    }
    assert forall|e2: Entity| e2.index != e.index && pre.alive_spec(e2) == Option::Some(true)
        implies post.record_at(e2) == pre.record_at(e2) by {
        let c2 = e2.index as int / cap;
        let l2 = e2.index as int % cap;
        assert(0 <= l2 < cap && e2.index == c2 * cap + l2) by (nonlinear_arith)
            requires
                c2 == e2.index as int / cap,
                l2 == e2.index as int % cap,
                1 <= cap,
                0 <= e2.index,
        ;
        assert(c2 < pre.chunks@.len());
        assert(pre.chunk_ok(c2));
        if c2 == cid {
            assert(l2 != local);
            assert(l2 < pre.chunks@[c2].bundles@.len());
            assert(post.chunks@[c2].bundles@[l2] == pre.chunks@[c2].bundles@[l2]);
        } else {
            assert(post.chunks@[c2] == pre.chunks@[c2]);
        }
    }
    assert(!pre.slot_live(e.index as int)) by {
        if cid < pre.chunks@.len() {
            let ch = pre.chunks@[cid];
            if local < ch.alive@.len() {
                assert(ch.alive@[local] < ALIVE_TAG);
            }
        }
    }
}

impl World {
    /// Places one decomposed record: registers its schema if need be, fills
    /// the first of the schema's segments with room — allocating a fresh
    /// segment when none has — and hands back a generation-tagged handle,
    /// valid from now until the record is removed.
    #[verifier::loop_isolation(false)]
    pub fn spawn(&mut self, bundle_id: u64, components_ids: Vec<u64>, rec: Vec<CompCell>) -> (e:
        Entity)
        requires
            old(self).wf(),
            components_ids@.no_duplicates(),
            cells_ids(rec@) == if old(self).has_meta(bundle_id) {
                old(self).schema_ids(bundle_id)
            } else {
                components_ids@
            },
            (old(self).chunks@.len() + 1) * old(self).capacity <= usize::MAX,
        ensures
            final(self).wf(),
            spawn_post(*old(self), *final(self), bundle_id, components_ids, rec, e),
            final(self).alive_spec(e) == Option::Some(true),
            old(self).alive_spec(e) != Option::Some(true),
            final(self).record_at(e) == rec@,
            forall|e2: Entity| e2.index != e.index
                ==> final(self).alive_spec(e2) == old(self).alive_spec(e2),
            forall|e2: Entity| e2.index != e.index
                && old(self).alive_spec(e2) == Option::Some(true)
                ==> final(self).record_at(e2) == old(self).record_at(e2),
            e.generator >= ALIVE_TAG,
            !old(self).slot_live(e.index as int),
            final(self).has_meta(bundle_id),
            final(self).schema_ids(bundle_id) == cells_ids(rec@),
    {
        let ghost pre = *old(self);
        let known = self.find_meta_index(bundle_id).is_some();
        let existed = self.register(bundle_id, components_ids);
        let j = match self.find_meta_index(bundle_id) {
            Some(j) => j,
            None => {
                proof {
                    assert(false);
                }
                0
            },
        };
        let ghost mid = *self;
        if known {
            let mut k: usize = 0;
            while k < self.metas[j].chunks.len()
                invariant
                    *self == mid,
                    mid == pre,
                    known,
                    existed,
                    j == pre.meta_idx(bundle_id),
                    0 <= j < pre.metas@.len(),
                    k <= pre.metas@[j as int].chunks@.len(),
                    forall|i: int| 0 <= i < k
                        ==> !pre.chunks@[pre.metas@[j as int].chunks@[i] as int].has_room(),
                decreases pre.metas@[j as int].chunks@.len() - k,
            {
                let cid = self.metas[j].chunks[k];
                proof {
                    assert(pre.meta_ok(j as int));
                    assert(pre.chunk_ok(cid as int));
                }
                if self.chunks[cid].room() {
                    proof {
                        lemma_first_open_at(pre, j as int, 0, k as int);
                        assert(pre.spawn_cid(j as int) == cid as int);
                    }
                    let ch = &mut self.chunks[cid];
                    let res = ch.insert(rec);
                    let e = match res {
                        Ok(e) => e,
                        Err(_) => {
                            proof {
                                assert(false);
                            }
                            Entity { generator: 0, index: 0 }
                        },
                    };
                    proof {
                        assert(spawn_post(pre, *self, bundle_id, components_ids, rec, e)) by {
                            lemma_find_meta_props(pre.metas@, bundle_id, 0);
                            let chp = pre.chunks@[cid as int];
                            let chn = self.chunks@[cid as int];
                            if chp.bundles@.len() < chp.capacity {
                                assert(chn.bundles@ =~= chp.bundles@.push(rec));
                                assert(chn.alive@ =~= chp.alive@.push(ALIVE_TAG));
                            } else {
                                let slot = chp.removed@.last() as int;
                                let gen = (chp.alive@[slot] + ALIVE_TAG + 1) as u64;
                                assert(chn.bundles@ =~= chp.bundles@.update(slot, rec));
                                assert(chn.alive@ =~= chp.alive@.update(slot, gen));
                            }
                            assert(chunk_insert_post(pre.chunks@[cid as int], self.chunks@[cid as int], rec, e));
                        }
                        lemma_spawn_preserves_wf(pre, *self, bundle_id, components_ids, rec, e);
                        lemma_spawn_effects(pre, *self, bundle_id, components_ids, rec, e);
                    }
                    return e;
                }
                k = k + 1;
            }
            proof {
                lemma_first_open_at(pre, j as int, 0, pre.metas@[j as int].chunks@.len() as int);
                assert(pre.spawn_cid(j as int) == pre.chunks@.len());
            }
        }
        // no owned segment has room (or the schema is new): allocate one
        let cid = self.chunks.len();
        let mut ch = Chunk::for_schema(cid, bundle_id, self.capacity);
        let res = ch.insert(rec);
        let e = match res {
            Ok(e) => e,
            Err(_) => {
                proof {
                    assert(false);
                }
                Entity { generator: 0, index: 0 }
            },
        };
        let m = &mut self.metas[j];
        m.chunks.push(cid);
        self.chunks.push(ch);
        proof {
            let nc = self.chunks@[cid as int];
            assert(nc.bundles@ =~= Seq::<Vec<CompCell>>::empty().push(rec));
            assert(nc.alive@ =~= Seq::<u64>::empty().push(ALIVE_TAG));
            assert(new_chunk_post(nc, cid as int, pre.capacity, bundle_id, rec));
            if known {
                assert(spawn_post(pre, *self, bundle_id, components_ids, rec, e)) by {
                    lemma_find_meta_props(pre.metas@, bundle_id, 0);
                    assert(self.metas@[j as int].chunks@
                        == pre.metas@[j as int].chunks@.push(cid));
                }
            } else {
                assert(spawn_post(pre, *self, bundle_id, components_ids, rec, e)) by {
                    assert(j == pre.metas@.len());
                    assert(mid.metas@[j as int].chunks@.len() == 0);
                    assert(self.metas@[j as int].chunks@ =~= seq![cid]);
                }
            }
            lemma_spawn_preserves_wf(pre, *self, bundle_id, components_ids, rec, e);
            lemma_spawn_effects(pre, *self, bundle_id, components_ids, rec, e);
        }
        e
    }
}

/// In a well-formed store, a schema's metadata is found at its own
/// position: schema ids are unique.
pub proof fn lemma_meta_idx_self(w: World, j: int)
    requires
        w.wf(),
        0 <= j < w.metas@.len(),
    ensures
        w.meta_idx(w.metas@[j].bundle_id) == j,
{
    let id = w.metas@[j].bundle_id;
    lemma_find_meta_props(w.metas@, id, 0);
    let f = find_meta(w.metas@, id, 0);
    if f < j {
        assert(w.metas@[f].bundle_id == id);
    }
    if f > j {
        assert(w.metas@[j].bundle_id != id);
    }
}

/// Two segments carrying the same data, slot for slot.
pub open spec fn chunk_same(a: Chunk, b: Chunk) -> bool {
    &&& a.index == b.index
    &&& a.capacity == b.capacity
    &&& a.bundle_id == b.bundle_id
    &&& a.alive@ == b.alive@
    &&& a.bundles@ == b.bundles@
    &&& a.removed@ == b.removed@
}

/// The whole effect of removing a handle's record: with a valid handle the
/// slot is cleared, its occupied flag stripped and the slot pushed on its
/// segment's free list; an invalid or unknown handle changes nothing.
pub open spec fn remove_post(pre: World, post: World, e: Entity, r: bool) -> bool {
    let cid = e.index as int / pre.capacity as int;
    let local = e.index as int % pre.capacity as int;
    &&& post.capacity == pre.capacity
    &&& post.metas == pre.metas
    &&& post.resources == pre.resources
    &&& r == (pre.alive_spec(e) == Option::Some(true) && cid < pre.chunks@.len()
        && pre.chunks@[cid].occupied(local))
    &&& !r ==> {
        &&& post.chunks@.len() == pre.chunks@.len()
        &&& forall|c: int| 0 <= c < pre.chunks@.len()
                ==> chunk_same(#[trigger] post.chunks@[c], pre.chunks@[c])
    }
    &&& r ==> {
        let chp = pre.chunks@[cid];
        let chn = post.chunks@[cid];
        &&& post.chunks@.len() == pre.chunks@.len()
        &&& forall|c: int| 0 <= c < pre.chunks@.len() && c != cid
                ==> #[trigger] post.chunks@[c] == pre.chunks@[c]
        &&& chn.index == chp.index
        &&& chn.capacity == chp.capacity
        &&& chn.bundle_id == chp.bundle_id
        &&& chn.alive@ == chp.alive@.update(local, (chp.alive@[local] - ALIVE_TAG) as u64)
        &&& chn.bundles@.len() == chp.bundles@.len()
        &&& chn.bundles@[local]@.len() == 0
        &&& forall|s: int| 0 <= s < chp.bundles@.len() && s != local
                ==> #[trigger] chn.bundles@[s] == chp.bundles@[s]
        &&& chn.removed@ == chp.removed@.push(local as usize)
    }
}

impl World {
    /// Removes the record a valid handle addresses, freeing its slot for
    /// reuse; storage never shifts, so every other handle keeps its
    /// standing. Returns whether the handle was valid.
    pub fn remove(&mut self, entity: Entity) -> (r: bool)
        requires
            old(self).wf(),
        ensures
            final(self).wf(),
            remove_post(*old(self), *final(self), entity, r),
            r ==> final(self).alive_spec(entity) == Option::Some(false),
            forall|e2: Entity| e2.index != entity.index
                ==> final(self).alive_spec(e2) == old(self).alive_spec(e2),
    {
        let ghost pre = *old(self);
        let cid = entity.index / self.capacity;
        if cid >= self.chunks.len() {
            proof {
                assert forall|c: int| 0 <= c < pre.chunks@.len()
                    implies chunk_same(#[trigger] self.chunks@[c], pre.chunks@[c]) by {}
            }
            return false;
        }
        proof {
            assert(self.chunk_ok(cid as int));
        }
        let ch = &mut self.chunks[cid];
        let r = ch.remove(entity);
        proof {
            let cap = pre.capacity as int;
            let local = entity.index as int % cap;
            let chp = pre.chunks@[cid as int];
            let chn = self.chunks@[cid as int];
            assert(pre.chunk_ok(cid as int));
            if r {
                assert(remove_post(pre, *self, entity, r));
                // the freed slot's word lost its occupied flag
                assert(chn.alive@[local] == chp.alive@[local] - ALIVE_TAG);
                assert(chn.alive@[local] < ALIVE_TAG);
                assert(entity.generator >= ALIVE_TAG);
                assert(chn.alive_spec(entity) == Option::Some(false));
                // the store's invariant survives: only one slot went empty
                let jj = pre.meta_idx(chp.bundle_id);
                lemma_find_meta_props(pre.metas@, chp.bundle_id, 0);
                assert forall|c: int| 0 <= c < self.chunks@.len()
                    implies self.chunk_ok(c) by {
                    assert(pre.chunk_ok(c));
                    if c == cid {
                        assert forall|s: int| 0 <= s < chn.bundles@.len() && chn.occupied(s)
                            implies cells_ids(#[trigger] chn.bundles@[s]@)
                                == self.metas@[jj].components_ids@ by {
                            assert(s != local);
                            assert(chn.bundles@[s] == chp.bundles@[s]);
                            assert(chp.occupied(s));
                        }
                    }
                }
                assert forall|j2: int| 0 <= j2 < self.metas@.len()
                    implies self.meta_ok(j2) by {
                    assert(pre.meta_ok(j2));
                }
            } else {
                assert forall|c: int| 0 <= c < pre.chunks@.len()
                    implies chunk_same(#[trigger] self.chunks@[c], pre.chunks@[c]) by {}
                assert(remove_post(pre, *self, entity, r));
                assert forall|c: int| 0 <= c < self.chunks@.len()
                    implies self.chunk_ok(c) by {
                    assert(pre.chunk_ok(c));
                    if c == cid {
                        assert(chn.wf());
                        assert forall|s: int| 0 <= s < chn.bundles@.len() && chn.occupied(s)
                            implies cells_ids(#[trigger] chn.bundles@[s]@)
                                == self.metas@[pre.meta_idx(chn.bundle_id)].components_ids@ by {
                            assert(chn.bundles@[s] == chp.bundles@[s]);
                            assert(chp.occupied(s));
                        }
                    }
                }
                assert forall|j2: int| 0 <= j2 < self.metas@.len()
                    implies self.meta_ok(j2) by {
                    assert(pre.meta_ok(j2));
                    assert forall|k: int| 0 <= k < self.metas@[j2].chunks@.len() implies {
                        &&& #[trigger] self.metas@[j2].chunks@[k] < self.chunks@.len()
                        &&& self.chunks@[self.metas@[j2].chunks@[k] as int].bundle_id
                            == self.metas@[j2].bundle_id
                    } by {}
                }
            }
            assert forall|e2: Entity| e2.index != entity.index
                implies self.alive_spec(e2) == pre.alive_spec(e2) by {
                let c2 = e2.index as int / cap;
                let l2 = e2.index as int % cap;
                assert(0 <= l2 < cap && e2.index == c2 * cap + l2) by (nonlinear_arith)
                    requires
                        c2 == e2.index as int / cap,
                        l2 == e2.index as int % cap,
                        1 <= cap,
                        0 <= e2.index,
                ;
                if r && c2 == cid {
                    assert(0 <= local < cap && entity.index == cid * cap + local)
                        by (nonlinear_arith)
                        requires
                            local == entity.index as int % cap,
                            cid == entity.index as int / cap,
                            1 <= cap,
                            0 <= entity.index,
                    ;
                    assert(l2 != local);
                    assert(chn.alive_spec(e2) == chp.alive_spec(e2));
                } else if c2 < pre.chunks@.len() {
                    if r {
                        assert(self.chunks@[c2] == pre.chunks@[c2]);
                    } else {
                        assert(chunk_same(self.chunks@[c2], pre.chunks@[c2]));
                        assert(self.chunks@[c2].alive_spec(e2) == pre.chunks@[c2].alive_spec(e2));
                    }
                }
            }
        }
        r
    }

    /// Removes the record a valid handle addresses, as `remove` does, and
    /// hands the record itself back instead of dropping it; `None`, with
    /// nothing changed, for a dead or unknown handle.
    pub fn reclaim(&mut self, entity: Entity) -> (r: Option<Vec<CompCell>>)
        requires
            old(self).wf(),
        ensures
            final(self).wf(),
            remove_post(*old(self), *final(self), entity, r is Some),
            r matches Option::Some(rec) ==> rec@ == old(self).record_at(entity),
            r is Some ==> final(self).alive_spec(entity) == Option::Some(false),
            forall|e2: Entity| e2.index != entity.index
                ==> final(self).alive_spec(e2) == old(self).alive_spec(e2),
    {
        let ghost pre = *old(self);
        let cap = self.capacity;
        let valid = match self.alive(entity) {
            Some(v) => v,
            None => false,
        };
        let cid = entity.index / cap;
        let local = entity.index % cap;
        if !valid {
            proof {
                assert forall|c: int| 0 <= c < pre.chunks@.len()
                    implies chunk_same(#[trigger] self.chunks@[c], pre.chunks@[c]) by {}
            }
            return None;
        }
        proof {
            assert(self.chunk_ok(cid as int));
        }
        if self.chunks[cid].alive[local] < ALIVE_TAG {
            proof {
                assert forall|c: int| 0 <= c < pre.chunks@.len()
                    implies chunk_same(#[trigger] self.chunks@[c], pre.chunks@[c]) by {}
            }
            return None;
        }
        let ch = &mut self.chunks[cid];
        let rec = ch.remove_vul(local);
        proof {
            let chp = pre.chunks@[cid as int];
            let chn = self.chunks@[cid as int];
            assert(remove_post(pre, *self, entity, true));
            assert(chn.alive@[local as int] == chp.alive@[local as int] - ALIVE_TAG);
            assert(chn.alive_spec(entity) == Option::Some(false));
            let jj = pre.meta_idx(chp.bundle_id);
            lemma_find_meta_props(pre.metas@, chp.bundle_id, 0);
            assert forall|c: int| 0 <= c < self.chunks@.len() implies self.chunk_ok(c) by {
                assert(pre.chunk_ok(c));
                if c == cid {
                    assert forall|s: int| 0 <= s < chn.bundles@.len() && chn.occupied(s)
                        implies crate::component::cells_ids(#[trigger] chn.bundles@[s]@)
                            == self.metas@[jj].components_ids@ by {
                        assert(s != local);
                        assert(chn.bundles@[s] == chp.bundles@[s]);
                        assert(chp.occupied(s));
                    }
                }
            }
            assert forall|j2: int| 0 <= j2 < self.metas@.len() implies self.meta_ok(j2) by {
                assert(pre.meta_ok(j2));
            }
            assert forall|e2: Entity| e2.index != entity.index
                implies self.alive_spec(e2) == pre.alive_spec(e2) by {
                let c2 = e2.index as int / cap as int;
                let l2 = e2.index as int % cap as int;
                assert(0 <= l2 < cap && e2.index == c2 * cap + l2) by (nonlinear_arith)
                    requires
                        c2 == e2.index as int / cap as int,
                        l2 == e2.index as int % cap as int,
                        1 <= cap,
                        0 <= e2.index,
                ;
                if c2 == cid {
                    assert(0 <= local < cap && entity.index == cid * cap + local)
                        by (nonlinear_arith)
                        requires
                            local == entity.index as int % cap as int,
                            cid == entity.index as int / cap as int,
                            1 <= cap,
                            0 <= entity.index,
                    ;
                    assert(l2 != local);
                    assert(chn.alive_spec(e2) == chp.alive_spec(e2));
                } else if c2 < pre.chunks@.len() {
                    assert(self.chunks@[c2] == pre.chunks@[c2]);
                }
            }
        }
        Some(rec)
    }

    /// Overwrites one component of the record a valid handle addresses, in
    /// place: the cell at position `pos` of the record, which must carry
    /// the same component-type id it replaces — the schema never changes.
    /// Identity persists: every handle keeps its standing. False, with
    /// nothing changed, when the handle is dead, the position out of the
    /// schema, or the cell's id wrong.
    pub fn write_component(&mut self, entity: Entity, pos: usize, cell: CompCell) -> (r: bool)
        requires
            old(self).wf(),
        ensures
            final(self).wf(),
            final(self).capacity == old(self).capacity,
            final(self).metas == old(self).metas,
            final(self).resources == old(self).resources,
            r == ({
                let cid = entity.index as int / old(self).capacity as int;
                let local = entity.index as int % old(self).capacity as int;
                &&& old(self).alive_spec(entity) == Option::Some(true)
                &&& cid < old(self).chunks@.len()
                &&& old(self).chunks@[cid].occupied(local)
                &&& pos < old(self).record_at(entity).len()
                &&& cell.type_id == old(self).record_at(entity)[pos as int].type_id
            }),
            !r ==> *final(self) == *old(self),
            r ==> {
                &&& final(self).record_at(entity) == old(self).record_at(entity).update(
                    pos as int,
                    cell,
                )
                &&& forall|e2: Entity| final(self).alive_spec(e2) == old(self).alive_spec(e2)
                &&& forall|e2: Entity| e2.index != entity.index
                        && old(self).alive_spec(e2) == Option::Some(true)
                        ==> final(self).record_at(e2) == old(self).record_at(e2)
            },
    {
        let ghost pre = *old(self);
        let cap = self.capacity;
        let valid = match self.alive(entity) {
            Some(v) => v,
            None => false,
        };
        if !valid {
            return false;
        }
        let cid = entity.index / cap;
        let local = entity.index % cap;
        proof {
            assert(self.chunk_ok(cid as int));
        }
        if self.chunks[cid].alive[local] < ALIVE_TAG {
            return false;
        }
        if pos >= self.chunks[cid].bundles[local].len()
            || self.chunks[cid].bundles[local][pos].type_id != cell.type_id {
            return false;
        }
        let ch = &mut self.chunks[cid];
        ch.write_cell(local, pos, cell);
        proof {
            let chp = pre.chunks@[cid as int];
            let chn = self.chunks@[cid as int];
            let jj = pre.meta_idx(chp.bundle_id);
            lemma_find_meta_props(pre.metas@, chp.bundle_id, 0);
            assert forall|c: int| 0 <= c < self.chunks@.len() implies self.chunk_ok(c) by {
                assert(pre.chunk_ok(c));
                if c == cid {
                    assert forall|s: int| 0 <= s < chn.bundles@.len() && chn.occupied(s)
                        implies crate::component::cells_ids(#[trigger] chn.bundles@[s]@)
                            == self.metas@[jj].components_ids@ by {
                        if s != local {
                            assert(chn.bundles@[s] == chp.bundles@[s]);
                            assert(chp.occupied(s));
                        } else {
                            assert(chn.bundles@[s]@ == chp.bundles@[s]@.update(pos as int, cell));
                            assert(crate::component::cells_ids(chn.bundles@[s]@)
                                =~= crate::component::cells_ids(chp.bundles@[s]@));
                        }
                    }
                }
            }
            assert forall|j2: int| 0 <= j2 < self.metas@.len() implies self.meta_ok(j2) by {
                assert(pre.meta_ok(j2));
            }
            assert forall|e2: Entity| self.alive_spec(e2) == pre.alive_spec(e2) by {
                let c2 = e2.index as int / cap as int;
                if c2 < pre.chunks@.len() {
                    if c2 == cid {
                        assert(chn.alive@ == chp.alive@);
                        assert(chn.alive_spec(e2) == chp.alive_spec(e2));
                    } else {
                        assert(self.chunks@[c2] == pre.chunks@[c2]);
                    }
                }
            }
            assert forall|e2: Entity| e2.index != entity.index
                && pre.alive_spec(e2) == Option::Some(true)
                implies self.record_at(e2) == pre.record_at(e2) by {
                let c2 = e2.index as int / cap as int;
                let l2 = e2.index as int % cap as int;
                assert(0 <= l2 < cap && e2.index == c2 * cap + l2) by (nonlinear_arith)
                    requires
                        c2 == e2.index as int / cap as int,
                        l2 == e2.index as int % cap as int,
                        1 <= cap,
                        0 <= e2.index,
                ;
                if c2 == cid {
                    assert(0 <= local < cap && entity.index == cid * cap + local)
                        by (nonlinear_arith)
                        requires
                            local == entity.index as int % cap as int,
                            cid == entity.index as int / cap as int,
                            1 <= cap,
                            0 <= entity.index,
                    ;
                    assert(l2 != local);
                }
            }
        }
        true
    }

    /// Tri-state validity of a handle: `None` when it addresses no
    /// allocated slot, else whether its generation still matches — the
    /// literal generation comparison. A fabricated handle whose generator
    /// copies a cleared slot's word therefore reads valid here, while
    /// `remove`, `replace` and `fetch` refuse it through their occupied-bit
    /// check; for every handle the store itself issues (their generator
    /// carries the occupied flag) the two views agree.
    pub fn alive(&self, entity: Entity) -> (r: Option<bool>)
        requires
            self.wf(),
        ensures
            r == self.alive_spec(entity),
    {
        let cid = entity.index / self.capacity;
        if cid >= self.chunks.len() {
            return None;
        }
        proof {
            assert(self.chunk_ok(cid as int));
        }
        self.chunks[cid].alive(entity)
    }
}

impl World {
    /// Overwrites the record a valid handle addresses, in place, with a
    /// record of the same schema. Identity persists: the generation word is
    /// untouched, so the handle (and every other) keeps its standing. The
    /// record is handed back untouched when the handle is dead or the
    /// record's schema differs from the slot's.
    pub fn replace(&mut self, entity: Entity, rec: Vec<CompCell>) -> (r: Result<
        (),
        Vec<CompCell>,
    >)
        requires
            old(self).wf(),
        ensures
            final(self).wf(),
            final(self).capacity == old(self).capacity,
            final(self).metas == old(self).metas,
            final(self).resources == old(self).resources,
            r is Ok <==> {
                let cid = entity.index as int / old(self).capacity as int;
                let local = entity.index as int % old(self).capacity as int;
                &&& old(self).alive_spec(entity) == Option::Some(true)
                &&& cid < old(self).chunks@.len()
                &&& old(self).chunks@[cid].occupied(local)
                &&& cells_ids(rec@) == old(self).schema_ids(old(self).chunks@[cid].bundle_id)
            },
            r matches Result::Err(back) ==> back == rec && *final(self) == *old(self),
            r is Ok ==> {
                &&& final(self).record_at(entity) == rec@
                &&& forall|e2: Entity| final(self).alive_spec(e2) == old(self).alive_spec(e2)
                &&& forall|e2: Entity| e2.index != entity.index
                        && old(self).alive_spec(e2) == Option::Some(true)
                        ==> final(self).record_at(e2) == old(self).record_at(e2)
            },
    {
        let ghost pre = *old(self);
        let cap = self.capacity;
        let valid = match self.alive(entity) {
            Some(v) => v,
            None => false,
        };
        if !valid {
            return Err(rec);
        }
        let cid = entity.index / cap;
        let local = entity.index % cap;
        proof {
            assert(self.chunk_ok(cid as int));
        }
        if self.chunks[cid].alive[local] < ALIVE_TAG {
            // a handle matching a cleared slot's word was never issued live
            return Err(rec);
        }
        let bid = self.chunks[cid].bundle_id;
        let j = match self.find_meta_index(bid) {
            Some(j) => j,
            None => {
                proof {
                    assert(false);
                }
                0
            },
        };
        if !crate::component::cells_carry(&self.metas[j].components_ids, &rec) {
            return Err(rec);
        }
        let ch = &mut self.chunks[cid];
        ch.replace(local, rec);
        proof {
            let chp = pre.chunks@[cid as int];
            let chn = self.chunks@[cid as int];
            assert forall|c: int| 0 <= c < self.chunks@.len() implies self.chunk_ok(c) by {
                assert(pre.chunk_ok(c));
                if c == cid {
                    assert forall|s: int| 0 <= s < chn.bundles@.len() && chn.occupied(s)
                        implies cells_ids(#[trigger] chn.bundles@[s]@)
                            == self.metas@[pre.meta_idx(chn.bundle_id)].components_ids@ by {
                        if s != local {
                            assert(chn.bundles@[s] == chp.bundles@[s]);
                            assert(chp.occupied(s));
                        } else {
                            assert(chn.bundles@[s] == rec);
                        }
                    }
                }
            }
            assert forall|j2: int| 0 <= j2 < self.metas@.len() implies self.meta_ok(j2) by {
                assert(pre.meta_ok(j2));
            }
            assert forall|e2: Entity| self.alive_spec(e2) == pre.alive_spec(e2) by {
                let c2 = e2.index as int / cap as int;
                if c2 < pre.chunks@.len() {
                    if c2 == cid {
                        assert(chn.alive@ == chp.alive@);
                        assert(chn.alive_spec(e2) == chp.alive_spec(e2));
                    } else {
                        assert(self.chunks@[c2] == pre.chunks@[c2]);
                    }
                }
            }
            assert forall|e2: Entity| e2.index != entity.index
                && pre.alive_spec(e2) == Option::Some(true)
                implies self.record_at(e2) == pre.record_at(e2) by {
                let c2 = e2.index as int / cap as int;
                let l2 = e2.index as int % cap as int;
                assert(0 <= l2 < cap && e2.index == c2 * cap + l2) by (nonlinear_arith)
                    requires
                        c2 == e2.index as int / cap as int,
                        l2 == e2.index as int % cap as int,
                        1 <= cap,
                        0 <= e2.index,
                ;
                if c2 == cid {
                    assert(0 <= local < cap && entity.index == cid * cap + local)
                        by (nonlinear_arith)
                        requires
                            local == entity.index as int % cap as int,
                            cid == entity.index as int / cap as int,
                            1 <= cap,
                            0 <= entity.index,
                    ;
                    assert(l2 != local);
                }
            }
        }
        Ok(())
    }

    /// Reads the record a valid handle addresses through a projection: the
    /// mapping tree is resolved against the record's schema (from the
    /// per-schema cache, computed once) and the typed view is built with no
    /// copy. `None` exactly when the handle is dead or the projection does
    /// not resolve against the record's schema; with a live handle and a
    /// resolving projection the view is owed, the checked downcast being
    /// unreachable.
    pub fn fetch<'a>(&'a mut self, entity: Entity, req: &FetchRequest) -> (r: Option<
        Vec<&'a CompCell>,
    >)
        requires
            old(self).wf(),
        ensures
            final(self).wf(),
            final(self).capacity == old(self).capacity,
            final(self).chunks == old(self).chunks,
            final(self).resources == old(self).resources,
            r is Some <==> {
                let cid = entity.index as int / old(self).capacity as int;
                let local = entity.index as int % old(self).capacity as int;
                &&& old(self).alive_spec(entity) == Option::Some(true)
                &&& cid < old(self).chunks@.len()
                &&& old(self).chunks@[cid].occupied(local)
                &&& seq_contain_ok(
                    req_leaf_ids(*req),
                    old(self).schema_ids(old(self).chunks@[cid].bundle_id),
                    full_avail(old(self).schema_ids(old(self).chunks@[cid].bundle_id).len() as int),
                )
            },
            r matches Option::Some(v) ==> {
                let ids = old(self).schema_ids(
                    old(self).chunks@[entity.index as int / old(self).capacity as int].bundle_id,
                );
                let picked = seq_contain_leaves(
                    req_leaf_ids(*req),
                    ids,
                    full_avail(ids.len() as int),
                );
                &&& v@.len() == req_leaf_ids(*req).len()
                &&& forall|k: int| 0 <= k < picked.len()
                        ==> *#[trigger] v@[k] == old(self).record_at(entity)[picked[k]]
            },
    {
        let ghost pre = *old(self);
        let cap = self.capacity;
        let valid = match self.alive(entity) {
            Some(v) => v,
            None => false,
        };
        if !valid {
            return None;
        }
        let cid = entity.index / cap;
        let local = entity.index % cap;
        proof {
            assert(self.chunk_ok(cid as int));
        }
        if self.chunks[cid].alive[local] < ALIVE_TAG {
            return None;
        }
        let bid = self.chunks[cid].bundle_id;
        let j = match self.find_meta_index(bid) {
            Some(j) => j,
            None => {
                proof {
                    assert(false);
                }
                0
            },
        };
        let ghost ids = pre.metas@[j as int].components_ids@;
        proof {
            assert(pre.meta_ok(j as int));
        }
        let m = &mut self.metas[j];
        let ti = match m.fetch_idx(req) {
            Some(t) => t,
            None => {
                proof {
                    lemma_meta_touch_keeps_wf(pre, *self, j as int);
                }
                return None;
            },
        };
        proof {
            lemma_meta_touch_keeps_wf(pre, *self, j as int);
        }
        let meta = &self.metas[j];
        let mt = &meta.fetch_cache[ti].1;
        let cells = &self.chunks[cid].bundles[local];
        proof {
            assert(cells_ids(cells@) == ids);
            crate::fetch::lemma_resolved_table_reads(
                *req,
                *mt,
                cells@,
                ids,
                full_avail(ids.len() as int),
            );
            lemma_seq_contain_props(req_leaf_ids(*req), ids, full_avail(ids.len() as int));
        }
        match crate::fetch::build(req, mt, cells) {
            Some(v) => Some(v),
            None => {
                proof {
                    assert(false);
                }
                None
            },
        }
    }
}

/// The whole effect of placing a list of records of one schema, one after
/// the other, each exactly as the single insertion path places it: free
/// capacity of owned segments is consumed before any allocation, step by
/// step.
pub open spec fn spawn_seq_post(
    pre: World,
    post: World,
    bundle_id: u64,
    ids: Vec<u64>,
    recs: Seq<Vec<CompCell>>,
    es: Seq<Entity>,
) -> bool
    decreases recs,
{
    if recs.len() == 0 {
        post == pre && es.len() == 0
    } else {
        &&& es.len() == recs.len()
        &&& exists|mid: World|
            #[trigger] spawn_post(pre, mid, bundle_id, ids, recs[0], es[0])
                && spawn_seq_post(mid, post, bundle_id, ids, recs.drop_first(), es.drop_first())
    }
}

/// One more placed record extends the placement sequence.
proof fn lemma_spawn_seq_push(
    pre: World,
    mid: World,
    post: World,
    bundle_id: u64,
    ids: Vec<u64>,
    recs: Seq<Vec<CompCell>>,
    es: Seq<Entity>,
    rec: Vec<CompCell>,
    e: Entity,
)
    requires
        spawn_seq_post(pre, mid, bundle_id, ids, recs, es),
        spawn_post(mid, post, bundle_id, ids, rec, e),
    ensures
        spawn_seq_post(pre, post, bundle_id, ids, recs.push(rec), es.push(e)),
    decreases recs,
{
    let recs2 = recs.push(rec);
    let es2 = es.push(e);
    if recs.len() == 0 {
        assert(mid == pre);
        assert(recs2[0] == rec && es2[0] == e);
        assert(recs2.drop_first() =~= Seq::<Vec<CompCell>>::empty());
        assert(es2.drop_first() =~= Seq::<Entity>::empty());
        assert(spawn_seq_post(
            post,
            post,
            bundle_id,
            ids,
            recs2.drop_first(),
            es2.drop_first(),
        ));
        assert(spawn_post(pre, post, bundle_id, ids, recs2[0], es2[0])
            && spawn_seq_post(post, post, bundle_id, ids, recs2.drop_first(), es2.drop_first()));
    } else {
        let mid1 = choose|mid1: World|
            #[trigger] spawn_post(pre, mid1, bundle_id, ids, recs[0], es[0])
                && spawn_seq_post(mid1, mid, bundle_id, ids, recs.drop_first(), es.drop_first());
        lemma_spawn_seq_push(
            mid1,
            mid,
            post,
            bundle_id,
            ids,
            recs.drop_first(),
            es.drop_first(),
            rec,
            e,
        );
        assert(recs2[0] == recs[0] && es2[0] == es[0]);
        assert(recs2.drop_first() =~= recs.drop_first().push(rec));
        assert(es2.drop_first() =~= es.drop_first().push(e));
        assert(spawn_post(pre, mid1, bundle_id, ids, recs2[0], es2[0])
            && spawn_seq_post(mid1, post, bundle_id, ids, recs2.drop_first(), es2.drop_first()));
    }
}

impl World {
    /// Places many records of one schema in order, as the single insertion
    /// path would, filling partly used segments before allocating: the bulk
    /// path packs records into at most one new segment per full capacity.
    /// One handle comes back per record, all distinct and all valid.
    #[verifier::loop_isolation(false)]
    pub fn spawn_many(
        &mut self,
        bundle_id: u64,
        components_ids: Vec<u64>,
        recs: Vec<Vec<CompCell>>,
    ) -> (es: Vec<Entity>)
        requires
            old(self).wf(),
            components_ids@.no_duplicates(),
            forall|i: int| 0 <= i < recs@.len() ==> cells_ids(#[trigger] recs@[i]@)
                == if old(self).has_meta(bundle_id) {
                    old(self).schema_ids(bundle_id)
                } else {
                    components_ids@
                },
            (old(self).chunks@.len() + recs@.len() + 1) * old(self).capacity <= usize::MAX,
        ensures
            final(self).wf(),
            spawn_seq_post(
                *old(self),
                *final(self),
                bundle_id,
                components_ids,
                recs@,
                es@,
            ),
            final(self).capacity == old(self).capacity,
            final(self).resources == old(self).resources,
            es@.len() == recs@.len(),
            forall|i: int| 0 <= i < es@.len()
                ==> final(self).alive_spec(#[trigger] es@[i]) == Option::Some(true),
            forall|i: int| 0 <= i < es@.len()
                ==> final(self).record_at(#[trigger] es@[i]) == recs@[i]@,
            forall|i1: int, i2: int| 0 <= i1 < i2 < es@.len()
                ==> (#[trigger] es@[i1]).index != (#[trigger] es@[i2]).index,
            forall|e2: Entity| e2.generator >= ALIVE_TAG
                && old(self).alive_spec(e2) == Option::Some(true)
                ==> final(self).alive_spec(e2) == Option::Some(true),
    {
        let ghost pre = *old(self);
        let ghost recs0 = recs@;
        let ghost want = if pre.has_meta(bundle_id) {
            pre.schema_ids(bundle_id)
        } else {
            components_ids@
        };
        let mut work = recs;
        let mut es: Vec<Entity> = Vec::new();
        let n = work.len();
        let mut i: usize = 0;
        while i < n
            invariant
                self.wf(),
                n == recs0.len(),
                work@.len() == n,
                i <= n,
                es@.len() == i,
                self.capacity == pre.capacity,
                self.resources == pre.resources,
                self.chunks@.len() <= pre.chunks@.len() + i,
                i > 0 ==> self.has_meta(bundle_id) && self.schema_ids(bundle_id) == want,
                i == 0 ==> *self == pre,
                spawn_seq_post(pre, *self, bundle_id, components_ids, recs0.subrange(0, i as int), es@),
                forall|k: int| i <= k < n ==> #[trigger] work@[k] == recs0[k],
                forall|k: int| 0 <= k < i
                    ==> self.alive_spec(#[trigger] es@[k]) == Option::Some(true),
                forall|k: int| 0 <= k < i ==> (#[trigger] es@[k]).generator >= ALIVE_TAG,
                forall|k: int| 0 <= k < i
                    ==> self.record_at(#[trigger] es@[k]) == recs0[k]@,
                forall|k1: int, k2: int| 0 <= k1 < k2 < i
                    ==> (#[trigger] es@[k1]).index != (#[trigger] es@[k2]).index,
                forall|e2: Entity| e2.generator >= ALIVE_TAG
                    && pre.alive_spec(e2) == Option::Some(true)
                    ==> self.alive_spec(e2) == Option::Some(true),
            decreases n - i,
        {
            let ids = clone_ids(&components_ids);
            let mut taken: Vec<CompCell> = Vec::new();
            work.set_and_swap(i, &mut taken);
            let ghost mid = *self;
            proof {
                assert(taken == recs0[i as int]);
                assert(cells_ids(taken@) == want);
                assert((mid.chunks@.len() + 1) * mid.capacity <= usize::MAX) by (nonlinear_arith)
                    requires
                        mid.chunks@.len() <= pre.chunks@.len() + i,
                        i < n,
                        (pre.chunks@.len() + n + 1) * pre.capacity <= usize::MAX,
                        mid.capacity == pre.capacity,
                        0 <= pre.capacity,
                ;
            }
            let ghost es_before = es@;
            let e = self.spawn(bundle_id, ids, taken);
            es.push(e);
            proof {
                assert(spawn_post(mid, *self, bundle_id, components_ids, taken, e)) by {
                    assert(ids@ == components_ids@);
                }
                lemma_spawn_seq_push(
                    pre,
                    mid,
                    *self,
                    bundle_id,
                    components_ids,
                    recs0.subrange(0, i as int),
                    es_before,
                    taken,
                    e,
                );
                assert(recs0.subrange(0, i as int).push(taken)
                    =~= recs0.subrange(0, i as int + 1));
                assert(es@ =~= es_before.push(e));
                assert forall|k: int| 0 <= k < i + 1
                    implies self.alive_spec(#[trigger] es@[k]) == Option::Some(true)
                        && self.record_at(es@[k]) == recs0[k]@
                        && es@[k].generator >= ALIVE_TAG by {
                    if k < i {
                        assert(mid.alive_spec(es@[k]) == Option::Some(true));
                        assert(es@[k].index != e.index) by {
                            if es@[k].index == e.index {
                                lemma_live_handle_slot(mid, es@[k]);
                            }
                        }
                    } else {
                        assert(es@[k] == e);
                        assert(recs0[k] == taken);
                    }
                }
                assert forall|k1: int, k2: int| 0 <= k1 < k2 < i + 1
                    implies (#[trigger] es@[k1]).index != (#[trigger] es@[k2]).index by {
                    if k2 == i {
                        assert(mid.alive_spec(es@[k1]) == Option::Some(true));
                        if es@[k1].index == e.index {
                            lemma_live_handle_slot(mid, es@[k1]);
                        }
                    }
                }
                assert forall|e2: Entity| e2.generator >= ALIVE_TAG
                    && pre.alive_spec(e2) == Option::Some(true)
                    implies self.alive_spec(e2) == Option::Some(true) by {
                    assert(mid.alive_spec(e2) == Option::Some(true));
                    if e2.index == e.index {
                        lemma_live_handle_slot(mid, e2);
                    }
                }
            }
            i = i + 1;
        }
        proof {
            assert(recs0.subrange(0, n as int) =~= recs0);
        }
        es
    }
}

/// A handle that reports valid addresses a live slot, as long as its
/// generation word carries the occupied flag.
proof fn lemma_live_handle_slot(w: World, e: Entity)
    requires
        w.wf(),
        w.alive_spec(e) == Option::Some(true),
        e.generator >= ALIVE_TAG,
    ensures
        w.slot_live(e.index as int),
{
    let cap = w.capacity as int;
    let c = e.index as int / cap;
    let l = e.index as int % cap;
    assert(c < w.chunks@.len());
    assert(w.chunk_ok(c));
    assert(w.chunks@[c].alive@[l] == e.generator);
}

/// A copy of a component-id list.
#[verifier::loop_isolation(false)]
fn clone_ids(ids: &Vec<u64>) -> (r: Vec<u64>)
    ensures
        r@ == ids@,
{
    let mut out: Vec<u64> = Vec::new();
    let mut k: usize = 0;
    while k < ids.len()
        invariant
            k <= ids@.len(),
            out@ =~= ids@.subrange(0, k as int),
        decreases ids@.len() - k,
    {
        out.push(ids[k]);
        k = k + 1;
    }
    proof {
        assert(out@ =~= ids@);
    }
    out
}

/// Law of the handle lifecycle, over any insert/remove sequence reaching
/// these states: a handle is valid immediately after its insert and invalid
/// after its remove; reinserting into the same slot yields a handle with
/// the same slot index and a strictly greater generation, and the old
/// handle still reports invalid.
pub proof fn lemma_handle_lifecycle(
    w0: World,
    w1: World,
    w2: World,
    w3: World,
    bundle_id: u64,
    ids1: Vec<u64>,
    rec1: Vec<CompCell>,
    e: Entity,
    bundle_id2: u64,
    ids2: Vec<u64>,
    rec2: Vec<CompCell>,
    e2: Entity,
)
    requires
        w0.wf(),
        w1.wf(),
        w2.wf(),
        spawn_post(w0, w1, bundle_id, ids1, rec1, e),
        (w0.chunks@.len() + 1) * w0.capacity <= usize::MAX,
        remove_post(w1, w2, e, true),
        spawn_post(w2, w3, bundle_id2, ids2, rec2, e2),
        (w2.chunks@.len() + 1) * w2.capacity <= usize::MAX,
        e2.index == e.index,
    ensures
        w1.alive_spec(e) == Option::Some(true),
        w2.alive_spec(e) == Option::Some(false),
        e2.generator == e.generator + 1,
        w3.alive_spec(e) == Option::Some(false),
        w3.alive_spec(e2) == Option::Some(true),
{
    lemma_spawn_effects(w0, w1, bundle_id, ids1, rec1, e);
    let cap = w1.capacity as int;
    let cid = e.index as int / cap;
    let local = e.index as int % cap;
    assert(cid < w1.chunks@.len());
    assert(w1.chunk_ok(cid));
    assert(0 <= local < cap) by (nonlinear_arith)
        requires
            local == e.index as int % cap,
            1 <= cap,
            0 <= e.index,
    ;
    assert(w1.chunks@[cid].alive_spec(e) == Option::Some(true));
    assert(local < w1.chunks@[cid].alive@.len());
    assert(w1.chunks@[cid].alive@[local] == e.generator);
    assert(e.generator >= ALIVE_TAG);
    // after the remove, the slot's word lost the occupied flag
    let w2word = w2.chunks@[cid].alive@[local];
    assert(w2word == e.generator - ALIVE_TAG);
    assert(w2.alive_spec(e) == Option::Some(false));
    // the next insert with the same slot index can only be a reuse of it
    lemma_spawn_effects(w2, w3, bundle_id2, ids2, rec2, e2);
    let cid2 = e2.index as int / cap;
    let local2 = e2.index as int % cap;
    assert(w2.capacity == cap);
    assert(cid2 == cid && local2 == local);
    assert(w3.alive_spec(e2) == Option::Some(true));
    assert(w3.chunks@[cid].alive@[local] == e2.generator);
    assert(e2.generator == e.generator + 1) by {
        let known = w2.has_meta(bundle_id2);
        if known {
            lemma_find_meta_props(w2.metas@, bundle_id2, 0);
            let j = w2.meta_idx(bundle_id2);
            lemma_first_open_props(w2, j, 0);
            assert(w2.meta_ok(j));
            let scid = w2.spawn_cid(j);
            if scid < w2.chunks@.len() {
                let k = w2.first_open_from(j, 0);
                assert(k < w2.metas@[j].chunks@.len()) by {
                    if k >= w2.metas@[j].chunks@.len() {
                        assert(scid == w2.chunks@.len());
                    }
                }
                let ch = w2.chunks@[scid];
                assert(w2.chunk_ok(scid));
                if ch.bundles@.len() < ch.capacity {
                    // an append lands on an unallocated slot, not this one
                    assert(scid * cap + ch.bundles@.len() <= usize::MAX) by (nonlinear_arith)
                        requires
                            (scid + 1) * cap <= usize::MAX,
                            0 <= ch.bundles@.len() < cap,
                            0 <= scid,
                    ;
                    assert(e2.index == scid * cap + ch.bundles@.len());
                    assert(e2.index as int / cap == scid
                        && e2.index as int % cap == ch.bundles@.len()) by (nonlinear_arith)
                        requires
                            e2.index == scid * cap + ch.bundles@.len(),
                            0 <= ch.bundles@.len() < cap,
                            0 <= scid,
                            1 <= cap,
                            ch.capacity == cap,
                    ;
                    assert(scid == cid && ch.bundles@.len() == local);
                    assert(local < w2.chunks@[cid].alive@.len());
                    assert(false);
                } else {
                    let slot = ch.removed@.last() as int;
                    assert(0 <= slot < cap);
                    assert(scid * cap + slot <= usize::MAX) by (nonlinear_arith)
                        requires
                            (scid + 1) * cap <= usize::MAX,
                            0 <= slot < cap,
                            0 <= scid,
                    ;
                    assert(e2.index == scid * cap + slot);
                    assert(0 <= slot < cap);
                    assert(e2.index as int / cap == scid && e2.index as int % cap == slot)
                        by (nonlinear_arith)
                        requires
                            e2.index == scid * cap + slot,
                            0 <= slot < cap,
                            0 <= scid,
                            1 <= cap,
                    ;
                    assert(scid == cid && slot == local);
                    assert(e2.generator == ch.alive@[slot] + ALIVE_TAG + 1);
                    assert(ch.alive@[slot] == w2word);
                }
            } else {
                assert(scid == w2.chunks@.len()) by {
                    let k = w2.first_open_from(j, 0);
                    if k < w2.metas@[j].chunks@.len() {
                        assert(w2.metas@[j].chunks@[k] < w2.chunks@.len());
                    }
                }
                assert(e2.index == scid * cap);
                assert(e2.index as int / cap == scid) by (nonlinear_arith)
                    requires
                        e2.index == scid * cap,
                        0 <= scid,
                        1 <= cap,
                ;
                assert(false);
            }
        } else {
            let scid = w2.chunks@.len() as int;
            assert(e2.index == scid * cap);
            assert(e2.index as int / cap == scid) by (nonlinear_arith)
                requires
                    e2.index == scid * cap,
                    0 <= scid,
                    1 <= cap,
            ;
            assert(false);
        }
    }
    assert(w3.alive_spec(e) == Option::Some(false));
}

/// Capacity law: when every segment a schema owns is full, the next
/// insertion allocates a new segment at the store's end and the handle's
/// slot index falls in that segment's range — with capacity N, the
/// (N+1)th record of a schema that filled its only segment lands at the
/// start of a second one.
pub proof fn lemma_capacity_rollover(
    pre: World,
    post: World,
    bundle_id: u64,
    ids: Vec<u64>,
    rec: Vec<CompCell>,
    e: Entity,
)
    requires
        pre.wf(),
        pre.has_meta(bundle_id),
        spawn_post(pre, post, bundle_id, ids, rec, e),
        (pre.chunks@.len() + 1) * pre.capacity <= usize::MAX,
        forall|k: int| 0 <= k < pre.metas@[pre.meta_idx(bundle_id)].chunks@.len()
            ==> !pre.chunks@[pre.metas@[pre.meta_idx(bundle_id)].chunks@[k] as int].has_room(),
    ensures
        post.chunks@.len() == pre.chunks@.len() + 1,
        e.index == pre.chunks@.len() * pre.capacity,
        pre.chunks@.len() * pre.capacity <= e.index,
        e.index < (pre.chunks@.len() + 1) * pre.capacity,
{
    let j = pre.meta_idx(bundle_id);
    lemma_find_meta_props(pre.metas@, bundle_id, 0);
    assert(pre.meta_ok(j));
    lemma_first_open_at(pre, j, 0, pre.metas@[j].chunks@.len() as int);
    assert(pre.spawn_cid(j) == pre.chunks@.len());
    assert(pre.chunks@.len() * pre.capacity + pre.capacity <= usize::MAX) by (nonlinear_arith)
        requires
            (pre.chunks@.len() + 1) * pre.capacity <= usize::MAX,
    ;
    assert(e.index < (pre.chunks@.len() + 1) * pre.capacity) by (nonlinear_arith)
        requires
            e.index == pre.chunks@.len() * pre.capacity,
            1 <= pre.capacity,
    ;
}

/// Touching one metadata record's projection cache alone keeps the store's
/// invariant: the schema id, component list, segment list and predicate
/// cache all stand as they were.
pub proof fn lemma_meta_touch_keeps_wf(pre: World, post: World, j: int)
    requires
        pre.wf(),
        0 <= j < pre.metas@.len(),
        post.capacity == pre.capacity,
        post.chunks == pre.chunks,
        post.resources == pre.resources,
        post.metas@.len() == pre.metas@.len(),
        forall|j2: int| 0 <= j2 < pre.metas@.len() && j2 != j
            ==> #[trigger] post.metas@[j2] == pre.metas@[j2],
        post.metas@[j].wf(),
        post.metas@[j].bundle_id == pre.metas@[j].bundle_id,
        post.metas@[j].components_ids == pre.metas@[j].components_ids,
        post.metas@[j].chunks == pre.metas@[j].chunks,
    ensures
        post.wf(),
        forall|id: u64| #[trigger] post.meta_idx(id) == pre.meta_idx(id),
        forall|e2: Entity| #[trigger] post.alive_spec(e2) == pre.alive_spec(e2),
    {
    assert forall|id: u64| #[trigger] find_meta(post.metas@, id, 0) == find_meta(pre.metas@, id, 0)
        by {
        lemma_find_meta_update(pre.metas@, post.metas@, j, id);
    }
    assert forall|c: int| 0 <= c < post.chunks@.len() implies post.chunk_ok(c) by {
        assert(pre.chunk_ok(c));
        let jj = pre.meta_idx(pre.chunks@[c].bundle_id);
        lemma_find_meta_props(pre.metas@, pre.chunks@[c].bundle_id, 0);
        if jj != j {
            assert(post.metas@[jj] == pre.metas@[jj]);
        }
        assert(post.metas@[jj].components_ids == pre.metas@[jj].components_ids);
        assert(post.metas@[jj].chunks == pre.metas@[jj].chunks);
    }
    assert forall|j2: int| 0 <= j2 < post.metas@.len() implies post.meta_ok(j2) by {
        assert(pre.meta_ok(j2));
        if j2 != j {
            assert(post.metas@[j2] == pre.metas@[j2]);
        }
    }
    assert forall|j1: int, j2: int| 0 <= j1 < j2 < post.metas@.len()
        implies (#[trigger] post.metas@[j1]).bundle_id
            != (#[trigger] post.metas@[j2]).bundle_id by {
        assert(post.metas@[j1].bundle_id == pre.metas@[j1].bundle_id);
        assert(post.metas@[j2].bundle_id == pre.metas@[j2].bundle_id);
    }
}

/// Appending a metadata record leaves every earlier search in place; a
/// search for the new record's schema id lands on it if it found nothing
/// before.
proof fn lemma_find_meta_extend(pre: Seq<BundleMeta>, post: Seq<BundleMeta>, id: u64)
    requires
        post.len() == pre.len() + 1,
        forall|j: int| 0 <= j < pre.len() ==> #[trigger] post[j] == pre[j],
    ensures
        find_meta(pre, id, 0) < pre.len() ==> find_meta(post, id, 0) == find_meta(pre, id, 0),
        find_meta(pre, id, 0) == pre.len() && post[pre.len() as int].bundle_id == id
            ==> find_meta(post, id, 0) == pre.len(),
        find_meta(pre, id, 0) == pre.len() && post[pre.len() as int].bundle_id != id
            ==> find_meta(post, id, 0) == post.len(),
{
    lemma_find_meta_extend_from(pre, post, id, 0);
}

proof fn lemma_find_meta_extend_from(pre: Seq<BundleMeta>, post: Seq<BundleMeta>, id: u64, from: int)
    requires
        post.len() == pre.len() + 1,
        forall|j: int| 0 <= j < pre.len() ==> #[trigger] post[j] == pre[j],
        0 <= from <= pre.len(),
    ensures
        find_meta(pre, id, from) < pre.len()
            ==> find_meta(post, id, from) == find_meta(pre, id, from),
        find_meta(pre, id, from) == pre.len() && post[pre.len() as int].bundle_id == id
            ==> find_meta(post, id, from) == pre.len(),
        find_meta(pre, id, from) == pre.len() && post[pre.len() as int].bundle_id != id
            ==> find_meta(post, id, from) == post.len(),
    decreases pre.len() - from,
{
    if from < pre.len() {
        if pre[from].bundle_id != id {
            lemma_find_meta_extend_from(pre, post, id, from + 1);
        }
    } else {
        assert(find_meta(post, id, (pre.len() + 1) as int) == post.len());
    }
}

} // verus!
