//! Lazy iteration over query results: the segments selected for a
//! projection are walked slot by slot, skipping unoccupied slots, and every
//! live record is read through the resolved mapping tree into the flat
//! typed view — no copies, every live record visited exactly once per walk.
//! Every walk's step is fixed by its contract: which slot is read, how the
//! cursor advances, and that nothing is yielded exactly when nothing is
//! left.

use vstd::prelude::*;
use crate::component::CompCell;
use crate::fetch::{FetchRequest, MappingTable, build, table_valid, table_leaves};
use crate::filter::{FilterExpr, filter_holds};
use crate::storage::{ALIVE_TAG, Chunk, ChunkIter, Entity};
use crate::world::World;

verus! {

/// A record view paired with the handle of the record it came from.
pub struct EntityBundle<'a> {
    /// The flat typed view of the record.
    pub inner: Vec<&'a CompCell>,
    /// The handle addressing the record.
    pub entity: Entity,
}

impl<'a> EntityBundle<'a> {
    pub fn new(inner: Vec<&'a CompCell>, entity: Entity) -> (r: EntityBundle<'a>)
        ensures
            r.inner == inner,
            r.entity == entity,
    {
        EntityBundle { inner, entity }
    }

    pub fn entity(&self) -> (r: Entity)
        ensures
            r == self.entity,
    {
        self.entity
    }
}

/// A record view paired with its handle, as the query walk hands it out.
pub struct EBundle<'a> {
    /// The flat typed view of the record.
    pub inner: Vec<&'a CompCell>,
    /// The handle addressing the record.
    pub entity: Entity,
}

impl<'a> EBundle<'a> {
    pub fn new(inner: Vec<&'a CompCell>, entity: Entity) -> (r: EBundle<'a>)
        ensures
            r.inner == inner,
            r.entity == entity,
    {
        EBundle { inner, entity }
    }

    pub fn entity(&self) -> (r: Entity)
        ensures
            r == self.entity,
    {
        self.entity
    }
}

/// One step of a segment-list walk over `chunks`: the ordinal and slot of
/// the next live record — segments taken from the list's end, slots
/// ascending from the cursor — together with the list and cursor after the
/// step; nothing exactly when every listed segment is exhausted.
pub open spec fn bi_step(chunks: Seq<Chunk>, selected: Seq<usize>, index: int) -> Option<
    (int, int, Seq<usize>, int),
>
    decreases selected.len(),
{
    if selected.len() == 0 {
        Option::None
    } else {
        let cid = selected.last() as int;
        let j = ChunkIter::first_live(chunks[cid], index);
        if j < chunks[cid].bundles@.len() {
            Option::Some((cid, j, selected, j + 1))
        } else {
            bi_step(chunks, selected.drop_last(), 0)
        }
    }
}

/// What a step yields: an occupied slot of a listed segment, the list after
/// it a prefix of the list before.
pub proof fn lemma_bi_step_props(chunks: Seq<Chunk>, selected: Seq<usize>, index: int)
    requires
        forall|k: int| 0 <= k < selected.len() ==> #[trigger] selected[k] < chunks.len(),
    ensures
        match bi_step(chunks, selected, index) {
            Option::Some(t) => {
                &&& 0 < t.2.len() <= selected.len()
                &&& t.2 == selected.subrange(0, t.2.len() as int)
                &&& t.0 == t.2.last() as int
                &&& 0 <= t.0 < chunks.len()
                &&& 0 <= t.1 < chunks[t.0].bundles@.len()
                &&& chunks[t.0].occupied(t.1)
                &&& t.3 == t.1 + 1
            },
            Option::None => true,
        },
    decreases selected.len(),
{
    if selected.len() > 0 {
        let cid = selected.last() as int;
        let j = ChunkIter::first_live(chunks[cid], index);
        ChunkIter::lemma_first_live_props(chunks[cid], index);
        if j < chunks[cid].bundles@.len() {
            assert(selected.subrange(0, selected.len() as int) =~= selected);
        } else {
            lemma_bi_step_props(chunks, selected.drop_last(), 0);
            match bi_step(chunks, selected.drop_last(), 0) {
                Option::Some(t) => {
                    assert(selected.drop_last().subrange(0, t.2.len() as int)
                        =~= selected.subrange(0, t.2.len() as int));
                },
                Option::None => {},
            }
        }
    }
}

/// Walk over the live records of one projection's selected segments,
/// reading each through the resolved mapping tree.
pub struct BundleIter<'a> {
    /// The projection being read.
    pub req: &'a FetchRequest,
    /// The mapping tree resolved for the selected segments' schema.
    pub mapping: &'a MappingTable,
    /// All segments of the store.
    pub chunks: &'a Vec<Chunk>,
    /// Ordinals of the segments still to walk; the walk takes the last.
    pub selected: Vec<usize>,
    /// Next slot of the current segment.
    pub index: usize,
}

impl<'a> BundleIter<'a> {
    /// The segments to walk exist and are well-formed.
    pub open spec fn wf_iter(self) -> bool {
        forall|k: int| 0 <= k < self.selected@.len() ==> {
            &&& #[trigger] self.selected@[k] < self.chunks@.len()
            &&& self.chunks@[self.selected@[k] as int].wf()
        }
    }

    /// The mapping tree can read every live record of every listed segment
    /// — what resolving it against the segments' schema guarantees.
    pub open spec fn reads_valid(self) -> bool {
        forall|k: int, s: int|
            0 <= k < self.selected@.len() && 0 <= s
                < self.chunks@[#[trigger] self.selected@[k] as int].bundles@.len()
                && self.chunks@[self.selected@[k] as int].occupied(s)
                ==> table_valid(
                *self.req,
                *self.mapping,
                #[trigger] self.chunks@[self.selected@[k] as int].bundles@[s]@,
            )
    }

    pub fn new(
        req: &'a FetchRequest,
        mapping: &'a MappingTable,
        chunks: &'a Vec<Chunk>,
        selected: Vec<usize>,
        index: usize,
    ) -> (r: BundleIter<'a>)
        ensures
            r.req == req,
            r.mapping == mapping,
            r.chunks == chunks,
            r.selected == selected,
            r.index == index,
    {
        BundleIter { req, mapping, chunks, selected, index }
    }

    /// The next live record's view, and the walk state after it, exactly as
    /// one `bi_step` over the walk's segments; `None` exactly when every
    /// listed segment is exhausted, the list then spent.
    pub fn next(&mut self) -> (r: Option<Vec<&'a CompCell>>)
        requires
            old(self).wf_iter(),
            old(self).reads_valid(),
        ensures
            final(self).req == old(self).req,
            final(self).mapping == old(self).mapping,
            final(self).chunks == old(self).chunks,
            final(self).wf_iter(),
            final(self).reads_valid(),
            ({
                let step = bi_step(old(self).chunks@, old(self).selected@, old(self).index as int);
                match step {
                    Option::None => r is None && final(self).selected@.len() == 0,
                    Option::Some(t) => {
                        &&& final(self).selected@ == t.2
                        &&& final(self).index == t.3
                        &&& r matches Option::Some(v) && v@.len() == table_leaves(
                            *old(self).mapping,
                        ).len() && (forall|k: int|
                            0 <= k < v@.len() ==> *#[trigger] v@[k]
                                == old(self).chunks@[t.0].bundles@[t.1]@[table_leaves(
                                *old(self).mapping,
                            )[k]])
                    },
                }
            }),
    {
        loop
            invariant
                self.req == old(self).req,
                self.mapping == old(self).mapping,
                self.chunks == old(self).chunks,
                self.wf_iter(),
                self.reads_valid(),
                bi_step(self.chunks@, self.selected@, self.index as int) == bi_step(
                    old(self).chunks@,
                    old(self).selected@,
                    old(self).index as int,
                ),
            decreases self.selected@.len(), self.cur_len() - self.index,
        {
            let cid = match self.selected.last() {
                Some(c) => *c,
                None => {
                    return None;
                },
            };
            let chunk = &self.chunks[cid];
            if self.index >= chunk.bundles.len() {
                proof {
                    assert(ChunkIter::first_live(*chunk, self.index as int)
                        == chunk.bundles@.len());
                    assert(bi_step(self.chunks@, self.selected@, self.index as int)
                        == bi_step(self.chunks@, self.selected@.drop_last(), 0));
                }
                self.selected.pop();
                self.index = 0;
                continue ;
            }
            let i = self.index;
            self.index = i + 1;
            if chunk.alive[i] >= ALIVE_TAG {
                proof {
                    assert(ChunkIter::first_live(*chunk, i as int) == i);
                    let k = self.selected@.len() - 1;
                    assert(self.selected@[k] == cid);
                    assert(table_valid(*self.req, *self.mapping, chunk.bundles@[i as int]@));
                }
                match build(self.req, self.mapping, &chunk.bundles[i]) {
                    Some(v) => {
                        return Some(v);
                    },
                    None => {
                        proof {
                            assert(false);
                        }
                        return None;
                    },
                }
            }
            proof {
                assert(ChunkIter::first_live(*chunk, i as int)
                    == ChunkIter::first_live(*chunk, i + 1));
            }
        }
    }

    /// How many slots the segment currently walked has; zero when none is
    /// left.
    pub open spec fn cur_len(self) -> int {
        if self.selected@.len() > 0 {
            self.chunks@[self.selected@.last() as int].bundles@.len() as int
        } else {
            0
        }
    }

    /// The handle of the record the walk just handed out: the slot before
    /// the cursor of the current segment, under its current generation
    /// word.
    pub fn last_entity(&self) -> (r: Option<Entity>)
        requires
            self.wf_iter(),
        ensures
            self.selected@.len() > 0 && 1 <= self.index
                <= self.chunks@[self.selected@.last() as int].alive@.len() ==> r == Option::Some(
                self.chunks@[self.selected@.last() as int].slot_entity(self.index - 1),
            ),
    {
        match self.selected.last() {
            Some(c) => {
                let cid = *c;
                let chunk = &self.chunks[cid];
                if self.index >= 1 && self.index <= chunk.alive.len() {
                    Some(chunk.gen_entity(self.index - 1))
                } else {
                    None
                }
            },
            None => None,
        }
    }
}

/// Whether a segment-list walk has nothing left to yield.
pub open spec fn bi_exhausted(it: BundleIter) -> bool {
    bi_step(it.chunks@, it.selected@, it.index as int) is None
}

/// The position of the last walk in the list that still has something to
/// yield, or a negative number when none has.
pub open spec fn bis_active(iters: Seq<BundleIter>) -> int
    decreases iters.len(),
{
    if iters.len() == 0 {
        -1
    } else if !bi_exhausted(iters.last()) {
        iters.len() - 1
    } else {
        bis_active(iters.drop_last())
    }
}

/// Dropping exhausted walks from the end moves the active position nowhere.
proof fn lemma_bis_active_trim(iters: Seq<BundleIter>, m: int)
    requires
        0 <= m <= iters.len(),
        forall|k: int| m <= k < iters.len() ==> bi_exhausted(#[trigger] iters[k]),
    ensures
        bis_active(iters) == bis_active(iters.subrange(0, m)),
    decreases iters.len() - m,
{
    if m < iters.len() {
        assert(bi_exhausted(iters.last()));
        lemma_bis_active_trim(iters.drop_last(), m);
        assert(iters.drop_last().subrange(0, m) =~= iters.subrange(0, m));
    } else {
        assert(iters.subrange(0, m) =~= iters);
    }
}

/// Walk over one projection's live records, segment list by segment list;
/// the last listed walk runs first.
pub struct BundleIters<'a> {
    /// One walk per selected schema.
    pub iters: Vec<BundleIter<'a>>,
}

impl<'a> BundleIters<'a> {
    pub open spec fn wf_iter(self) -> bool {
        forall|k: int| 0 <= k < self.iters@.len() ==> (#[trigger] self.iters@[k]).wf_iter()
            && self.iters@[k].reads_valid()
    }

    pub fn new(iters: Vec<BundleIter<'a>>) -> (r: BundleIters<'a>)
        ensures
            r.iters == iters,
    {
        BundleIters { iters }
    }

    /// The next live record's view, from the last listed walk that still
    /// has one: that walk takes one `bi_step`, walks exhausted on the way
    /// are dropped, and `None` comes exactly when every walk is exhausted,
    /// the list then spent.
    pub fn next(&mut self) -> (r: Option<Vec<&'a CompCell>>)
        requires
            old(self).wf_iter(),
        ensures
            final(self).wf_iter(),
            ({
                let a = bis_active(old(self).iters@);
                if a < 0 {
                    r is None && final(self).iters@.len() == 0
                } else {
                    let it = old(self).iters@[a];
                    let step = bi_step(it.chunks@, it.selected@, it.index as int);
                    match step {
                        Option::Some(t) => {
                            &&& final(self).iters@.len() == a + 1
                            &&& forall|k: int| 0 <= k < a
                                    ==> #[trigger] final(self).iters@[k] == old(self).iters@[k]
                            &&& final(self).iters@[a].req == it.req
                            &&& final(self).iters@[a].mapping == it.mapping
                            &&& final(self).iters@[a].chunks == it.chunks
                            &&& final(self).iters@[a].selected@ == t.2
                            &&& final(self).iters@[a].index == t.3
                            &&& r matches Option::Some(v) && v@.len() == table_leaves(
                                *it.mapping,
                            ).len() && (forall|k: int|
                                0 <= k < v@.len() ==> *#[trigger] v@[k]
                                    == it.chunks@[t.0].bundles@[t.1]@[table_leaves(
                                    *it.mapping,
                                )[k]])
                        },
                        Option::None => false,
                    }
                }
            }),
    {
        let ghost pre = *old(self);
        loop
            invariant
                pre == *old(self),
                self.wf_iter(),
                self.iters@.len() <= pre.iters@.len(),
                self.iters@ == pre.iters@.subrange(0, self.iters@.len() as int),
                forall|k: int| self.iters@.len() <= k < pre.iters@.len()
                    ==> bi_exhausted(#[trigger] pre.iters@[k]),
            decreases self.iters@.len(),
        {
            let n = self.iters.len();
            if n == 0 {
                proof {
                    lemma_bis_active_trim(pre.iters@, 0);
                    assert(pre.iters@.subrange(0, 0) =~= Seq::<BundleIter>::empty());
                }
                return None;
            }
            let ghost it0 = self.iters@[n - 1];
            let it = &mut self.iters[n - 1];
            let item = it.next();
            match item {
                Some(v) => {
                    proof {
                        let m = n as int;
                        lemma_bis_active_trim(pre.iters@, m);
                        assert(pre.iters@.subrange(0, m).last() == it0);
                        assert(!bi_exhausted(it0));
                        assert(bis_active(pre.iters@.subrange(0, m)) == m - 1);
                        assert(bis_active(pre.iters@) == m - 1);
                        assert(pre.iters@[m - 1] == it0);
                    }
                    return Some(v);
                },
                None => {
                    proof {
                        assert(bi_exhausted(it0));
                    }
                    self.iters.pop();
                    proof {
                        assert(self.iters@
                            =~= pre.iters@.subrange(0, self.iters@.len() as int));
                    }
                },
            }
        }
    }
}

/// Walk handing out views paired with their handles.
pub struct EntityBundleIter<'a> {
    /// The underlying walk.
    pub inner: BundleIter<'a>,
}

impl<'a> EntityBundleIter<'a> {
    pub fn new(inner: BundleIter<'a>) -> (r: EntityBundleIter<'a>)
        ensures
            r.inner == inner,
    {
        EntityBundleIter { inner }
    }

    /// The next live record's view with its handle: the same `bi_step` as
    /// the underlying walk, the handle carrying the yielded slot's global
    /// index and current generation word.
    pub fn next(&mut self) -> (r: Option<EntityBundle<'a>>)
        requires
            old(self).inner.wf_iter(),
            old(self).inner.reads_valid(),
        ensures
            final(self).inner.req == old(self).inner.req,
            final(self).inner.mapping == old(self).inner.mapping,
            final(self).inner.chunks == old(self).inner.chunks,
            final(self).inner.wf_iter(),
            final(self).inner.reads_valid(),
            ({
                let it = old(self).inner;
                let step = bi_step(it.chunks@, it.selected@, it.index as int);
                match step {
                    Option::None => r is None && final(self).inner.selected@.len() == 0,
                    Option::Some(t) => {
                        &&& final(self).inner.selected@ == t.2
                        &&& final(self).inner.index == t.3
                        &&& r matches Option::Some(eb) && eb.entity == it.chunks@[t.0].slot_entity(
                            t.1,
                        ) && eb.inner@.len() == table_leaves(*it.mapping).len() && (forall|k: int|
                            0 <= k < eb.inner@.len() ==> *#[trigger] eb.inner@[k]
                                == it.chunks@[t.0].bundles@[t.1]@[table_leaves(*it.mapping)[k]])
                    },
                }
            }),
    {
        proof {
            lemma_bi_step_props(
                old(self).inner.chunks@,
                old(self).inner.selected@,
                old(self).inner.index as int,
            );
        }
        let item = self.inner.next();
        match item {
            Some(v) => {
                match self.inner.last_entity() {
                    Some(e) => Some(EntityBundle { inner: v, entity: e }),
                    None => {
                        proof {
                            assert(false);
                        }
                        None
                    },
                }
            },
            None => None,
        }
    }
}

/// The position of the last handle-pairing walk with something to yield.
pub open spec fn ebis_active(iters: Seq<EntityBundleIter>) -> int
    decreases iters.len(),
{
    if iters.len() == 0 {
        -1
    } else if !bi_exhausted(iters.last().inner) {
        iters.len() - 1
    } else {
        ebis_active(iters.drop_last())
    }
}

proof fn lemma_ebis_active_trim(iters: Seq<EntityBundleIter>, m: int)
    requires
        0 <= m <= iters.len(),
        forall|k: int| m <= k < iters.len() ==> bi_exhausted((#[trigger] iters[k]).inner),
    ensures
        ebis_active(iters) == ebis_active(iters.subrange(0, m)),
    decreases iters.len() - m,
{
    if m < iters.len() {
        lemma_ebis_active_trim(iters.drop_last(), m);
        assert(iters.drop_last().subrange(0, m) =~= iters.subrange(0, m));
    } else {
        assert(iters.subrange(0, m) =~= iters);
    }
}

/// Walks handing out views with handles, schema by schema; the last listed
/// walk runs first.
pub struct EntityBundleIters<'a> {
    /// One walk per selected schema.
    pub iters: Vec<EntityBundleIter<'a>>,
}

impl<'a> EntityBundleIters<'a> {
    pub open spec fn wf_iter(self) -> bool {
        forall|k: int| 0 <= k < self.iters@.len()
            ==> (#[trigger] self.iters@[k]).inner.wf_iter() && self.iters@[k].inner.reads_valid()
    }

    pub fn new(iters: Vec<EntityBundleIter<'a>>) -> (r: EntityBundleIters<'a>)
        ensures
            r.iters == iters,
    {
        EntityBundleIters { iters }
    }

    /// The next live record's view with its handle, from the last listed
    /// walk that still has one; `None` exactly when every walk is
    /// exhausted, the list then spent.
    pub fn next(&mut self) -> (r: Option<EntityBundle<'a>>)
        requires
            old(self).wf_iter(),
        ensures
            final(self).wf_iter(),
            ({
                let a = ebis_active(old(self).iters@);
                if a < 0 {
                    r is None && final(self).iters@.len() == 0
                } else {
                    let it = old(self).iters@[a].inner;
                    let step = bi_step(it.chunks@, it.selected@, it.index as int);
                    match step {
                        Option::Some(t) => {
                            &&& final(self).iters@.len() == a + 1
                            &&& forall|k: int| 0 <= k < a
                                    ==> #[trigger] final(self).iters@[k] == old(self).iters@[k]
                            &&& final(self).iters@[a].inner.selected@ == t.2
                            &&& final(self).iters@[a].inner.index == t.3
                            &&& r matches Option::Some(eb) && eb.entity
                                == it.chunks@[t.0].slot_entity(t.1)
                                && eb.inner@.len() == table_leaves(
                                *it.mapping,
                            ).len() && (forall|k: int|
                                0 <= k < eb.inner@.len() ==> *#[trigger] eb.inner@[k]
                                    == it.chunks@[t.0].bundles@[t.1]@[table_leaves(*it.mapping)[k]])
                        },
                        Option::None => false,
                    }
                }
            }),
    {
        let ghost pre = *old(self);
        loop
            invariant
                pre == *old(self),
                self.wf_iter(),
                self.iters@.len() <= pre.iters@.len(),
                self.iters@ == pre.iters@.subrange(0, self.iters@.len() as int),
                forall|k: int| self.iters@.len() <= k < pre.iters@.len()
                    ==> bi_exhausted((#[trigger] pre.iters@[k]).inner),
            decreases self.iters@.len(),
        {
            let n = self.iters.len();
            if n == 0 {
                proof {
                    lemma_ebis_active_trim(pre.iters@, 0);
                    assert(pre.iters@.subrange(0, 0) =~= Seq::<EntityBundleIter>::empty());
                }
                return None;
            }
            let ghost it0 = self.iters@[n - 1];
            let it = &mut self.iters[n - 1];
            let item = it.next();
            match item {
                Some(v) => {
                    proof {
                        let m = n as int;
                        lemma_ebis_active_trim(pre.iters@, m);
                        assert(pre.iters@.subrange(0, m).last() == it0);
                        assert(!bi_exhausted(it0.inner));
                        assert(ebis_active(pre.iters@) == m - 1);
                        assert(pre.iters@[m - 1] == it0);
                    }
                    return Some(v);
                },
                None => {
                    proof {
                        assert(bi_exhausted(it0.inner));
                    }
                    self.iters.pop();
                    proof {
                        assert(self.iters@
                            =~= pre.iters@.subrange(0, self.iters@.len() as int));
                    }
                },
            }
        }
    }
}

/// One projection's resolved standing in the store: per selected schema,
/// the mapping tree and the owned segments, ready for iteration.
pub struct Access<'a> {
    /// The projection being read.
    pub req: &'a FetchRequest,
    /// Per selected schema: its mapping tree and its segments' ordinals.
    pub selected_chunks: Vec<(&'a MappingTable, Vec<usize>)>,
    /// All segments of the store.
    pub chunks: &'a Vec<Chunk>,
}

impl<'a> Access<'a> {
    /// Every selected segment exists and is well-formed.
    pub open spec fn wf_access(self) -> bool {
        forall|k: int, i: int|
            0 <= k < self.selected_chunks@.len() && 0 <= i
                < (#[trigger] self.selected_chunks@[k]).1@.len() ==> {
                &&& #[trigger] self.selected_chunks@[k].1@[i] < self.chunks@.len()
                &&& self.chunks@[self.selected_chunks@[k].1@[i] as int].wf()
            }
    }

    /// Every selected mapping tree can read every live record of its
    /// segments — what resolving against the schema guarantees.
    pub open spec fn reads_valid(self) -> bool {
        forall|k: int, i: int, s: int|
            0 <= k < self.selected_chunks@.len() && 0 <= i
                < (#[trigger] self.selected_chunks@[k]).1@.len() && 0 <= s
                < self.chunks@[self.selected_chunks@[k].1@[i] as int].bundles@.len()
                && self.chunks@[self.selected_chunks@[k].1@[i] as int].occupied(s)
                ==> table_valid(
                *self.req,
                *self.selected_chunks@[k].0,
                #[trigger] self.chunks@[self.selected_chunks@[k].1@[i] as int].bundles@[s]@,
            )
    }

    pub fn new(
        req: &'a FetchRequest,
        selected_chunks: Vec<(&'a MappingTable, Vec<usize>)>,
        chunks: &'a Vec<Chunk>,
    ) -> (r: Access<'a>)
        ensures
            r.req == req,
            r.selected_chunks == selected_chunks,
            r.chunks == chunks,
    {
        Access { req, selected_chunks, chunks }
    }

    /// One walk per selected schema, over exactly that schema's listed
    /// segments, each starting at the first slot.
    #[verifier::loop_isolation(false)]
    pub fn bundle_iter(&self) -> (r: BundleIters<'a>)
        requires
            self.wf_access(),
            self.reads_valid(),
        ensures
            r.wf_iter(),
            r.iters@.len() == self.selected_chunks@.len(),
            forall|k: int| 0 <= k < r.iters@.len() ==> {
                let it = #[trigger] r.iters@[k];
                &&& it.req == self.req
                &&& it.mapping == self.selected_chunks@[k].0
                &&& it.chunks == self.chunks
                &&& it.selected@ == self.selected_chunks@[k].1@
                &&& it.index == 0
            },
    {
        let mut iters: Vec<BundleIter<'a>> = Vec::new();
        let mut k: usize = 0;
        while k < self.selected_chunks.len()
            invariant
                k <= self.selected_chunks@.len(),
                iters@.len() == k,
                forall|k0: int| 0 <= k0 < k ==> {
                    let it = #[trigger] iters@[k0];
                    &&& it.req == self.req
                    &&& it.mapping == self.selected_chunks@[k0].0
                    &&& it.chunks == self.chunks
                    &&& it.selected@ == self.selected_chunks@[k0].1@
                    &&& it.index == 0
                },
            decreases self.selected_chunks@.len() - k,
        {
            let selected = clone_ordinals(&self.selected_chunks[k].1);
            let it = BundleIter {
                req: self.req,
                mapping: self.selected_chunks[k].0,
                chunks: self.chunks,
                selected,
                index: 0,
            };
            iters.push(it);
            k = k + 1;
        }
        BundleIters { iters }
    }

    /// One walk per selected schema, pairing each view with its handle.
    #[verifier::loop_isolation(false)]
    pub fn entity_bundle_iter(&self) -> (r: EntityBundleIters<'a>)
        requires
            self.wf_access(),
            self.reads_valid(),
        ensures
            r.wf_iter(),
            r.iters@.len() == self.selected_chunks@.len(),
            forall|k: int| 0 <= k < r.iters@.len() ==> {
                let it = (#[trigger] r.iters@[k]).inner;
                &&& it.req == self.req
                &&& it.mapping == self.selected_chunks@[k].0
                &&& it.chunks == self.chunks
                &&& it.selected@ == self.selected_chunks@[k].1@
                &&& it.index == 0
            },
    {
        let mut iters: Vec<EntityBundleIter<'a>> = Vec::new();
        let mut k: usize = 0;
        while k < self.selected_chunks.len()
            invariant
                k <= self.selected_chunks@.len(),
                iters@.len() == k,
                forall|k0: int| 0 <= k0 < k ==> {
                    let it = (#[trigger] iters@[k0]).inner;
                    &&& it.req == self.req
                    &&& it.mapping == self.selected_chunks@[k0].0
                    &&& it.chunks == self.chunks
                    &&& it.selected@ == self.selected_chunks@[k0].1@
                    &&& it.index == 0
                },
            decreases self.selected_chunks@.len() - k,
        {
            let selected = clone_ordinals(&self.selected_chunks[k].1);
            let it = BundleIter {
                req: self.req,
                mapping: self.selected_chunks[k].0,
                chunks: self.chunks,
                selected,
                index: 0,
            };
            iters.push(EntityBundleIter { inner: it });
            k = k + 1;
        }
        EntityBundleIters { iters }
    }
}

/// A copy of a segment-ordinal list.
#[verifier::loop_isolation(false)]
fn clone_ordinals(v: &Vec<usize>) -> (r: Vec<usize>)
    ensures
        r@ == v@,
{
    let mut out: Vec<usize> = Vec::new();
    let mut k: usize = 0;
    while k < v.len()
        invariant
            k <= v@.len(),
            out@ =~= v@.subrange(0, k as int),
        decreases v@.len() - k,
    {
        out.push(v[k]);
        k = k + 1;
    }
    proof {
        assert(out@ =~= v@);
    }
    out
}

/// The segment values behind a list of segment references.
pub open spec fn chunk_values(s: Seq<&Chunk>) -> Seq<Chunk> {
    s.map_values(|c: &Chunk| *c)
}

/// Whether schema `j` is selected for a query: its predicate passes and its
/// projection cache holds a tree for the request.
pub open spec fn schema_selected(w: World, j: int, req: FetchRequest, filt: FilterExpr) -> bool {
    &&& filter_holds(filt, w.metas@[j].components_ids@)
    &&& crate::bundle::find_cached(w.metas@[j].fetch_cache@, req, 0)
        < w.metas@[j].fetch_cache@.len()
}

/// The schemas a query selects, at or after `from`, in schema order.
pub open spec fn selected_schemas(w: World, req: FetchRequest, filt: FilterExpr, from: int) -> Seq<
    int,
>
    decreases w.metas@.len() - from,
{
    if from < 0 || from >= w.metas@.len() {
        Seq::empty()
    } else if schema_selected(w, from, req, filt) {
        seq![from] + selected_schemas(w, req, filt, from + 1)
    } else {
        selected_schemas(w, req, filt, from + 1)
    }
}

/// Whether a selection holds exactly one (cached mapping tree, owned
/// segments) pair per schema the query selects, in schema order — spec
/// query selection: predicate true and projection resolved.
pub open spec fn selection_of(
    sel: Seq<(MappingTable, Seq<Chunk>)>,
    w: World,
    req: FetchRequest,
    filt: FilterExpr,
) -> bool {
    let picks = selected_schemas(w, req, filt, 0);
    &&& sel.len() == picks.len()
    &&& forall|k: int| 0 <= k < picks.len() ==> {
            let j = #[trigger] picks[k];
            let m = w.metas@[j];
            &&& sel[k].0 == m.fetch_cache@[crate::bundle::find_cached(m.fetch_cache@, req, 0)].1
            &&& sel[k].1.len() == m.chunks@.len()
            &&& forall|i: int| 0 <= i < m.chunks@.len()
                    ==> #[trigger] sel[k].1[i] == w.chunks@[m.chunks@[i] as int]
        }
}

/// The cached mapping trees and owned segments of the schemas one query
/// selects, ready to pop one segment at a time.
pub struct Select<'a> {
    /// Per selected schema: the mapping tree and the segments left to walk.
    pub inner: Vec<(&'a MappingTable, Vec<&'a Chunk>)>,
}

impl<'a> Select<'a> {
    /// The abstract selection: mapping-tree and segment values.
    pub open spec fn sel_view(self) -> Seq<(MappingTable, Seq<Chunk>)> {
        self.inner@.map_values(
            |e: (&MappingTable, Vec<&Chunk>)| (*e.0, chunk_values(e.1@)),
        )
    }

    /// Every listed segment is well-formed.
    pub open spec fn wf_select(self) -> bool {
        forall|k: int, i: int|
            0 <= k < self.inner@.len() && 0 <= i < (#[trigger] self.inner@[k]).1@.len()
                ==> (#[trigger] self.inner@[k].1@[i]).wf()
    }

    /// Every listed mapping tree can read every live record of its entry's
    /// segments.
    pub open spec fn reads_valid(self, req: FetchRequest) -> bool {
        forall|k: int, i: int, s: int|
            0 <= k < self.inner@.len() && 0 <= i < (#[trigger] self.inner@[k]).1@.len() && 0 <= s
                < self.inner@[k].1@[i].bundles@.len() && self.inner@[k].1@[i].occupied(s)
                ==> table_valid(req, *self.inner@[k].0, #[trigger] self.inner@[k].1@[i].bundles@[s]@)
    }

    /// Selects from the store every schema whose predicate passes and whose
    /// schema cache already holds a mapping tree for this projection — run
    /// the projection once per schema (or a cache sync) first — pairing the
    /// tree with the schema's segments, in schema order.
    #[verifier::loop_isolation(false)]
    pub fn new(
        world: &'a crate::world::World,
        req: &FetchRequest,
        filt: &crate::filter::FilterExpr,
    ) -> (r: Select<'a>)
        requires
            world.wf(),
        ensures
            r.wf_select(),
            r.reads_valid(*req),
            selection_of(r.sel_view(), *world, *req, *filt),
    {
        let ghost picks = selected_schemas(*world, *req, *filt, 0);
        let mut inner: Vec<(&'a MappingTable, Vec<&'a Chunk>)> = Vec::new();
        let ghost mut chosen = Seq::<int>::empty();
        let mut j: usize = 0;
        while j < world.metas.len()
            invariant
                world.wf(),
                j <= world.metas@.len(),
                selected_schemas(*world, *req, *filt, 0) == chosen + selected_schemas(
                    *world,
                    *req,
                    *filt,
                    j as int,
                ),
                inner@.len() == chosen.len(),
                forall|k: int| 0 <= k < chosen.len() ==> {
                    let jj = #[trigger] chosen[k];
                    &&& 0 <= jj < world.metas@.len()
                    &&& schema_selected(*world, jj, *req, *filt)
                    &&& *inner@[k].0 == world.metas@[jj].fetch_cache@[crate::bundle::find_cached(
                        world.metas@[jj].fetch_cache@,
                        *req,
                        0,
                    )].1
                    &&& inner@[k].1@.len() == world.metas@[jj].chunks@.len()
                    &&& forall|i: int| 0 <= i < world.metas@[jj].chunks@.len()
                            ==> *#[trigger] inner@[k].1@[i]
                                == world.chunks@[world.metas@[jj].chunks@[i] as int]
                },
                forall|k: int, i: int|
                    0 <= k < inner@.len() && 0 <= i < (#[trigger] inner@[k]).1@.len()
                        ==> (#[trigger] inner@[k].1@[i]).wf(),
                forall|k: int, i: int, s: int|
                    0 <= k < inner@.len() && 0 <= i < (#[trigger] inner@[k]).1@.len() && 0 <= s
                        < inner@[k].1@[i].bundles@.len() && inner@[k].1@[i].occupied(s)
                        ==> table_valid(
                        *req,
                        *inner@[k].0,
                        #[trigger] inner@[k].1@[i].bundles@[s]@,
                    ),
            decreases world.metas@.len() - j,
        {
            proof {
                assert(world.meta_ok(j as int));
            }
            let meta = &world.metas[j];
            let passes = crate::filter::pass(filt, &meta.components_ids);
            let mut found: Option<usize> = None;
            if passes {
                let mut e: usize = 0;
                while e < meta.fetch_cache.len()
                    invariant
                        meta == &world.metas@[j as int],
                        e <= meta.fetch_cache@.len(),
                        found is None,
                        crate::bundle::find_cached(meta.fetch_cache@, *req, 0)
                            == crate::bundle::find_cached(meta.fetch_cache@, *req, e as int),
                    decreases meta.fetch_cache@.len() - e,
                {
                    if crate::fetch::fetch_req_eq(&meta.fetch_cache[e].0, req) {
                        found = Some(e);
                        break ;
                    }
                    e = e + 1;
                }
            }
            match found {
                Some(t) => {
                    proof {
                        assert(schema_selected(*world, j as int, *req, *filt));
                        assert(t == crate::bundle::find_cached(meta.fetch_cache@, *req, 0));
                    }
                    let mapping = &meta.fetch_cache[t].1;
                    let mut segs: Vec<&'a Chunk> = Vec::new();
                    let mut c: usize = 0;
                    while c < meta.chunks.len()
                        invariant
                            world.wf(),
                            j < world.metas@.len(),
                            meta == &world.metas@[j as int],
                            c <= meta.chunks@.len(),
                            segs@.len() == c,
                            forall|i: int| 0 <= i < c
                                ==> *#[trigger] segs@[i] == world.chunks@[meta.chunks@[i] as int],
                            forall|i: int| 0 <= i < c ==> (#[trigger] segs@[i]).wf(),
                        decreases meta.chunks@.len() - c,
                    {
                        proof {
                            assert(world.meta_ok(j as int));
                            assert(world.chunk_ok(meta.chunks@[c as int] as int));
                        }
                        let cid = meta.chunks[c];
                        segs.push(&world.chunks[cid]);
                        c = c + 1;
                    }
                    proof {
                        // the cached tree reads every live record of this
                        // schema's segments
                        let ids = meta.components_ids@;
                        let key = meta.fetch_cache@[t as int].0;
                        let mt = meta.fetch_cache@[t as int].1;
                        crate::fetch::lemma_req_eq_same(key, *req, mt);
                        assert forall|i: int, s: int|
                            0 <= i < segs@.len() && 0 <= s < segs@[i].bundles@.len()
                                && segs@[i].occupied(s)
                            implies table_valid(*req, mt, #[trigger] segs@[i].bundles@[s]@) by {
                            let cid = meta.chunks@[i] as int;
                            assert(world.chunk_ok(cid));
                            crate::world::lemma_meta_idx_self(*world, j as int);
                            assert(crate::component::cells_ids(segs@[i].bundles@[s]@) == ids);
                            crate::fetch::lemma_resolved_table_reads(
                                *req,
                                mt,
                                segs@[i].bundles@[s]@,
                                ids,
                                crate::fetch::full_avail(ids.len() as int),
                            );
                        }
                    }
                    inner.push((mapping, segs));
                    proof {
                        chosen = chosen.push(j as int);
                        assert(selected_schemas(*world, *req, *filt, j as int)
                            == seq![j as int] + selected_schemas(*world, *req, *filt, j + 1));
                        assert(chosen.drop_last() + (seq![j as int] + selected_schemas(
                            *world,
                            *req,
                            *filt,
                            j + 1,
                        )) =~= chosen + selected_schemas(*world, *req, *filt, j + 1));
                    }
                },
                None => {
                    proof {
                        if passes {
                            crate::bundle::lemma_find_cached_props(meta.fetch_cache@, *req, 0);
                            assert(!schema_selected(*world, j as int, *req, *filt));
                        }
                        assert(!schema_selected(*world, j as int, *req, *filt));
                        assert(selected_schemas(*world, *req, *filt, j as int)
                            == selected_schemas(*world, *req, *filt, j + 1));
                    }
                },
            }
            j = j + 1;
        }
        proof {
            assert(selected_schemas(*world, *req, *filt, world.metas@.len() as int)
                =~= Seq::<int>::empty());
            assert(chosen + Seq::<int>::empty() =~= chosen);
            let r_view = inner@.map_values(
                |e: (&MappingTable, Vec<&Chunk>)| (*e.0, chunk_values(e.1@)),
            );
            assert forall|k: int| 0 <= k < picks.len() implies {
                let jj = #[trigger] picks[k];
                let m = world.metas@[jj];
                &&& r_view[k].0 == m.fetch_cache@[crate::bundle::find_cached(
                    m.fetch_cache@,
                    *req,
                    0,
                )].1
                &&& r_view[k].1.len() == m.chunks@.len()
                &&& forall|i: int| 0 <= i < m.chunks@.len()
                        ==> #[trigger] r_view[k].1[i] == world.chunks@[m.chunks@[i] as int]
            } by {
                assert(picks[k] == chosen[k]);
                assert(r_view[k].0 == *inner@[k].0);
                assert(r_view[k].1 =~= chunk_values(inner@[k].1@));
            }
        }
        Select { inner }
    }

    /// The position of the last entry with a segment left.
    pub open spec fn sel_active(sel: Seq<(MappingTable, Seq<Chunk>)>) -> int
        decreases sel.len(),
    {
        if sel.len() == 0 {
            -1
        } else if sel.last().1.len() > 0 {
            sel.len() - 1
        } else {
            Self::sel_active(sel.drop_last())
        }
    }

    /// The next (mapping tree, segment) pair: the last segment of the last
    /// entry that has one, entries without segments dropped on the way;
    /// `None` exactly when no entry has a segment left, the list then
    /// spent.
    pub fn pop(&mut self) -> (r: Option<(&'a MappingTable, &'a Chunk)>)
        requires
            old(self).wf_select(),
        ensures
            final(self).wf_select(),
            ({
                let a = Self::sel_active(old(self).sel_view());
                if a < 0 {
                    r is None && final(self).inner@.len() == 0
                } else {
                    let entry = old(self).sel_view()[a];
                    &&& final(self).inner@.len() == a + 1
                    &&& forall|k: int| 0 <= k < a
                            ==> #[trigger] final(self).inner@[k] == old(self).inner@[k]
                    &&& final(self).inner@[a].0 == old(self).inner@[a].0
                    &&& chunk_values(final(self).inner@[a].1@) == entry.1.drop_last()
                    &&& r matches Option::Some(p) && *p.0 == entry.0 && *p.1 == entry.1.last()
                }
            }),
    {
        let ghost pre = *old(self);
        loop
            invariant
                pre == *old(self),
                self.wf_select(),
                self.inner@.len() <= pre.inner@.len(),
                forall|k: int| 0 <= k < self.inner@.len()
                    ==> #[trigger] self.inner@[k] == pre.inner@[k],
                forall|k: int| self.inner@.len() <= k < pre.inner@.len()
                    ==> (#[trigger] pre.sel_view()[k]).1.len() == 0,
            decreases self.inner@.len(),
        {
            let n = self.inner.len();
            if n == 0 {
                proof {
                    lemma_sel_active_trim(pre.sel_view(), 0);
                    assert(pre.sel_view().subrange(0, 0)
                        =~= Seq::<(MappingTable, Seq<Chunk>)>::empty());
                }
                return None;
            }
            let last = &mut self.inner[n - 1];
            let seg = last.1.pop();
            match seg {
                Some(chunk) => {
                    proof {
                        let m = n as int;
                        assert(pre.sel_view()[m - 1].1.len() > 0);
                        lemma_sel_active_trim(pre.sel_view(), m);
                        assert(pre.sel_view().subrange(0, m).last() == pre.sel_view()[m - 1]);
                        assert(Self::sel_active(pre.sel_view()) == m - 1);
                        assert(chunk_values(self.inner@[m - 1].1@)
                            =~= pre.sel_view()[m - 1].1.drop_last());
                        assert(*chunk == pre.sel_view()[m - 1].1.last());
                    }
                    let mapping = self.inner[n - 1].0;
                    return Some((mapping, chunk));
                },
                None => {
                    proof {
                        assert(pre.sel_view()[n - 1].1.len() == 0);
                    }
                    self.inner.pop();
                },
            }
        }
    }
}

/// The rank of a query walk's current schema, for termination.
pub open spec fn cur_rank(cur: Option<(MappingTable, Seq<Chunk>, Chunk, int)>) -> int {
    match cur {
        Option::None => 0,
        Option::Some(t) => t.1.len() as int + 1,
    }
}

/// One step of the whole query walk: the next live record — entries taken
/// from the selection's end, each entry's segments from their end, slots
/// ascending — as (mapping tree, segment, slot), with the selection and
/// the current-schema state after the step; nothing exactly when
/// everything is exhausted.
pub open spec fn it_step(
    sel: Seq<(MappingTable, Seq<Chunk>)>,
    cur: Option<(MappingTable, Seq<Chunk>, Chunk, int)>,
) -> Option<
    (
        MappingTable,
        Chunk,
        int,
        Seq<(MappingTable, Seq<Chunk>)>,
        Option<(MappingTable, Seq<Chunk>, Chunk, int)>,
    ),
>
    decreases sel.len(), cur_rank(cur),
{
    match cur {
        Option::None => {
            if sel.len() == 0 {
                Option::None
            } else {
                let entry = sel.last();
                if entry.1.len() > 0 {
                    it_step(
                        sel.drop_last(),
                        Option::Some((entry.0, entry.1.drop_last(), entry.1.last(), 0)),
                    )
                } else {
                    it_step(sel.drop_last(), Option::None)
                }
            }
        },
        Option::Some(t) => {
            let j = ChunkIter::first_live(t.2, t.3);
            if j < t.2.bundles@.len() {
                Option::Some((t.0, t.2, j, sel, Option::Some((t.0, t.1, t.2, j + 1))))
            } else if t.1.len() > 0 {
                it_step(sel, Option::Some((t.0, t.1.drop_last(), t.1.last(), 0)))
            } else {
                it_step(sel, Option::None)
            }
        },
    }
}

/// Walk over every live record the query selects, schema by schema,
/// segment by segment.
pub struct Iter<'a> {
    /// The projection being read.
    pub req: &'a FetchRequest,
    /// Schemas and segments still to walk.
    pub select: Select<'a>,
    /// The schema being walked: its mapping tree, its segments left, and
    /// the walk of the current segment.
    pub cur: Option<(&'a MappingTable, Vec<&'a Chunk>, ChunkIter<'a>)>,
}

impl<'a> Iter<'a> {
    /// The abstract state of the current schema walk.
    pub open spec fn cur_view(self) -> Option<(MappingTable, Seq<Chunk>, Chunk, int)> {
        match self.cur {
            Option::None => Option::None,
            Option::Some(t) => Option::Some(
                (*t.0, chunk_values(t.1@), *t.2.chunk, t.2.index as int),
            ),
        }
    }

    pub open spec fn wf_iter(self) -> bool {
        &&& self.select.wf_select()
        &&& self.cur matches Option::Some(t) ==> {
            &&& t.2.chunk.wf()
            &&& forall|i: int| 0 <= i < t.1@.len() ==> (#[trigger] t.1@[i]).wf()
        }
    }

    /// Every mapping tree in play can read every live record of its
    /// segments.
    pub open spec fn reads_valid(self) -> bool {
        &&& self.select.reads_valid(*self.req)
        &&& self.cur matches Option::Some(t) ==> {
            &&& forall|i: int, s: int|
                    0 <= i < t.1@.len() && 0 <= s < (#[trigger] t.1@[i]).bundles@.len()
                        && t.1@[i].occupied(s)
                        ==> table_valid(*self.req, *t.0, #[trigger] t.1@[i].bundles@[s]@)
            &&& forall|s: int|
                    0 <= s < t.2.chunk.bundles@.len() && t.2.chunk.occupied(s)
                        ==> table_valid(*self.req, *t.0, #[trigger] t.2.chunk.bundles@[s]@)
        }
    }

    /// A fresh walk over everything the query selects, the selection taken
    /// from the schema caches as `Select::new` fixes it.
    pub fn new(
        world: &'a World,
        req: &'a FetchRequest,
        filt: &FilterExpr,
    ) -> (r: Iter<'a>)
        requires
            world.wf(),
        ensures
            r.wf_iter(),
            r.reads_valid(),
            r.req == req,
            r.cur is None,
            selection_of(r.select.sel_view(), *world, *req, *filt),
    {
        let select = Select::new(world, req, filt);
        Iter { req, select, cur: None }
    }

    /// The next live record's view, exactly as one `it_step` over the
    /// walk's abstract state; `None` exactly when everything is exhausted,
    /// the state then spent.
    pub fn next(&mut self) -> (r: Option<Vec<&'a CompCell>>)
        requires
            old(self).wf_iter(),
            old(self).reads_valid(),
        ensures
            final(self).req == old(self).req,
            final(self).wf_iter(),
            final(self).reads_valid(),
            ({
                let step = it_step(old(self).select.sel_view(), old(self).cur_view());
                match step {
                    Option::None => r is None && final(self).select.inner@.len() == 0
                        && final(self).cur is None,
                    Option::Some(t) => {
                        &&& final(self).select.sel_view() == t.3
                        &&& final(self).cur_view() == t.4
                        &&& r matches Option::Some(v) && v@.len() == table_leaves(t.0).len()
                            && (forall|k: int|
                            0 <= k < v@.len() ==> *#[trigger] v@[k]
                                == t.1.bundles@[t.2]@[table_leaves(t.0)[k]])
                    },
                }
            }),
    {
        loop
            invariant
                self.req == old(self).req,
                self.wf_iter(),
                self.reads_valid(),
                it_step(self.select.sel_view(), self.cur_view()) == it_step(
                    old(self).select.sel_view(),
                    old(self).cur_view(),
                ),
            decreases
                    self.select.inner@.len(),
                    crate::iter::cur_rank(self.cur_view()),
                    self.chunk_rest(),
        {
            let take_next_entry = self.cur.is_none();
            if take_next_entry {
                let n = self.select.inner.len();
                if n == 0 {
                    return None;
                }
                let ghost sel0 = self.select.sel_view();
                let entry = match self.select.inner.pop() {
                    Some(entry) => entry,
                    None => {
                        proof {
                            assert(false);
                        }
                        return None;
                    },
                };
                let (mapping, mut segs) = entry;
                proof {
                    assert(self.select.sel_view() =~= sel0.drop_last());
                    assert(sel0.last().0 == *mapping);
                    assert(sel0.last().1 =~= chunk_values(segs@));
                }
                let ghost segs0 = chunk_values(segs@);
                match segs.pop() {
                    Some(chunk) => {
                        self.cur = Some((mapping, segs, ChunkIter::new(chunk)));
                        proof {
                            assert(chunk_values((self.cur->0).1@) =~= segs0.drop_last());
                            assert(*chunk == segs0.last());
                        }
                    },
                    None => {
                        proof {
                            assert(segs0.len() == 0);
                        }
                    },
                }
            } else {
                let p = match &mut self.cur {
                    Some(p) => p,
                    None => {
                        proof {
                            assert(false);
                        }
                        return None;
                    },
                };
                let mapping = p.0;
                let ghost chv = *p.2.chunk;
                let ghost idx0 = p.2.index as int;
                let cells = p.2.next();
                match cells {
                    Some(cs) => {
                        proof {
                            let j = ChunkIter::first_live(chv, idx0);
                            ChunkIter::lemma_first_live_props(chv, idx0);
                            assert(j < chv.bundles@.len());
                            assert(chv.occupied(j));
                            assert(table_valid(*self.req, *mapping, chv.bundles@[j]@));
                        }
                        match build(self.req, mapping, cs) {
                            Some(v) => {
                                return Some(v);
                            },
                            None => {
                                proof {
                                    assert(false);
                                }
                                return None;
                            },
                        }
                    },
                    None => {
                        let ghost segs0 = chunk_values(p.1@);
                        match p.1.pop() {
                            Some(chunk) => {
                                p.2 = ChunkIter::new(chunk);
                                proof {
                                    assert(chunk_values((self.cur->0).1@) =~= segs0.drop_last());
                                    assert(*chunk == segs0.last());
                                }
                            },
                            None => {
                                proof {
                                    assert(segs0.len() == 0);
                                }
                                self.cur = None;
                            },
                        }
                    },
                }
            }
        }
    }

    /// How many slots the current segment walk still has before it.
    pub open spec fn chunk_rest(self) -> int {
        match self.cur {
            Option::Some(t) => t.2.chunk.bundles@.len() + 1 - t.2.index,
            Option::None => 0,
        }
    }
}

/// Walk pairing every selected live record's view with its handle.
pub struct EIter<'a> {
    /// The underlying walk.
    pub inner: Iter<'a>,
}

impl<'a> EIter<'a> {
    pub fn new(inner: Iter<'a>) -> (r: EIter<'a>)
        ensures
            r.inner == inner,
    {
        EIter { inner }
    }

    /// The next live record's view with its handle: the same `it_step` as
    /// the underlying walk, the handle carrying the yielded slot's global
    /// index and current generation word.
    pub fn next(&mut self) -> (r: Option<EBundle<'a>>)
        requires
            old(self).inner.wf_iter(),
            old(self).inner.reads_valid(),
        ensures
            final(self).inner.req == old(self).inner.req,
            final(self).inner.wf_iter(),
            final(self).inner.reads_valid(),
            ({
                let step = it_step(old(self).inner.select.sel_view(), old(self).inner.cur_view());
                match step {
                    Option::None => r is None,
                    Option::Some(t) => {
                        &&& final(self).inner.select.sel_view() == t.3
                        &&& final(self).inner.cur_view() == t.4
                        &&& r matches Option::Some(eb) && eb.entity == t.1.slot_entity(t.2)
                            && eb.inner@.len() == table_leaves(t.0).len() && (forall|k: int|
                            0 <= k < eb.inner@.len() ==> *#[trigger] eb.inner@[k]
                                == t.1.bundles@[t.2]@[table_leaves(t.0)[k]])
                    },
                }
            }),
    {
        let item = self.inner.next();
        match item {
            Some(v) => {
                proof {
                    lemma_it_step_yield_bounds(
                        old(self).inner.select.sel_view(),
                        old(self).inner.cur_view(),
                    );
                }
                match &self.inner.cur {
                    Some(p) => {
                        let it = &p.2;
                        if it.index >= 1 && it.index <= it.chunk.alive.len() {
                            let e = it.chunk.gen_entity(it.index - 1);
                            Some(EBundle { inner: v, entity: e })
                        } else {
                            proof {
                                assert(false);
                            }
                            None
                        }
                    },
                    None => {
                        proof {
                            assert(false);
                        }
                        None
                    },
                }
            },
            None => None,
        }
    }
}

/// What a query-walk step yields: an occupied slot in range, the state
/// after it carrying the yielded segment with the cursor just past the
/// slot, the segment well-formed whenever the walked state is.
proof fn lemma_it_step_yield_bounds(
    sel: Seq<(MappingTable, Seq<Chunk>)>,
    cur: Option<(MappingTable, Seq<Chunk>, Chunk, int)>,
)
    ensures
        match it_step(sel, cur) {
            Option::Some(t) => {
                &&& 0 <= t.2 < t.1.bundles@.len()
                &&& t.1.occupied(t.2)
                &&& t.4 matches Option::Some(c2) && c2.0 == t.0 && c2.2 == t.1 && c2.3 == t.2 + 1
            },
            Option::None => true,
        },
    decreases sel.len(), cur_rank(cur),
{
    match cur {
        Option::None => {
            if sel.len() > 0 {
                let entry = sel.last();
                if entry.1.len() > 0 {
                    lemma_it_step_yield_bounds(
                        sel.drop_last(),
                        Option::Some((entry.0, entry.1.drop_last(), entry.1.last(), 0)),
                    );
                } else {
                    lemma_it_step_yield_bounds(sel.drop_last(), Option::None);
                }
            }
        },
        Option::Some(t) => {
            let j = ChunkIter::first_live(t.2, t.3);
            ChunkIter::lemma_first_live_props(t.2, t.3);
            if j < t.2.bundles@.len() {
            } else if t.1.len() > 0 {
                lemma_it_step_yield_bounds(sel, Option::Some((t.0, t.1.drop_last(), t.1.last(), 0)));
            } else {
                lemma_it_step_yield_bounds(sel, Option::None);
            }
        },
    }
}

/// Dropping spent entries from the end moves the active position nowhere.
proof fn lemma_sel_active_trim(sel: Seq<(MappingTable, Seq<Chunk>)>, m: int)
    requires
        0 <= m <= sel.len(),
        forall|k: int| m <= k < sel.len() ==> (#[trigger] sel[k]).1.len() == 0,
    ensures
        Select::sel_active(sel) == Select::sel_active(sel.subrange(0, m)),
    decreases sel.len() - m,
{
    if m < sel.len() {
        lemma_sel_active_trim(sel.drop_last(), m);
        assert(sel.drop_last().subrange(0, m) =~= sel.subrange(0, m));
    } else {
        assert(sel.subrange(0, m) =~= sel);
    }
}

} // verus!
