//! Schema metadata: one record per registered record shape — its schema id,
//! the immutable ordered component-id list, the segments that own its
//! records, and the lazily filled predicate and projection caches. A
//! schema's component set never changes, which is what licenses keeping
//! cache entries forever.

use vstd::prelude::*;
use crate::fetch::{
    FetchRequest, MappingTable, full_avail, contain, fetch_req_eq, req_clone, req_eq,
    req_leaf_ids, lemma_req_eq_same, seq_contain_ok, seq_contain_leaves, table_for, table_leaves,
};
use crate::filter::{FilterExpr, filter_clone, filter_expr_eq, filter_holds, pass};

verus! {

/// First projection-cache entry whose key is structurally equal to the
/// request, or the cache's length when none is.
pub open spec fn find_cached(
    cache: Seq<(FetchRequest, MappingTable)>,
    req: FetchRequest,
    from: int,
) -> int
    decreases cache.len() - from,
{
    if from < 0 || from >= cache.len() {
        cache.len() as int
    } else if req_eq(cache[from].0, req) {
        from
    } else {
        find_cached(cache, req, from + 1)
    }
}

/// What the cache search returns.
pub proof fn lemma_find_cached_props(
    cache: Seq<(FetchRequest, MappingTable)>,
    req: FetchRequest,
    from: int,
)
    requires
        0 <= from <= cache.len(),
    ensures
        from <= find_cached(cache, req, from) <= cache.len(),
        find_cached(cache, req, from) < cache.len()
            ==> req_eq(cache[find_cached(cache, req, from)].0, req),
        forall|i: int| from <= i < find_cached(cache, req, from) ==> !req_eq(cache[i].0, req),
    decreases cache.len() - from,
{
    if from < cache.len() && !req_eq(cache[from].0, req) {
        lemma_find_cached_props(cache, req, from + 1);
    }
}

/// Metadata of one registered record shape.
#[derive(Debug)]
pub struct BundleMeta {
    /// Stable id of the record shape itself.
    pub bundle_id: u64,
    /// Ordered component-type ids of the shape; fixed at registration.
    pub components_ids: Vec<u64>,
    /// Ordinals of the segments that own records of this shape.
    pub chunks: Vec<usize>,
    /// Cached predicate results against this schema.
    pub filter_cache: Vec<(FilterExpr, bool)>,
    /// Cached mapping trees of the projections that resolved against this
    /// schema; failures are recomputed, never cached.
    pub fetch_cache: Vec<(FetchRequest, MappingTable)>,
}

impl BundleMeta {
    /// Every cache entry says the truth about this schema.
    pub open spec fn wf(self) -> bool {
        &&& self.components_ids@.no_duplicates()
        &&& forall|k: int| 0 <= k < self.filter_cache@.len()
                ==> (#[trigger] self.filter_cache@[k]).1
                    == filter_holds(self.filter_cache@[k].0, self.components_ids@)
        &&& forall|k: int| 0 <= k < self.fetch_cache@.len() ==> {
                let (key, mt) = #[trigger] self.fetch_cache@[k];
                &&& seq_contain_ok(
                    req_leaf_ids(key),
                    self.components_ids@,
                    full_avail(self.components_ids@.len() as int),
                )
                &&& table_for(key, mt)
                &&& table_leaves(mt) == seq_contain_leaves(
                    req_leaf_ids(key),
                    self.components_ids@,
                    full_avail(self.components_ids@.len() as int),
                )
            }
    }

    pub fn new(bundle_id: u64, components_ids: Vec<u64>) -> (r: BundleMeta)
        requires
            components_ids@.no_duplicates(),
        ensures
            r.wf(),
            r.bundle_id == bundle_id,
            r.components_ids == components_ids,
            r.chunks@.len() == 0,
            r.filter_cache@.len() == 0,
            r.fetch_cache@.len() == 0,
    {
        BundleMeta {
            bundle_id,
            components_ids,
            chunks: Vec::new(),
            filter_cache: Vec::new(),
            fetch_cache: Vec::new(),
        }
    }

    /// Evaluates a predicate against this schema, through the cache: a hit
    /// is returned as cached, a miss is evaluated once and remembered.
    #[verifier::loop_isolation(false)]
    pub fn filter(&mut self, f: &FilterExpr) -> (r: bool)
        requires
            old(self).wf(),
        ensures
            final(self).wf(),
            r == filter_holds(*f, old(self).components_ids@),
            final(self).bundle_id == old(self).bundle_id,
            final(self).components_ids == old(self).components_ids,
            final(self).chunks == old(self).chunks,
            final(self).fetch_cache == old(self).fetch_cache,
    {
        let mut k: usize = 0;
        while k < self.filter_cache.len()
            invariant
                k <= self.filter_cache@.len(),
            decreases self.filter_cache@.len() - k,
        {
            if filter_expr_eq(&self.filter_cache[k].0, f) {
                proof {
                    crate::filter::lemma_filter_eq_holds(
                        self.filter_cache@[k as int].0,
                        *f,
                        self.components_ids@,
                    );
                }
                return self.filter_cache[k].1;
            }
            k = k + 1;
        }
        let r = pass(f, &self.components_ids);
        let key = filter_clone(f);
        proof {
            crate::filter::lemma_filter_eq_holds(*f, key, self.components_ids@);
        }
        self.filter_cache.push((key, r));
        r
    }

    /// Position in the projection cache of a mapping tree for this request,
    /// resolving and caching it on a miss. `None` exactly when the
    /// projection cannot resolve against this schema.
    #[verifier::loop_isolation(false)]
    pub fn fetch_idx(&mut self, req: &FetchRequest) -> (r: Option<usize>)
        requires
            old(self).wf(),
        ensures
            final(self).wf(),
            final(self).bundle_id == old(self).bundle_id,
            final(self).components_ids == old(self).components_ids,
            final(self).chunks == old(self).chunks,
            final(self).filter_cache == old(self).filter_cache,
            final(self).fetch_cache@.len() >= old(self).fetch_cache@.len(),
            forall|i: int| 0 <= i < old(self).fetch_cache@.len()
                ==> #[trigger] final(self).fetch_cache@[i] == old(self).fetch_cache@[i],
            r is Some <==> seq_contain_ok(
                req_leaf_ids(*req),
                old(self).components_ids@,
                full_avail(old(self).components_ids@.len() as int),
            ),
            r matches Option::Some(k) ==> {
                let mt = final(self).fetch_cache@[k as int].1;
                &&& k < final(self).fetch_cache@.len()
                &&& table_for(*req, mt)
                &&& table_leaves(mt) == seq_contain_leaves(
                    req_leaf_ids(*req),
                    old(self).components_ids@,
                    full_avail(old(self).components_ids@.len() as int),
                )
            },
    {
        let ghost ids = self.components_ids@;
        let mut k: usize = 0;
        while k < self.fetch_cache.len()
            invariant
                k <= self.fetch_cache@.len(),
            decreases self.fetch_cache@.len() - k,
        {
            if fetch_req_eq(&self.fetch_cache[k].0, req) {
                proof {
                    lemma_req_eq_same(
                        self.fetch_cache@[k as int].0,
                        *req,
                        self.fetch_cache@[k as int].1,
                    );
                }
                return Some(k);
            }
            k = k + 1;
        }
        let mut avail: Vec<bool> = Vec::new();
        let mut i: usize = 0;
        while i < self.components_ids.len()
            invariant
                i <= self.components_ids@.len(),
                avail@ =~= Seq::new(i as nat, |j: int| true),
            decreases self.components_ids@.len() - i,
        {
            avail.push(true);
            i = i + 1;
        }
        proof {
            assert(avail@ =~= full_avail(ids.len() as int));
        }
        match contain(req, &self.components_ids, &mut avail) {
            Some(mt) => {
                let key = req_clone(req);
                proof {
                    lemma_req_eq_same(*req, key, mt);
                }
                self.fetch_cache.push((key, mt));
                Some(self.fetch_cache.len() - 1)
            },
            None => None,
        }
    }

    /// A mapping tree turning this schema's records into the requested
    /// view, from the cache or computed once; `None` exactly when the
    /// projection cannot resolve against this schema.
    pub fn fetch(&mut self, req: &FetchRequest) -> (r: Option<&MappingTable>)
        requires
            old(self).wf(),
        ensures
            final(self).wf(),
            final(self).bundle_id == old(self).bundle_id,
            final(self).components_ids == old(self).components_ids,
            final(self).chunks == old(self).chunks,
            r is Some <==> seq_contain_ok(
                req_leaf_ids(*req),
                old(self).components_ids@,
                full_avail(old(self).components_ids@.len() as int),
            ),
            r matches Option::Some(mt) ==> {
                &&& table_for(*req, *mt)
                &&& table_leaves(*mt) == seq_contain_leaves(
                    req_leaf_ids(*req),
                    old(self).components_ids@,
                    full_avail(old(self).components_ids@.len() as int),
                )
            },
    {
        match self.fetch_idx(req) {
            Some(k) => Some(&self.fetch_cache[k].1),
            None => None,
        }
    }
}

} // verus!
