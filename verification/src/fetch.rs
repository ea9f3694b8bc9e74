//! Projection (fetch) engine. A projection asks for an ordered, possibly
//! nested view of components, each leaf immutable or mutable. Against one
//! schema it resolves into a mapping tree of physical indices: every leaf is
//! matched first-found against a working copy of the schema's component-id
//! list and the matched index is consumed, so no two leaves can share an
//! index. The mapping tree then turns an erased record into a typed view
//! without copying.

use vstd::prelude::*;
use crate::component::{CompCell, cells_ids};

verus! {

/// A projection request: which components to view, in what shape, and with
/// what mutability.
#[derive(Debug, PartialEq, Eq)]
pub enum FetchRequest {
    /// View of one component, by component-type id.
    Unit { type_id: u64, mutable: bool },
    /// Ordered composite of sub-requests.
    Tuple(Vec<FetchRequest>),
}

/// Mapping tree: the resolved counterpart of a projection against one
/// schema. Leaves carry physical component indices; nodes mirror the
/// request's shape.
#[derive(Debug, PartialEq, Eq)]
pub enum MappingTable {
    /// Composite node, one child per sub-request.
    Node(Vec<MappingTable>),
    /// Physical index of the matched component.
    Mapping(usize),
}

impl MappingTable {
    /// A composite node over the given children.
    pub fn new(children: Vec<MappingTable>) -> (r: MappingTable)
        ensures
            r == MappingTable::Node(children),
    {
        MappingTable::Node(children)
    }

    /// The composite children, if this is a node.
    pub fn as_node(&self) -> (r: Option<&Vec<MappingTable>>)
        ensures
            match r {
                Option::Some(v) => *self == MappingTable::Node(*v),
                Option::None => self is Mapping,
            },
    {
        match self {
            MappingTable::Node(v) => Some(v),
            MappingTable::Mapping(_) => None,
        }
    }

    /// The physical index, if this is a leaf.
    pub fn as_mapping(&self) -> (r: Option<&usize>)
        ensures
            match r {
                Option::Some(i) => *self == MappingTable::Mapping(*i),
                Option::None => self is Node,
            },
    {
        match self {
            MappingTable::Node(_) => None,
            MappingTable::Mapping(i) => Some(i),
        }
    }
}

/// The component-type ids of a request's leaves, in depth-first order.
pub open spec fn req_leaf_ids(req: FetchRequest) -> Seq<u64>
    decreases req,
{
    match req {
        FetchRequest::Unit { type_id, .. } => seq![type_id],
        FetchRequest::Tuple(rs) => leaf_ids_list(rs@),
    }
}

/// The leaf ids of a list of requests, concatenated in order.
pub open spec fn leaf_ids_list(rs: Seq<FetchRequest>) -> Seq<u64>
    decreases rs,
{
    if rs.len() == 0 {
        Seq::empty()
    } else {
        req_leaf_ids(rs[0]) + leaf_ids_list(rs.drop_first())
    }
}

/// The mutability flags of a request's leaves, in depth-first order.
pub open spec fn req_leaf_muts(req: FetchRequest) -> Seq<bool>
    decreases req,
{
    match req {
        FetchRequest::Unit { mutable, .. } => seq![mutable],
        FetchRequest::Tuple(rs) => leaf_muts_list(rs@),
    }
}

/// The leaf mutability flags of a list of requests, concatenated in order.
pub open spec fn leaf_muts_list(rs: Seq<FetchRequest>) -> Seq<bool>
    decreases rs,
{
    if rs.len() == 0 {
        Seq::empty()
    } else {
        req_leaf_muts(rs[0]) + leaf_muts_list(rs.drop_first())
    }
}

/// The physical indices at a mapping tree's leaves, in depth-first order.
pub open spec fn table_leaves(mt: MappingTable) -> Seq<int>
    decreases mt,
{
    match mt {
        MappingTable::Mapping(i) => seq![i as int],
        MappingTable::Node(ms) => table_leaves_list(ms@),
    }
}

/// The leaves of a list of mapping trees, concatenated in order.
pub open spec fn table_leaves_list(ms: Seq<MappingTable>) -> Seq<int>
    decreases ms,
{
    if ms.len() == 0 {
        Seq::empty()
    } else {
        table_leaves(ms[0]) + table_leaves_list(ms.drop_first())
    }
}

/// Whether a mapping tree mirrors a request's shape: a leaf per leaf, a node
/// per composite, child for child.
pub open spec fn table_for(req: FetchRequest, mt: MappingTable) -> bool
    decreases req,
{
    match req {
        FetchRequest::Unit { .. } => mt is Mapping,
        FetchRequest::Tuple(rs) => {
            &&& mt is Node
            &&& mt->Node_0@.len() == rs@.len()
            &&& forall|k: int| 0 <= k < rs@.len()
                    ==> table_for(#[trigger] rs@[k], mt->Node_0@[k])
        },
    }
}

/// First index at or after `from` that is still available and carries the
/// wanted component id; the list's length when there is none.
pub open spec fn find_free(ids: Seq<u64>, avail: Seq<bool>, tid: u64, from: int) -> int
    decreases ids.len() - from,
{
    if from < 0 || from >= ids.len() {
        ids.len() as int
    } else if avail[from] && ids[from] == tid {
        from
    } else {
        find_free(ids, avail, tid, from + 1)
    }
}

/// Whether matching the wanted ids, first-found-and-consumed in order,
/// succeeds against the working availability `avail` of the schema `ids`.
pub open spec fn seq_contain_ok(tids: Seq<u64>, ids: Seq<u64>, avail: Seq<bool>) -> bool
    decreases tids,
{
    if tids.len() == 0 {
        true
    } else {
        let j = find_free(ids, avail, tids[0], 0);
        &&& j < ids.len()
        &&& seq_contain_ok(tids.drop_first(), ids, avail.update(j, false))
    }
}

/// The availability left after matching the wanted ids in order; matching
/// stops, as the resolver does, at the first id that cannot be found.
pub open spec fn seq_contain_avail(tids: Seq<u64>, ids: Seq<u64>, avail: Seq<bool>) -> Seq<bool>
    decreases tids,
{
    if tids.len() == 0 {
        avail
    } else {
        let j = find_free(ids, avail, tids[0], 0);
        if j < ids.len() {
            seq_contain_avail(tids.drop_first(), ids, avail.update(j, false))
        } else {
            avail
        }
    }
}

/// The physical indices matched for the wanted ids, in order; meaningful
/// where `seq_contain_ok` holds.
pub open spec fn seq_contain_leaves(tids: Seq<u64>, ids: Seq<u64>, avail: Seq<bool>) -> Seq<int>
    decreases tids,
{
    if tids.len() == 0 {
        Seq::empty()
    } else {
        let j = find_free(ids, avail, tids[0], 0);
        if j < ids.len() {
            seq![j] + seq_contain_leaves(tids.drop_first(), ids, avail.update(j, false))
        } else {
            Seq::empty()
        }
    }
}

/// Matching a concatenation of wanted ids is matching the first part, then
/// the second against what the first left available.
pub proof fn lemma_seq_contain_append(a: Seq<u64>, b: Seq<u64>, ids: Seq<u64>, avail: Seq<bool>)
    ensures
        seq_contain_ok(a + b, ids, avail)
            == (seq_contain_ok(a, ids, avail)
                && seq_contain_ok(b, ids, seq_contain_avail(a, ids, avail))),
        seq_contain_ok(a, ids, avail) ==> seq_contain_avail(a + b, ids, avail)
            == seq_contain_avail(b, ids, seq_contain_avail(a, ids, avail)),
        !seq_contain_ok(a, ids, avail) ==> seq_contain_avail(a + b, ids, avail)
            == seq_contain_avail(a, ids, avail),
        seq_contain_ok(a, ids, avail) && seq_contain_ok(b, ids, seq_contain_avail(a, ids, avail))
            ==> seq_contain_leaves(a + b, ids, avail)
                == seq_contain_leaves(a, ids, avail)
                    + seq_contain_leaves(b, ids, seq_contain_avail(a, ids, avail)),
    decreases a,
{
    if a.len() == 0 {
        assert(a + b =~= b);
        assert(seq_contain_avail(a, ids, avail) == avail);
        assert(seq_contain_leaves(a, ids, avail) + seq_contain_leaves(b, ids, avail)
            =~= seq_contain_leaves(b, ids, avail));
    } else {
        let j = find_free(ids, avail, a[0], 0);
        assert((a + b)[0] == a[0]);
        assert((a + b).drop_first() =~= a.drop_first() + b);
        if j < ids.len() {
            lemma_seq_contain_append(a.drop_first(), b, ids, avail.update(j, false));
            if seq_contain_ok(a, ids, avail)
                && seq_contain_ok(b, ids, seq_contain_avail(a, ids, avail)) {
                assert(seq_contain_leaves(a + b, ids, avail)
                    =~= seq_contain_leaves(a, ids, avail)
                        + seq_contain_leaves(b, ids, seq_contain_avail(a, ids, avail)));
            }
        }
    }
}

/// One more request at the end of a list appends its leaf ids.
pub proof fn lemma_leaf_ids_push(rs: Seq<FetchRequest>, x: FetchRequest)
    ensures
        leaf_ids_list(rs.push(x)) == leaf_ids_list(rs) + req_leaf_ids(x),
        leaf_muts_list(rs.push(x)) == leaf_muts_list(rs) + req_leaf_muts(x),
    decreases rs,
{
    if rs.len() == 0 {
        assert(rs.push(x)[0] == x);
        assert(rs.push(x).drop_first() =~= Seq::<FetchRequest>::empty());
        assert(leaf_ids_list(Seq::<FetchRequest>::empty()) =~= Seq::<u64>::empty());
        assert(leaf_muts_list(Seq::<FetchRequest>::empty()) =~= Seq::<bool>::empty());
        assert(leaf_ids_list(rs.push(x)) =~= req_leaf_ids(x));
        assert(leaf_ids_list(rs) + req_leaf_ids(x) =~= req_leaf_ids(x));
        assert(leaf_muts_list(rs.push(x)) =~= req_leaf_muts(x));
        assert(leaf_muts_list(rs) + req_leaf_muts(x) =~= req_leaf_muts(x));
    } else {
        assert(rs.push(x)[0] == rs[0]);
        assert(rs.push(x).drop_first() =~= rs.drop_first().push(x));
        lemma_leaf_ids_push(rs.drop_first(), x);
        assert(leaf_ids_list(rs.push(x))
            =~= leaf_ids_list(rs) + req_leaf_ids(x));
        assert(leaf_muts_list(rs.push(x))
            =~= leaf_muts_list(rs) + req_leaf_muts(x));
    }
}

/// One more mapping tree at the end of a list appends its leaves.
pub proof fn lemma_table_leaves_push(ms: Seq<MappingTable>, x: MappingTable)
    ensures
        table_leaves_list(ms.push(x)) == table_leaves_list(ms) + table_leaves(x),
    decreases ms,
{
    if ms.len() == 0 {
        assert(ms.push(x)[0] == x);
        assert(ms.push(x).drop_first() =~= Seq::<MappingTable>::empty());
        assert(table_leaves_list(Seq::<MappingTable>::empty()) =~= Seq::<int>::empty());
        assert(table_leaves_list(ms.push(x)) =~= table_leaves(x));
        assert(table_leaves_list(ms) + table_leaves(x) =~= table_leaves(x));
    } else {
        assert(ms.push(x)[0] == ms[0]);
        assert(ms.push(x).drop_first() =~= ms.drop_first().push(x));
        lemma_table_leaves_push(ms.drop_first(), x);
        assert(table_leaves_list(ms.push(x))
            =~= table_leaves_list(ms) + table_leaves(x));
    }
}

/// Linear search for the first available slot carrying the wanted id.
#[verifier::loop_isolation(false)]
pub fn find_first_free(ids: &Vec<u64>, avail: &Vec<bool>, tid: u64) -> (r: usize)
    requires
        avail@.len() == ids@.len(),
    ensures
        r == find_free(ids@, avail@, tid, 0),
        r <= ids@.len(),
{
    let mut k: usize = 0;
    while k < ids.len()
        invariant
            k <= ids@.len(),
            find_free(ids@, avail@, tid, 0) == find_free(ids@, avail@, tid, k as int),
        decreases ids@.len() - k,
    {
        if avail[k] && ids[k] == tid {
            return k;
        }
        k = k + 1;
    }
    ids.len()
}

/// Resolves a projection against a schema's component-id list, consuming
/// matched indices from the working availability `avail`. Succeeds, with a
/// mapping tree mirroring the request, exactly when every leaf, taken in
/// order, still finds an available slot with its id.
#[verifier::loop_isolation(false)]
pub fn contain(req: &FetchRequest, ids: &Vec<u64>, avail: &mut Vec<bool>) -> (r: Option<
    MappingTable,
>)
    requires
        old(avail)@.len() == ids@.len(),
    ensures
        final(avail)@.len() == ids@.len(),
        final(avail)@ == seq_contain_avail(req_leaf_ids(*req), ids@, old(avail)@),
        r is Some <==> seq_contain_ok(req_leaf_ids(*req), ids@, old(avail)@),
        r matches Option::Some(mt) ==> {
            &&& table_for(*req, mt)
            &&& table_leaves(mt) == seq_contain_leaves(req_leaf_ids(*req), ids@, old(avail)@)
        },
    decreases *req,
{
    match req {
        FetchRequest::Unit { type_id, .. } => {
            let j = find_first_free(ids, avail, *type_id);
            proof {
                let tids = req_leaf_ids(*req);
                assert(tids == seq![*type_id]);
                assert(tids[0] == *type_id);
                assert(tids.drop_first() =~= Seq::<u64>::empty());
            }
            if j < ids.len() {
                avail.set(j, false);
                proof {
                    let tids = req_leaf_ids(*req);
                    let upd = old(avail)@.update(j as int, false);
                    assert(seq_contain_ok(Seq::<u64>::empty(), ids@, upd));
                    assert(seq_contain_avail(Seq::<u64>::empty(), ids@, upd) == upd);
                    assert(seq_contain_leaves(Seq::<u64>::empty(), ids@, upd)
                        =~= Seq::<int>::empty());
                    assert(seq_contain_leaves(tids, ids@, old(avail)@)
                        =~= seq![j as int]);
                }
                Some(MappingTable::Mapping(j))
            } else {
                None
            }
        },
        FetchRequest::Tuple(rs) => {
            let mut tables: Vec<MappingTable> = Vec::new();
            let mut k: usize = 0;
            let ghost avail0 = avail@;
            while k < rs.len()
                invariant
                    avail@.len() == ids@.len(),
                    k <= rs@.len(),
                    tables@.len() == k,
                    seq_contain_ok(leaf_ids_list(rs@.subrange(0, k as int)), ids@, avail0),
                    avail@ == seq_contain_avail(
                        leaf_ids_list(rs@.subrange(0, k as int)),
                        ids@,
                        avail0,
                    ),
                    forall|j: int| 0 <= j < k ==> table_for(#[trigger] rs@[j], tables@[j]),
                    table_leaves_list(tables@) == seq_contain_leaves(
                        leaf_ids_list(rs@.subrange(0, k as int)),
                        ids@,
                        avail0,
                    ),
                decreases rs@.len() - k,
            {
                proof {
                    assert(decreases_to!(*req => req->Tuple_0));
                    assert(decreases_to!(req->Tuple_0 => rs@[k as int]));
                    assert(decreases_to!(*req => rs@[k as int]));
                }
                let ghost prefix = leaf_ids_list(rs@.subrange(0, k as int));
                let ghost mid = avail@;
                let sub = contain(&rs[k], ids, avail);
                match sub {
                    Some(mt) => {
                        proof {
                            assert(rs@.subrange(0, k as int).push(rs@[k as int])
                                =~= rs@.subrange(0, k as int + 1));
                            lemma_leaf_ids_push(rs@.subrange(0, k as int), rs@[k as int]);
                            lemma_seq_contain_append(
                                prefix,
                                req_leaf_ids(rs@[k as int]),
                                ids@,
                                avail0,
                            );
                            lemma_table_leaves_push(tables@, mt);
                        }
                        tables.push(mt);
                    },
                    None => {
                        proof {
                            assert(rs@.subrange(0, k as int).push(rs@[k as int])
                                =~= rs@.subrange(0, k as int + 1));
                            lemma_leaf_ids_push(rs@.subrange(0, k as int), rs@[k as int]);
                            lemma_seq_contain_append(
                                prefix,
                                req_leaf_ids(rs@[k as int]),
                                ids@,
                                avail0,
                            );
                            // The whole request fails through this child: its
                            // remaining siblings cannot make the prefix match.
                            let whole = req_leaf_ids(*req);
                            let rest = leaf_ids_list(rs@.subrange(k as int + 1, rs@.len() as int));
                            assert(rs@.subrange(0, rs@.len() as int) =~= rs@);
                            lemma_leaf_ids_split(rs@, k as int + 1);
                            lemma_seq_contain_append(
                                leaf_ids_list(rs@.subrange(0, k as int + 1)),
                                rest,
                                ids@,
                                avail0,
                            );
                        }
                        return None;
                    },
                }
                k = k + 1;
            }
            proof {
                assert(rs@.subrange(0, rs@.len() as int) =~= rs@);
            }
            Some(MappingTable::Node(tables))
        },
    }
}

/// Whether a mapping tree can read an erased record for a request: it
/// mirrors the request's shape, every leaf index is in range, and the cell
/// there carries the requested component id — the checked downcast.
pub open spec fn table_valid(req: FetchRequest, mt: MappingTable, cells: Seq<CompCell>) -> bool
    decreases req,
{
    match (req, mt) {
        (FetchRequest::Unit { type_id, .. }, MappingTable::Mapping(i)) => {
            &&& i < cells.len()
            &&& cells[i as int].type_id == type_id
        },
        (FetchRequest::Tuple(rs), MappingTable::Node(ms)) => {
            &&& rs@.len() == ms@.len()
            &&& forall|k: int| 0 <= k < rs@.len()
                    ==> table_valid(#[trigger] rs@[k], ms@[k], cells)
        },
        _ => false,
    }
}

/// Builds the flat typed view: appends to `out` one reference per leaf of
/// the mapping tree, in depth-first order, each checked against the
/// requested component id.
#[verifier::loop_isolation(false)]
fn build_into<'a>(
    req: &FetchRequest,
    mt: &MappingTable,
    cells: &'a Vec<CompCell>,
    out: &mut Vec<&'a CompCell>,
) -> (ok: bool)
    ensures
        ok == table_valid(*req, *mt, cells@),
        ok ==> {
            let picked = table_leaves(*mt);
            &&& final(out)@.len() == old(out)@.len() + picked.len()
            &&& forall|k: int| 0 <= k < old(out)@.len()
                    ==> #[trigger] final(out)@[k] == old(out)@[k]
            &&& forall|k: int| 0 <= k < picked.len()
                    ==> *#[trigger] final(out)@[old(out)@.len() + k] == cells@[picked[k]]
        },
    decreases *req,
{
    match (req, mt) {
        (FetchRequest::Unit { type_id, .. }, MappingTable::Mapping(i)) => {
            if *i < cells.len() && cells[*i].type_id == *type_id {
                out.push(&cells[*i]);
                true
            } else {
                false
            }
        },
        (FetchRequest::Tuple(rs), MappingTable::Node(ms)) => {
            if rs.len() != ms.len() {
                return false;
            }
            let mut k: usize = 0;
            while k < rs.len()
                invariant
                    k <= rs@.len(),
                    rs@.len() == ms@.len(),
                    forall|j: int| 0 <= j < k
                        ==> table_valid(#[trigger] rs@[j], ms@[j], cells@),
                    out@.len() == old(out)@.len()
                        + table_leaves_list(ms@.subrange(0, k as int)).len(),
                    forall|j: int| 0 <= j < old(out)@.len()
                        ==> #[trigger] out@[j] == old(out)@[j],
                    forall|j: int| 0 <= j < table_leaves_list(ms@.subrange(0, k as int)).len()
                        ==> *#[trigger] out@[old(out)@.len() + j]
                            == cells@[table_leaves_list(ms@.subrange(0, k as int))[j]],
                decreases rs@.len() - k,
            {
                proof {
                    assert(decreases_to!(*req => req->Tuple_0));
                    assert(decreases_to!(req->Tuple_0 => rs@[k as int]));
                    assert(decreases_to!(*req => rs@[k as int]));
                }
                let ghost out_mid = out@;
                let ok = build_into(&rs[k], &ms[k], cells, out);
                if !ok {
                    return false;
                }
                proof {
                    assert(ms@.subrange(0, k as int).push(ms@[k as int])
                        =~= ms@.subrange(0, k as int + 1));
                    lemma_table_leaves_push(ms@.subrange(0, k as int), ms@[k as int]);
                    let base = old(out)@.len() as int;
                    let a = table_leaves_list(ms@.subrange(0, k as int));
                    let c = table_leaves(ms@[k as int]);
                    let ab = table_leaves_list(ms@.subrange(0, k as int + 1));
                    assert(ab == a + c);
                    assert forall|j: int| 0 <= j < ab.len()
                        implies *#[trigger] out@[base + j] == cells@[ab[j]] by {
                        if j < a.len() {
                            assert(ab[j] == a[j]);
                            assert(out@[base + j] == out_mid[base + j]);
                        } else {
                            let kk = j - a.len();
                            assert(ab[j] == c[kk]);
                            assert(*out@[out_mid.len() + kk] == cells@[c[kk]]);
                            assert(base + j == out_mid.len() + kk);
                        }
                    }
                }
                k = k + 1;
            }
            proof {
                assert(ms@.subrange(0, ms@.len() as int) =~= ms@);
            }
            true
        },
        _ => false,
    }
}

/// Reads an erased record through a resolved mapping tree into the flat
/// typed view: one reference per requested leaf, in request order, with no
/// copy. Fails only when the tree does not fit the request and record — an
/// invariant violation if the tree was resolved against this record's
/// schema.
pub fn build<'a>(req: &FetchRequest, mt: &MappingTable, cells: &'a Vec<CompCell>) -> (r: Option<
    Vec<&'a CompCell>,
>)
    ensures
        r is Some <==> table_valid(*req, *mt, cells@),
        r matches Option::Some(v) ==> {
            let picked = table_leaves(*mt);
            &&& v@.len() == picked.len()
            &&& forall|k: int| 0 <= k < picked.len()
                    ==> *#[trigger] v@[k] == cells@[picked[k]]
        },
{
    let mut out: Vec<&'a CompCell> = Vec::new();
    if build_into(req, mt, cells, &mut out) {
        proof {
            let picked = table_leaves(*mt);
            assert forall|k: int| 0 <= k < picked.len()
                implies *#[trigger] out@[k] == cells@[picked[k]] by {
                assert(*out@[0 + k] == cells@[picked[k]]);
            }
        }
        Some(out)
    } else {
        None
    }
}

/// Structural equality of two requests.
pub open spec fn req_eq(a: FetchRequest, b: FetchRequest) -> bool
    decreases a,
{
    match (a, b) {
        (
            FetchRequest::Unit { type_id: t1, mutable: m1 },
            FetchRequest::Unit { type_id: t2, mutable: m2 },
        ) => t1 == t2 && m1 == m2,
        (FetchRequest::Tuple(x), FetchRequest::Tuple(y)) => {
            &&& x@.len() == y@.len()
            &&& forall|k: int| 0 <= k < x@.len() ==> req_eq(#[trigger] x@[k], y@[k])
        },
        _ => false,
    }
}

/// Whether two requests are structurally equal.
#[verifier::loop_isolation(false)]
pub fn fetch_req_eq(a: &FetchRequest, b: &FetchRequest) -> (r: bool)
    ensures
        r == req_eq(*a, *b),
    decreases *a,
{
    match (a, b) {
        (
            FetchRequest::Unit { type_id: t1, mutable: m1 },
            FetchRequest::Unit { type_id: t2, mutable: m2 },
        ) => *t1 == *t2 && *m1 == *m2,
        (FetchRequest::Tuple(x), FetchRequest::Tuple(y)) => {
            if x.len() != y.len() {
                return false;
            }
            let mut k: usize = 0;
            while k < x.len()
                invariant
                    x@.len() == y@.len(),
                    k <= x@.len(),
                    forall|j: int| 0 <= j < k ==> req_eq(#[trigger] x@[j], y@[j]),
                decreases x@.len() - k,
            {
                proof {
                    assert(decreases_to!(*a => a->Tuple_0));
                    assert(decreases_to!(a->Tuple_0 => x@[k as int]));
                    assert(decreases_to!(*a => x@[k as int]));
                }
                if !fetch_req_eq(&x[k], &y[k]) {
                    return false;
                }
                k = k + 1;
            }
            true
        },
        _ => false,
    }
}

/// A structurally equal copy of a request, for keying a cache.
#[verifier::loop_isolation(false)]
pub fn req_clone(a: &FetchRequest) -> (r: FetchRequest)
    ensures
        req_eq(*a, r),
    decreases *a,
{
    match a {
        FetchRequest::Unit { type_id, mutable } => FetchRequest::Unit {
            type_id: *type_id,
            mutable: *mutable,
        },
        FetchRequest::Tuple(rs) => {
            let mut out: Vec<FetchRequest> = Vec::new();
            let mut k: usize = 0;
            while k < rs.len()
                invariant
                    k <= rs@.len(),
                    out@.len() == k,
                    forall|j: int| 0 <= j < k ==> req_eq(#[trigger] rs@[j], out@[j]),
                decreases rs@.len() - k,
            {
                proof {
                    assert(decreases_to!(*a => a->Tuple_0));
                    assert(decreases_to!(a->Tuple_0 => rs@[k as int]));
                    assert(decreases_to!(*a => rs@[k as int]));
                }
                let c = req_clone(&rs[k]);
                out.push(c);
                k = k + 1;
            }
            FetchRequest::Tuple(out)
        },
    }
}

/// Structural equality of requests is reflexive.
pub proof fn lemma_req_eq_refl(a: FetchRequest)
    ensures
        req_eq(a, a),
    decreases a,
{
    match a {
        FetchRequest::Unit { .. } => {},
        FetchRequest::Tuple(rs) => {
            assert forall|k: int| 0 <= k < rs@.len()
                implies req_eq(#[trigger] rs@[k], rs@[k]) by {
                lemma_req_eq_refl(rs@[k]);
            }
        },
    }
}

/// Structurally equal requests have the same leaves and accept the same
/// mapping trees.
pub proof fn lemma_req_eq_same(a: FetchRequest, b: FetchRequest, mt: MappingTable)
    requires
        req_eq(a, b),
    ensures
        req_leaf_ids(a) == req_leaf_ids(b),
        req_leaf_muts(a) == req_leaf_muts(b),
        table_for(a, mt) == table_for(b, mt),
    decreases a,
{
    match (a, b) {
        (FetchRequest::Tuple(x), FetchRequest::Tuple(y)) => {
            lemma_req_eq_same_list(x@, y@, mt);
            if table_for(a, mt) {
                assert forall|k: int| 0 <= k < y@.len()
                    implies table_for(#[trigger] y@[k], mt->Node_0@[k]) by {
                    lemma_req_eq_same(x@[k], y@[k], mt->Node_0@[k]);
                }
            }
            if table_for(b, mt) {
                assert forall|k: int| 0 <= k < x@.len()
                    implies table_for(#[trigger] x@[k], mt->Node_0@[k]) by {
                    lemma_req_eq_same(x@[k], y@[k], mt->Node_0@[k]);
                }
            }
        },
        _ => {},
    }
}

proof fn lemma_req_eq_same_list(x: Seq<FetchRequest>, y: Seq<FetchRequest>, mt: MappingTable)
    requires
        x.len() == y.len(),
        forall|k: int| 0 <= k < x.len() ==> req_eq(#[trigger] x[k], y[k]),
    ensures
        leaf_ids_list(x) == leaf_ids_list(y),
        leaf_muts_list(x) == leaf_muts_list(y),
    decreases x,
{
    if x.len() > 0 {
        lemma_req_eq_same(x[0], y[0], mt);
        assert forall|k: int| 0 <= k < x.drop_first().len()
            implies req_eq(#[trigger] x.drop_first()[k], y.drop_first()[k]) by {
            assert(x.drop_first()[k] == x[k + 1]);
        }
        lemma_req_eq_same_list(x.drop_first(), y.drop_first(), mt);
    }
}

/// A request has one mutability flag per leaf id.
pub proof fn lemma_leaf_counts(req: FetchRequest)
    ensures
        req_leaf_muts(req).len() == req_leaf_ids(req).len(),
    decreases req,
{
    match req {
        FetchRequest::Unit { .. } => {},
        FetchRequest::Tuple(rs) => {
            lemma_leaf_counts_list(rs@);
        },
    }
}

proof fn lemma_leaf_counts_list(rs: Seq<FetchRequest>)
    ensures
        leaf_muts_list(rs).len() == leaf_ids_list(rs).len(),
    decreases rs,
{
    if rs.len() > 0 {
        lemma_leaf_counts(rs[0]);
        lemma_leaf_counts_list(rs.drop_first());
    }
}

/// Availability with every slot free.
pub open spec fn full_avail(n: int) -> Seq<bool> {
    Seq::new(n as nat, |i: int| true)
}

/// What the search returns: the first hit at or after `from`, nothing
/// before it.
pub proof fn lemma_find_free_props(ids: Seq<u64>, avail: Seq<bool>, tid: u64, from: int)
    requires
        avail.len() == ids.len(),
        0 <= from <= ids.len(),
    ensures
        from <= find_free(ids, avail, tid, from) <= ids.len(),
        find_free(ids, avail, tid, from) < ids.len() ==> {
            let j = find_free(ids, avail, tid, from);
            avail[j] && ids[j] == tid
        },
        forall|i: int| from <= i < find_free(ids, avail, tid, from)
            ==> !(avail[i] && ids[i] == tid),
    decreases ids.len() - from,
{
    if from < ids.len() && !(avail[from] && ids[from] == tid) {
        lemma_find_free_props(ids, avail, tid, from + 1);
    }
}

/// What a successful resolution consumes: one index per wanted id, each in
/// range, available, carrying the wanted id, and all pairwise distinct; the
/// availability left is the old one minus exactly those indices.
pub proof fn lemma_seq_contain_props(tids: Seq<u64>, ids: Seq<u64>, avail: Seq<bool>)
    requires
        avail.len() == ids.len(),
        seq_contain_ok(tids, ids, avail),
    ensures
        seq_contain_leaves(tids, ids, avail).len() == tids.len(),
        forall|k: int| 0 <= k < tids.len() ==> {
            let x = #[trigger] seq_contain_leaves(tids, ids, avail)[k];
            &&& 0 <= x < ids.len()
            &&& avail[x]
            &&& ids[x] == tids[k]
        },
        seq_contain_leaves(tids, ids, avail).no_duplicates(),
        seq_contain_avail(tids, ids, avail).len() == avail.len(),
        forall|i: int| 0 <= i < avail.len()
            ==> #[trigger] seq_contain_avail(tids, ids, avail)[i]
                == (avail[i] && !seq_contain_leaves(tids, ids, avail).contains(i)),
    decreases tids,
{
    let ll = seq_contain_leaves(tids, ids, avail);
    if tids.len() == 0 {
        assert forall|i: int| 0 <= i < avail.len()
            implies #[trigger] seq_contain_avail(tids, ids, avail)[i]
                == (avail[i] && !ll.contains(i)) by {
            assert(!ll.contains(i));
        }
    } else {
        let j = find_free(ids, avail, tids[0], 0);
        lemma_find_free_props(ids, avail, tids[0], 0);
        let avail1 = avail.update(j, false);
        let rest = tids.drop_first();
        lemma_seq_contain_props(rest, ids, avail1);
        let lr = seq_contain_leaves(rest, ids, avail1);
        assert(ll == seq![j] + lr);
        assert(ll.len() == tids.len());
        assert forall|k: int| 0 <= k < tids.len() implies {
            let x = #[trigger] ll[k];
            &&& 0 <= x < ids.len()
            &&& avail[x]
            &&& ids[x] == tids[k]
        } by {
            if k == 0 {
                assert(ll[0] == j);
            } else {
                assert(ll[k] == lr[k - 1]);
                assert(rest[k - 1] == tids[k]);
                assert(avail1[lr[k - 1]]);
            }
        }
        assert(!lr.contains(j)) by {
            if lr.contains(j) {
                let k = choose|k: int| 0 <= k < lr.len() && lr[k] == j;
                assert(avail1[lr[k]]);
            }
        }
        assert(ll.no_duplicates()) by {
            assert forall|p: int, q: int| 0 <= p < q < ll.len() implies ll[p] != ll[q] by {
                if p == 0 {
                    assert(ll[q] == lr[q - 1]);
                    assert(lr.contains(lr[q - 1]));
                } else {
                    assert(ll[p] == lr[p - 1] && ll[q] == lr[q - 1]);
                }
            }
        }
        assert forall|i: int| 0 <= i < avail.len()
            implies #[trigger] seq_contain_avail(tids, ids, avail)[i]
                == (avail[i] && !ll.contains(i)) by {
            assert(seq_contain_avail(tids, ids, avail) == seq_contain_avail(rest, ids, avail1));
            assert(seq_contain_avail(rest, ids, avail1)[i] == (avail1[i] && !lr.contains(i)));
            assert(ll.contains(i) <==> (i == j || lr.contains(i))) by {
                if ll.contains(i) {
                    let k = choose|k: int| 0 <= k < ll.len() && ll[k] == i;
                    if k > 0 {
                        assert(lr[k - 1] == i);
                        assert(lr.contains(i));
                    }
                }
                if lr.contains(i) {
                    let k = choose|k: int| 0 <= k < lr.len() && lr[k] == i;
                    assert(ll[k + 1] == i);
                    assert(ll.contains(i));
                }
                if i == j {
                    assert(ll[0] == i);
                    assert(ll.contains(i));
                }
            }
        }
    }
}

/// A projection with two leaves asking for the same component id never
/// resolves against a schema whose component ids are distinct — the first
/// leaf consumes the id's only index, whatever the leaves' mutability. In
/// particular a `(mutable C, mutable C)` request never yields a mapping.
pub proof fn lemma_aliasing_request_never_resolves(
    req: FetchRequest,
    ids: Seq<u64>,
    avail: Seq<bool>,
    k1: int,
    k2: int,
)
    requires
        ids.no_duplicates(),
        avail.len() == ids.len(),
        0 <= k1 < k2 < req_leaf_ids(req).len(),
        req_leaf_ids(req)[k1] == req_leaf_ids(req)[k2],
    ensures
        !seq_contain_ok(req_leaf_ids(req), ids, avail),
{
    if seq_contain_ok(req_leaf_ids(req), ids, avail) {
        let tids = req_leaf_ids(req);
        lemma_seq_contain_props(tids, ids, avail);
        let ll = seq_contain_leaves(tids, ids, avail);
        assert(ids[ll[k1]] == ids[ll[k2]]);
        assert(ll[k1] != ll[k2]);
    }
}

/// Availability with the first `m` slots consumed and the rest free.
pub open spec fn prefix_consumed(n: int, m: int) -> Seq<bool> {
    Seq::new(n as nat, |i: int| i >= m)
}

/// The search lands exactly on a known first hit.
proof fn lemma_find_free_at(ids: Seq<u64>, avail: Seq<bool>, tid: u64, from: int, m: int)
    requires
        avail.len() == ids.len(),
        0 <= from <= m < ids.len(),
        forall|i: int| from <= i < m ==> !(avail[i] && ids[i] == tid),
        avail[m] && ids[m] == tid,
    ensures
        find_free(ids, avail, tid, from) == m,
    decreases m - from,
{
    if from < m {
        lemma_find_free_at(ids, avail, tid, from + 1, m);
    }
}

/// Resolving a schema's own id list against itself, in order, assigns each
/// leaf its own physical index: the identity mapping. Stated from any
/// consumed prefix so the induction carries through.
pub proof fn lemma_identity_resolution(tids: Seq<u64>, ids: Seq<u64>, m: int)
    requires
        ids.no_duplicates(),
        0 <= m,
        m + tids.len() <= ids.len(),
        tids == ids.subrange(m, m + tids.len()),
    ensures
        seq_contain_ok(tids, ids, prefix_consumed(ids.len() as int, m)),
        seq_contain_leaves(tids, ids, prefix_consumed(ids.len() as int, m))
            == Seq::new(tids.len(), |k: int| m + k),
        seq_contain_avail(tids, ids, prefix_consumed(ids.len() as int, m))
            == prefix_consumed(ids.len() as int, m + tids.len()),
    decreases tids,
{
    let n = ids.len() as int;
    let avail = prefix_consumed(n, m);
    if tids.len() == 0 {
        assert(seq_contain_avail(tids, ids, avail) =~= prefix_consumed(n, m));
        assert(seq_contain_leaves(tids, ids, avail) =~= Seq::new(0, |k: int| m + k));
    } else {
        assert(tids[0] == ids[m]);
        assert forall|i: int| 0 <= i < m implies !(avail[i] && ids[i] == tids[0]) by {}
        lemma_find_free_at(ids, avail, tids[0], 0, m);
        assert(avail.update(m, false) =~= prefix_consumed(n, m + 1));
        assert(tids.drop_first() =~= ids.subrange(m + 1, m + 1 + (tids.len() - 1)));
        lemma_identity_resolution(tids.drop_first(), ids, m + 1);
        assert(seq_contain_leaves(tids, ids, avail)
            =~= Seq::new(tids.len(), |k: int| m + k));
        assert(seq_contain_avail(tids, ids, avail)
            =~= prefix_consumed(n, m + tids.len()));
    }
}

/// Round trip: a projection whose leaves ask for a schema's components in
/// the schema's own order resolves to the identity mapping, so reading an
/// erased record through it hands the record's cells back unchanged —
/// decomposing, reconstructing under the same schema and decomposing again
/// yields the identical erased-component sequence.
pub proof fn lemma_round_trip(req: FetchRequest, ids: Seq<u64>)
    requires
        ids.no_duplicates(),
        req_leaf_ids(req) == ids,
    ensures
        seq_contain_ok(req_leaf_ids(req), ids, full_avail(ids.len() as int)),
        seq_contain_leaves(req_leaf_ids(req), ids, full_avail(ids.len() as int))
            == Seq::new(ids.len(), |k: int| k),
{
    assert(prefix_consumed(ids.len() as int, 0) =~= full_avail(ids.len() as int));
    assert(ids.subrange(0, ids.len() as int) =~= ids);
    lemma_identity_resolution(ids, ids, 0);
    assert(Seq::new(ids.len(), |k: int| 0 + k) =~= Seq::new(ids.len(), |k: int| k));
}

/// A tree mirroring a request has one leaf per requested leaf.
pub proof fn lemma_table_for_leaf_len(req: FetchRequest, mt: MappingTable)
    requires
        table_for(req, mt),
    ensures
        table_leaves(mt).len() == req_leaf_ids(req).len(),
    decreases req,
{
    match req {
        FetchRequest::Unit { .. } => {},
        FetchRequest::Tuple(rs) => {
            lemma_table_for_leaf_len_list(rs@, mt->Node_0@);
        },
    }
}

proof fn lemma_table_for_leaf_len_list(rs: Seq<FetchRequest>, ms: Seq<MappingTable>)
    requires
        rs.len() == ms.len(),
        forall|k: int| 0 <= k < rs.len() ==> table_for(#[trigger] rs[k], ms[k]),
    ensures
        table_leaves_list(ms).len() == leaf_ids_list(rs).len(),
    decreases rs,
{
    if rs.len() > 0 {
        lemma_table_for_leaf_len(rs[0], ms[0]);
        assert forall|k: int| 0 <= k < rs.drop_first().len()
            implies table_for(#[trigger] rs.drop_first()[k], ms.drop_first()[k]) by {
            assert(rs.drop_first()[k] == rs[k + 1]);
        }
        lemma_table_for_leaf_len_list(rs.drop_first(), ms.drop_first());
    }
}

/// A mapping tree whose flat leaves all land, in range, on cells carrying
/// the corresponding requested id can read the record: the per-leaf checked
/// downcast never fails.
proof fn lemma_table_valid_from(
    req: FetchRequest,
    mt: MappingTable,
    cells: Seq<CompCell>,
    ids: Seq<u64>,
)
    requires
        cells_ids(cells) == ids,
        table_for(req, mt),
        table_leaves(mt).len() == req_leaf_ids(req).len(),
        forall|k: int| 0 <= k < table_leaves(mt).len() ==> {
            let x = #[trigger] table_leaves(mt)[k];
            &&& 0 <= x < ids.len()
            &&& ids[x] == req_leaf_ids(req)[k]
        },
    ensures
        table_valid(req, mt, cells),
    decreases req,
{
    assert(cells.len() == ids.len());
    match req {
        FetchRequest::Unit { type_id, .. } => {
            let i = mt->Mapping_0;
            assert(table_leaves(mt)[0] == i as int);
            assert(req_leaf_ids(req)[0] == type_id);
            assert(cells_ids(cells)[i as int] == cells[i as int].type_id);
        },
        FetchRequest::Tuple(rs) => {
            lemma_table_valid_from_list(rs@, mt->Node_0@, cells, ids);
        },
    }
}

proof fn lemma_table_valid_from_list(
    rs: Seq<FetchRequest>,
    ms: Seq<MappingTable>,
    cells: Seq<CompCell>,
    ids: Seq<u64>,
)
    requires
        cells_ids(cells) == ids,
        rs.len() == ms.len(),
        forall|k: int| 0 <= k < rs.len() ==> table_for(#[trigger] rs[k], ms[k]),
        table_leaves_list(ms).len() == leaf_ids_list(rs).len(),
        forall|k: int| 0 <= k < table_leaves_list(ms).len() ==> {
            let x = #[trigger] table_leaves_list(ms)[k];
            &&& 0 <= x < ids.len()
            &&& ids[x] == leaf_ids_list(rs)[k]
        },
    ensures
        forall|k: int| 0 <= k < rs.len() ==> table_valid(#[trigger] rs[k], ms[k], cells),
    decreases rs,
{
    if rs.len() > 0 {
        let head_leaves = table_leaves(ms[0]);
        let head_ids = req_leaf_ids(rs[0]);
        let tail_leaves = table_leaves_list(ms.drop_first());
        let tail_ids = leaf_ids_list(rs.drop_first());
        assert(table_leaves_list(ms) == head_leaves + tail_leaves);
        assert(leaf_ids_list(rs) == head_ids + tail_ids);
        lemma_table_for_leaf_len(rs[0], ms[0]);
        assert forall|k: int| 0 <= k < head_leaves.len() implies {
            let x = #[trigger] head_leaves[k];
            &&& 0 <= x < ids.len()
            &&& ids[x] == head_ids[k]
        } by {
            assert(table_leaves_list(ms)[k] == head_leaves[k]);
            assert(leaf_ids_list(rs)[k] == head_ids[k]);
        }
        lemma_table_valid_from(rs[0], ms[0], cells, ids);
        assert forall|k: int| 0 <= k < rs.drop_first().len()
            implies table_for(#[trigger] rs.drop_first()[k], ms.drop_first()[k]) by {
            assert(rs.drop_first()[k] == rs[k + 1]);
        }
        lemma_table_for_leaf_len_list(rs.drop_first(), ms.drop_first());
        assert forall|k: int| 0 <= k < tail_leaves.len() implies {
            let x = #[trigger] tail_leaves[k];
            &&& 0 <= x < ids.len()
            &&& ids[x] == tail_ids[k]
        } by {
            assert(table_leaves_list(ms)[head_leaves.len() + k] == tail_leaves[k]);
            assert(leaf_ids_list(rs)[head_ids.len() + k] == tail_ids[k]);
        }
        lemma_table_valid_from_list(rs.drop_first(), ms.drop_first(), cells, ids);
        assert forall|k: int| 0 <= k < rs.len()
            implies table_valid(#[trigger] rs[k], ms[k], cells) by {
            if k > 0 {
                assert(table_valid(rs.drop_first()[k - 1], ms.drop_first()[k - 1], cells));
                assert(rs.drop_first()[k - 1] == rs[k]);
            }
        }
    }
}

/// A mapping tree resolved against a schema can read every record of that
/// schema: invariant (b) in action — the leaves are distinct physical
/// indices, each carrying the requested id, so `build` succeeds.
pub proof fn lemma_resolved_table_reads(
    req: FetchRequest,
    mt: MappingTable,
    cells: Seq<CompCell>,
    ids: Seq<u64>,
    avail: Seq<bool>,
)
    requires
        avail.len() == ids.len(),
        cells_ids(cells) == ids,
        seq_contain_ok(req_leaf_ids(req), ids, avail),
        table_for(req, mt),
        table_leaves(mt) == seq_contain_leaves(req_leaf_ids(req), ids, avail),
    ensures
        table_valid(req, mt, cells),
        table_leaves(mt).no_duplicates(),
{
    lemma_seq_contain_props(req_leaf_ids(req), ids, avail);
    lemma_table_valid_from(req, mt, cells, ids);
}

/// Round trip, end to end: a mapping tree resolved for a projection that
/// asks for a schema's components in the schema's own order is the identity
/// mapping, and it can read every record of the schema — so `build` hands
/// the record's cells back in their stored order, and decomposing the
/// reconstructed view equals the original erased-component sequence.
pub proof fn lemma_round_trip_view(
    req: FetchRequest,
    mt: MappingTable,
    cells: Seq<CompCell>,
    ids: Seq<u64>,
)
    requires
        ids.no_duplicates(),
        req_leaf_ids(req) == ids,
        cells_ids(cells) == ids,
        table_for(req, mt),
        table_leaves(mt) == seq_contain_leaves(req_leaf_ids(req), ids, full_avail(
            ids.len() as int,
        )),
    ensures
        table_valid(req, mt, cells),
        table_leaves(mt) == Seq::new(ids.len(), |k: int| k),
        forall|k: int| 0 <= k < ids.len() ==> cells[#[trigger] table_leaves(mt)[k]] == cells[k],
{
    lemma_round_trip(req, ids);
    lemma_resolved_table_reads(req, mt, cells, ids, full_avail(ids.len() as int));
}

/// A request list's leaf ids split at any point into the leaves of the two
/// parts.
pub proof fn lemma_leaf_ids_split(rs: Seq<FetchRequest>, at: int)
    requires
        0 <= at <= rs.len(),
    ensures
        leaf_ids_list(rs) == leaf_ids_list(rs.subrange(0, at))
            + leaf_ids_list(rs.subrange(at, rs.len() as int)),
        leaf_muts_list(rs) == leaf_muts_list(rs.subrange(0, at))
            + leaf_muts_list(rs.subrange(at, rs.len() as int)),
    decreases at,
{
    if at == 0 {
        assert(rs.subrange(0, 0) =~= Seq::<FetchRequest>::empty());
        assert(rs.subrange(0, rs.len() as int) =~= rs);
        assert(leaf_ids_list(rs.subrange(0, 0)) + leaf_ids_list(rs) =~= leaf_ids_list(rs));
        assert(leaf_muts_list(rs.subrange(0, 0)) + leaf_muts_list(rs) =~= leaf_muts_list(rs));
    } else {
        lemma_leaf_ids_split(rs, at - 1);
        assert(rs.subrange(0, at - 1).push(rs[at - 1]) =~= rs.subrange(0, at));
        lemma_leaf_ids_push(rs.subrange(0, at - 1), rs[at - 1]);
        let tail_prev = rs.subrange(at - 1, rs.len() as int);
        let tail_now = rs.subrange(at, rs.len() as int);
        assert(tail_prev.len() > 0);
        assert(tail_prev[0] == rs[at - 1]);
        assert(tail_prev.drop_first() =~= tail_now);
        assert(leaf_ids_list(rs.subrange(0, at)) + leaf_ids_list(tail_now)
            =~= leaf_ids_list(rs.subrange(0, at - 1))
                + (req_leaf_ids(rs[at - 1]) + leaf_ids_list(tail_now)));
        assert(leaf_muts_list(rs.subrange(0, at)) + leaf_muts_list(tail_now)
            =~= leaf_muts_list(rs.subrange(0, at - 1))
                + (req_leaf_muts(rs[at - 1]) + leaf_muts_list(tail_now)));
    }
}

} // verus!
