//! Predicate engine: boolean tests over a schema's component-id set. A
//! predicate asks that the schema hold all of some ids, any of them, or none,
//! and a group of predicates holds when all its members do; the empty group
//! is vacuously true.

use vstd::prelude::*;

verus! {

/// Every id of `ids` occurs in `schema`.
pub open spec fn all_in(ids: Seq<u64>, schema: Seq<u64>) -> bool {
    forall|k: int| 0 <= k < ids.len() ==> schema.contains(#[trigger] ids[k])
}

/// At least one id of `ids` occurs in `schema`.
pub open spec fn any_in(ids: Seq<u64>, schema: Seq<u64>) -> bool {
    exists|k: int| 0 <= k < ids.len() && schema.contains(#[trigger] ids[k])
}

/// No id of `ids` occurs in `schema`.
pub open spec fn none_in(ids: Seq<u64>, schema: Seq<u64>) -> bool {
    forall|k: int| 0 <= k < ids.len() ==> !schema.contains(#[trigger] ids[k])
}

/// A predicate over a schema's component-id list.
#[derive(Debug, PartialEq, Eq)]
pub enum FilterExpr {
    /// Holds when every listed id is in the schema.
    All(Vec<u64>),
    /// Holds when at least one listed id is in the schema.
    AnyOf(Vec<u64>),
    /// Holds when no listed id is in the schema.
    Not(Vec<u64>),
    /// Holds when every member predicate holds; vacuously true when empty.
    Group(Vec<FilterExpr>),
}

/// What a predicate means over a schema's component-id list.
pub open spec fn filter_holds(f: FilterExpr, schema: Seq<u64>) -> bool
    decreases f,
{
    match f {
        FilterExpr::All(ids) => all_in(ids@, schema),
        FilterExpr::AnyOf(ids) => any_in(ids@, schema),
        FilterExpr::Not(ids) => none_in(ids@, schema),
        FilterExpr::Group(gs) => forall|k: int|
            0 <= k < gs@.len() ==> filter_holds(#[trigger] gs@[k], schema),
    }
}

/// Structural equality of two predicates.
pub open spec fn filter_eq(a: FilterExpr, b: FilterExpr) -> bool
    decreases a,
{
    match (a, b) {
        (FilterExpr::All(x), FilterExpr::All(y)) => x@ == y@,
        (FilterExpr::AnyOf(x), FilterExpr::AnyOf(y)) => x@ == y@,
        (FilterExpr::Not(x), FilterExpr::Not(y)) => x@ == y@,
        (FilterExpr::Group(x), FilterExpr::Group(y)) => {
            &&& x@.len() == y@.len()
            &&& forall|k: int| 0 <= k < x@.len() ==> filter_eq(#[trigger] x@[k], y@[k])
        },
        _ => false,
    }
}

/// Structural equality of predicates is reflexive.
pub proof fn lemma_filter_eq_refl(a: FilterExpr)
    ensures
        filter_eq(a, a),
    decreases a,
{
    match a {
        FilterExpr::Group(gs) => {
            assert forall|k: int| 0 <= k < gs@.len()
                implies filter_eq(#[trigger] gs@[k], gs@[k]) by {
                lemma_filter_eq_refl(gs@[k]);
            }
        },
        _ => {},
    }
}

/// Structurally equal predicates mean the same thing on every schema.
pub proof fn lemma_filter_eq_holds(a: FilterExpr, b: FilterExpr, schema: Seq<u64>)
    requires
        filter_eq(a, b),
    ensures
        filter_holds(a, schema) == filter_holds(b, schema),
    decreases a,
{
    match (a, b) {
        (FilterExpr::Group(x), FilterExpr::Group(y)) => {
            assert forall|k: int| 0 <= k < x@.len()
                implies filter_holds(#[trigger] x@[k], schema) == filter_holds(y@[k], schema) by {
                lemma_filter_eq_holds(x@[k], y@[k], schema);
            }
            if filter_holds(a, schema) {
                assert forall|k: int| 0 <= k < y@.len()
                    implies filter_holds(#[trigger] y@[k], schema) by {
                    assert(filter_holds(x@[k], schema));
                }
            }
            if filter_holds(b, schema) {
                assert forall|k: int| 0 <= k < x@.len()
                    implies filter_holds(#[trigger] x@[k], schema) by {
                    assert(filter_holds(y@[k], schema));
                }
            }
        },
        _ => {},
    }
}

/// Whether `v` holds `id`.
#[verifier::loop_isolation(false)]
pub fn contains_id(v: &Vec<u64>, id: u64) -> (r: bool)
    ensures
        r == v@.contains(id),
{
    let mut k: usize = 0;
    while k < v.len()
        invariant
            k <= v@.len(),
            forall|j: int| 0 <= j < k ==> v@[j] != id,
        decreases v@.len() - k,
    {
        if v[k] == id {
            return true;
        }
        k = k + 1;
    }
    false
}

/// Whether every id of `ids` occurs in `schema`.
#[verifier::loop_isolation(false)]
pub fn holds_all(ids: &Vec<u64>, schema: &Vec<u64>) -> (r: bool)
    ensures
        r == all_in(ids@, schema@),
{
    let mut k: usize = 0;
    while k < ids.len()
        invariant
            k <= ids@.len(),
            forall|j: int| 0 <= j < k ==> schema@.contains(#[trigger] ids@[j]),
        decreases ids@.len() - k,
    {
        if !contains_id(schema, ids[k]) {
            return false;
        }
        k = k + 1;
    }
    true
}

/// Whether at least one id of `ids` occurs in `schema`.
#[verifier::loop_isolation(false)]
pub fn holds_any(ids: &Vec<u64>, schema: &Vec<u64>) -> (r: bool)
    ensures
        r == any_in(ids@, schema@),
{
    let mut k: usize = 0;
    while k < ids.len()
        invariant
            k <= ids@.len(),
            forall|j: int| 0 <= j < k ==> !schema@.contains(#[trigger] ids@[j]),
        decreases ids@.len() - k,
    {
        if contains_id(schema, ids[k]) {
            return true;
        }
        k = k + 1;
    }
    false
}

/// Whether no id of `ids` occurs in `schema`.
#[verifier::loop_isolation(false)]
pub fn holds_none(ids: &Vec<u64>, schema: &Vec<u64>) -> (r: bool)
    ensures
        r == none_in(ids@, schema@),
{
    let mut k: usize = 0;
    while k < ids.len()
        invariant
            k <= ids@.len(),
            forall|j: int| 0 <= j < k ==> !schema@.contains(#[trigger] ids@[j]),
        decreases ids@.len() - k,
    {
        if contains_id(schema, ids[k]) {
            return false;
        }
        k = k + 1;
    }
    true
}

/// Evaluates a predicate against a schema's component-id list.
#[verifier::loop_isolation(false)]
pub fn pass(f: &FilterExpr, schema: &Vec<u64>) -> (r: bool)
    ensures
        r == filter_holds(*f, schema@),
    decreases *f,
{
    match f {
        FilterExpr::All(ids) => holds_all(ids, schema),
        FilterExpr::AnyOf(ids) => holds_any(ids, schema),
        FilterExpr::Not(ids) => holds_none(ids, schema),
        FilterExpr::Group(gs) => {
            let mut k: usize = 0;
            while k < gs.len()
                invariant
                    k <= gs@.len(),
                    forall|j: int| 0 <= j < k ==> filter_holds(#[trigger] gs@[j], schema@),
                decreases gs@.len() - k,
            {
                proof {
                    assert(decreases_to!(*f => f->Group_0));
                    assert(decreases_to!(f->Group_0 => gs@[k as int]));
                    assert(decreases_to!(*f => gs@[k as int]));
                }
                if !pass(&gs[k], schema) {
                    return false;
                }
                k = k + 1;
            }
            true
        },
    }
}

/// Whether two id lists are the same, element for element.
#[verifier::loop_isolation(false)]
pub fn ids_eq(a: &Vec<u64>, b: &Vec<u64>) -> (r: bool)
    ensures
        r == (a@ == b@),
{
    if a.len() != b.len() {
        proof {
            assert(a@.len() != b@.len());
        }
        return false;
    }
    let mut k: usize = 0;
    while k < a.len()
        invariant
            a@.len() == b@.len(),
            k <= a@.len(),
            forall|j: int| 0 <= j < k ==> a@[j] == b@[j],
        decreases a@.len() - k,
    {
        if a[k] != b[k] {
            return false;
        }
        k = k + 1;
    }
    proof {
        assert(a@ =~= b@);
    }
    true
}

/// Whether two predicates are structurally equal.
#[verifier::loop_isolation(false)]
pub fn filter_expr_eq(a: &FilterExpr, b: &FilterExpr) -> (r: bool)
    ensures
        r == filter_eq(*a, *b),
    decreases *a,
{
    match (a, b) {
        (FilterExpr::All(x), FilterExpr::All(y)) => ids_eq(x, y),
        (FilterExpr::AnyOf(x), FilterExpr::AnyOf(y)) => ids_eq(x, y),
        (FilterExpr::Not(x), FilterExpr::Not(y)) => ids_eq(x, y),
        (FilterExpr::Group(x), FilterExpr::Group(y)) => {
            if x.len() != y.len() {
                return false;
            }
            let mut k: usize = 0;
            while k < x.len()
                invariant
                    x@.len() == y@.len(),
                    k <= x@.len(),
                    forall|j: int| 0 <= j < k ==> filter_eq(#[trigger] x@[j], y@[j]),
                decreases x@.len() - k,
            {
                proof {
                    assert(decreases_to!(*a => a->Group_0));
                    assert(decreases_to!(a->Group_0 => x@[k as int]));
                    assert(decreases_to!(*a => x@[k as int]));
                }
                if !filter_expr_eq(&x[k], &y[k]) {
                    return false;
                }
                k = k + 1;
            }
            true
        },
        _ => false,
    }
}

/// A structurally equal copy of a predicate, for keying a cache.
#[verifier::loop_isolation(false)]
pub fn filter_clone(f: &FilterExpr) -> (r: FilterExpr)
    ensures
        filter_eq(*f, r),
    decreases *f,
{
    match f {
        FilterExpr::All(ids) => FilterExpr::All(ids.clone()),
        FilterExpr::AnyOf(ids) => FilterExpr::AnyOf(ids.clone()),
        FilterExpr::Not(ids) => FilterExpr::Not(ids.clone()),
        FilterExpr::Group(gs) => {
            let mut out: Vec<FilterExpr> = Vec::new();
            let mut k: usize = 0;
            while k < gs.len()
                invariant
                    k <= gs@.len(),
                    out@.len() == k,
                    forall|j: int| 0 <= j < k ==> filter_eq(#[trigger] gs@[j], out@[j]),
                decreases gs@.len() - k,
            {
                proof {
                    assert(decreases_to!(*f => f->Group_0));
                    assert(decreases_to!(f->Group_0 => gs@[k as int]));
                    assert(decreases_to!(*f => gs@[k as int]));
                }
                let c = filter_clone(&gs[k]);
                out.push(c);
                k = k + 1;
            }
            FilterExpr::Group(out)
        },
    }
}

/// The set semantics of the three primitive predicates: ALL is inclusion of
/// the requested ids in the schema, ANY is a non-empty intersection, NONE an
/// empty one; the empty predicate group holds vacuously.
pub proof fn lemma_filter_set_semantics(ids: Seq<u64>, empty_group: Vec<FilterExpr>, schema: Seq<u64>)
    requires
        empty_group@.len() == 0,
    ensures
        all_in(ids, schema) <==> ids.to_set().subset_of(schema.to_set()),
        any_in(ids, schema) <==> !(ids.to_set().intersect(schema.to_set()) =~= Set::<u64>::empty()),
        none_in(ids, schema) <==> ids.to_set().intersect(schema.to_set()) =~= Set::<u64>::empty(),
        filter_holds(FilterExpr::Group(empty_group), schema),
{
    broadcast use vstd::set::group_set_axioms;

    assert(all_in(ids, schema) <==> ids.to_set().subset_of(schema.to_set())) by {
        if all_in(ids, schema) {
            assert forall|x: u64| ids.to_set().contains(x)
                implies schema.to_set().contains(x) by {
                let k = choose|k: int| 0 <= k < ids.len() && ids[k] == x;
                assert(schema.contains(ids[k]));
            }
        }
        if ids.to_set().subset_of(schema.to_set()) {
            assert forall|k: int| 0 <= k < ids.len()
                implies schema.contains(#[trigger] ids[k]) by {
                assert(ids.to_set().contains(ids[k]));
                assert(schema.to_set().contains(ids[k]));
            }
        }
    }
    assert(any_in(ids, schema)
        <==> !(ids.to_set().intersect(schema.to_set()) =~= Set::<u64>::empty())) by {
        if any_in(ids, schema) {
            let k = choose|k: int| 0 <= k < ids.len() && schema.contains(#[trigger] ids[k]);
            assert(ids.to_set().contains(ids[k]));
            assert(schema.to_set().contains(ids[k]));
            assert(ids.to_set().intersect(schema.to_set()).contains(ids[k]));
        }
        if !(ids.to_set().intersect(schema.to_set()) =~= Set::<u64>::empty()) {
            let x = choose|x: u64| ids.to_set().intersect(schema.to_set()).contains(x);
            assert(ids.to_set().contains(x));
            assert(schema.to_set().contains(x));
            let k = choose|k: int| 0 <= k < ids.len() && ids[k] == x;
            assert(0 <= k < ids.len() && schema.contains(ids[k]));
        }
    }
    assert(none_in(ids, schema)
        <==> ids.to_set().intersect(schema.to_set()) =~= Set::<u64>::empty()) by {
        if none_in(ids, schema) {
            assert forall|x: u64|
                !ids.to_set().intersect(schema.to_set()).contains(x) by {
                if ids.to_set().contains(x) && schema.to_set().contains(x) {
                    let k = choose|k: int| 0 <= k < ids.len() && ids[k] == x;
                    assert(!schema.contains(ids[k]));
                    assert(schema.contains(x));
                }
            }
        }
        if ids.to_set().intersect(schema.to_set()) =~= Set::<u64>::empty() {
            assert forall|k: int| 0 <= k < ids.len()
                implies !schema.contains(#[trigger] ids[k]) by {
                if schema.contains(ids[k]) {
                    assert(ids.to_set().contains(ids[k]));
                    assert(schema.to_set().contains(ids[k]));
                    assert(ids.to_set().intersect(schema.to_set()).contains(ids[k]));
                }
            }
        }
    }
}

/// Passes the schemas whose component set includes every listed id.
#[derive(Debug)]
pub struct All {
    pub ids: Vec<u64>,
}

impl All {
    pub fn new(ids: Vec<u64>) -> (r: All)
        ensures
            r.ids == ids,
    {
        All { ids }
    }

    pub fn filter(&self, components_ids: &Vec<u64>) -> (r: bool)
        ensures
            r == all_in(self.ids@, components_ids@),
    {
        holds_all(&self.ids, components_ids)
    }
}

/// Passes the schemas whose component set meets the listed ids.
#[derive(Debug)]
pub struct AnyOf {
    pub ids: Vec<u64>,
}

impl AnyOf {
    pub fn new(ids: Vec<u64>) -> (r: AnyOf)
        ensures
            r.ids == ids,
    {
        AnyOf { ids }
    }

    pub fn filter(&self, components_ids: &Vec<u64>) -> (r: bool)
        ensures
            r == any_in(self.ids@, components_ids@),
    {
        holds_any(&self.ids, components_ids)
    }

    pub fn pass(&self, components_ids: &Vec<u64>) -> (r: bool)
        ensures
            r == any_in(self.ids@, components_ids@),
    {
        holds_any(&self.ids, components_ids)
    }
}

/// Passes the schemas whose component set avoids every listed id.
#[derive(Debug)]
pub struct Not {
    pub ids: Vec<u64>,
}

impl Not {
    pub fn new(ids: Vec<u64>) -> (r: Not)
        ensures
            r.ids == ids,
    {
        Not { ids }
    }

    pub fn filter(&self, components_ids: &Vec<u64>) -> (r: bool)
        ensures
            r == none_in(self.ids@, components_ids@),
    {
        holds_none(&self.ids, components_ids)
    }
}

/// Passes the schemas whose component set includes every listed id.
#[derive(Debug)]
pub struct With {
    pub ids: Vec<u64>,
}

impl With {
    pub fn new(ids: Vec<u64>) -> (r: With)
        ensures
            r.ids == ids,
    {
        With { ids }
    }

    pub fn pass(&self, components_ids: &Vec<u64>) -> (r: bool)
        ensures
            r == all_in(self.ids@, components_ids@),
    {
        holds_all(&self.ids, components_ids)
    }
}

/// Passes the schemas whose component set avoids every listed id.
#[derive(Debug)]
pub struct WithOut {
    pub ids: Vec<u64>,
}

impl WithOut {
    pub fn new(ids: Vec<u64>) -> (r: WithOut)
        ensures
            r.ids == ids,
    {
        WithOut { ids }
    }

    pub fn pass(&self, components_ids: &Vec<u64>) -> (r: bool)
        ensures
            r == none_in(self.ids@, components_ids@),
    {
        holds_none(&self.ids, components_ids)
    }
}

} // verus!
