//! Erased components: each stored field of a record is a runtime type-tagged
//! cell, the pair of a stable component-type id and a payload value.

use vstd::prelude::*;

verus! {

/// Payload of one erased component. The store never inspects the payload;
/// it only moves it, so one carrier per primitive shape is enough.
#[derive(Debug, Clone, PartialEq, Eq)]
pub enum CompValue {
    Int(i64),
    Uint(u64),
    Flag(bool),
    Text(String),
    Unit,
}

/// One erased component: a stable component-type id plus its payload.
/// The id is what projections and predicates match on; a typed read checks
/// it again, defensively, before handing the payload out.
#[derive(Debug, Clone, PartialEq, Eq)]
pub struct CompCell {
    pub type_id: u64,
    pub value: CompValue,
}

impl CompCell {
    pub fn new(type_id: u64, value: CompValue) -> (r: CompCell)
        ensures
            r.type_id == type_id,
            r.value == value,
    {
        CompCell { type_id, value }
    }

    /// Cell holding a signed integer component.
    pub fn of_int(type_id: u64, v: i64) -> (r: CompCell)
        ensures
            r.type_id == type_id,
            r.value == CompValue::Int(v),
    {
        CompCell { type_id, value: CompValue::Int(v) }
    }

    /// Cell holding a text component.
    pub fn of_text(type_id: u64, v: String) -> (r: CompCell)
        ensures
            r.type_id == type_id,
            r.value == CompValue::Text(v),
    {
        CompCell { type_id, value: CompValue::Text(v) }
    }
}

/// The component-type ids of an erased record, in storage order.
pub open spec fn cells_ids(cells: Seq<CompCell>) -> Seq<u64> {
    cells.map_values(|c: CompCell| c.type_id)
}

/// Checks that a record's cells carry exactly the given component ids, in
/// order.
#[verifier::loop_isolation(false)]
pub fn cells_carry(ids: &Vec<u64>, cells: &Vec<CompCell>) -> (r: bool)
    ensures
        r == (cells_ids(cells@) == ids@),
{
    if ids.len() != cells.len() {
        proof {
            assert(cells_ids(cells@).len() == cells@.len());
        }
        return false;
    }
    let mut k: usize = 0;
    while k < ids.len()
        invariant
            ids@.len() == cells@.len(),
            k <= ids@.len(),
            forall|j: int| 0 <= j < k ==> (#[trigger] cells@[j]).type_id == ids@[j],
        decreases ids@.len() - k,
    {
        if cells[k].type_id != ids[k] {
            proof {
                assert(cells_ids(cells@)[k as int] == cells@[k as int].type_id);
            }
            return false;
        }
        k = k + 1;
    }
    proof {
        assert(cells_ids(cells@) =~= ids@);
    }
    true
}

} // verus!
