//! Global singleton values, kept in a type-keyed slot map: one slot per
//! stable type id, each holding at most one erased value. A slot handle can
//! be taken out, read, written and put back by the single execution context
//! that owns the store for a round.

use vstd::prelude::*;
use crate::component::CompValue;

verus! {

/// Owned handle to one singleton slot: the value, or an empty slot.
#[derive(Debug)]
pub struct Res {
    /// The slot's current value, if any.
    pub inner: Option<CompValue>,
}

impl Res {
    pub fn new(inner: Option<CompValue>) -> (r: Res)
        ensures
            r.inner == inner,
    {
        Res { inner }
    }

    /// Read access to the value, if present.
    pub fn get(&self) -> (r: Option<&CompValue>)
        ensures
            match r {
                Option::Some(v) => self.inner == Option::Some(*v),
                Option::None => self.inner is None,
            },
    {
        match &self.inner {
            Some(v) => Some(v),
            None => None,
        }
    }

    /// Write access to the value, if present.
    pub fn get_mut(&mut self) -> (r: Option<&mut CompValue>)
        ensures
            old(self).inner is None ==> r is None && final(self).inner is None,
            old(self).inner matches Option::Some(v) ==> {
                &&& r matches Option::Some(m) && *m == v
                    && final(self).inner == Option::Some(*final(m))
            },
    {
        match &mut self.inner {
            Some(v) => Some(v),
            None => None,
        }
    }

    /// The value, initialising the slot first when it is empty.
    pub fn get_or_init(&mut self, value: CompValue) -> (r: &CompValue)
        ensures
            old(self).inner is None ==> final(self).inner == Option::Some(value),
            old(self).inner matches Option::Some(v) ==> final(self).inner == Option::Some(v),
            final(self).inner == Option::Some(*r),
    {
        if self.inner.is_none() {
            self.inner = Some(value);
        }
        match &self.inner {
            Some(v) => v,
            None => {
                proof {
                    assert(false);
                }
                &self.inner.as_ref().unwrap()
            },
        }
    }

    /// Takes the value out, leaving the slot empty.
    pub fn take(&mut self) -> (r: Option<CompValue>)
        ensures
            r == old(self).inner,
            final(self).inner is None,
    {
        self.inner.take()
    }

    /// Drops the value, leaving the slot empty.
    pub fn remove(&mut self)
        ensures
            final(self).inner is None,
    {
        self.inner = None;
    }
}

/// First slot with the given type id, or the slot count when there is none.
pub open spec fn find_slot(slots: Seq<(u64, Option<CompValue>)>, id: u64, from: int) -> int
    decreases slots.len() - from,
{
    if from < 0 || from >= slots.len() {
        slots.len() as int
    } else if slots[from].0 == id {
        from
    } else {
        find_slot(slots, id, from + 1)
    }
}

/// What the slot search returns: the first slot with the id, nothing
/// matching before it.
pub proof fn lemma_find_slot_props(slots: Seq<(u64, Option<CompValue>)>, id: u64, from: int)
    requires
        0 <= from <= slots.len(),
    ensures
        from <= find_slot(slots, id, from) <= slots.len(),
        find_slot(slots, id, from) < slots.len() ==> slots[find_slot(slots, id, from)].0 == id,
        forall|i: int| from <= i < find_slot(slots, id, from) ==> slots[i].0 != id,
    decreases slots.len() - from,
{
    if from < slots.len() && slots[from].0 != id {
        lemma_find_slot_props(slots, id, from + 1);
    }
}

/// The type-keyed slot map of singleton values.
#[derive(Debug)]
pub struct Resources {
    /// One slot per declared type id.
    pub slots: Vec<(u64, Option<CompValue>)>,
}

impl Resources {
    /// Each type id owns at most one slot.
    pub open spec fn wf(self) -> bool {
        forall|i: int, j: int| 0 <= i < j < self.slots@.len()
            ==> (#[trigger] self.slots@[i]).0 != (#[trigger] self.slots@[j]).0
    }

    /// Whether a slot for this id exists, and where.
    pub open spec fn slot_idx(self, id: u64) -> int {
        find_slot(self.slots@, id, 0)
    }

    pub open spec fn has_slot(self, id: u64) -> bool {
        self.slot_idx(id) < self.slots@.len()
    }

    /// The value stored for this id, if a slot exists and is filled.
    pub open spec fn value_of(self, id: u64) -> Option<CompValue> {
        if self.has_slot(id) {
            self.slots@[self.slot_idx(id)].1
        } else {
            Option::None
        }
    }

    pub fn new() -> (r: Resources)
        ensures
            r.wf(),
            r.slots@.len() == 0,
    {
        Resources { slots: Vec::new() }
    }

    /// Index of the slot for this id, if one exists.
    #[verifier::loop_isolation(false)]
    fn index_of(&self, id: u64) -> (r: Option<usize>)
        ensures
            match r {
                Option::Some(k) => k == self.slot_idx(id) && k < self.slots@.len(),
                Option::None => !self.has_slot(id),
            },
    {
        let mut k: usize = 0;
        while k < self.slots.len()
            invariant
                k <= self.slots@.len(),
                find_slot(self.slots@, id, 0) == find_slot(self.slots@, id, k as int),
            decreases self.slots@.len() - k,
        {
            if self.slots[k].0 == id {
                return Some(k);
            }
            k = k + 1;
        }
        None
    }

    /// Whether a value is stored for this id.
    pub fn contain(&self, id: u64) -> (r: bool)
        ensures
            r == self.has_slot(id),
    {
        self.index_of(id).is_some()
    }

    /// Makes an empty slot for this id if none exists yet.
    pub fn new_res(&mut self, id: u64)
        requires
            old(self).wf(),
        ensures
            final(self).wf(),
            final(self).has_slot(id),
            old(self).has_slot(id) ==> final(self).slots == old(self).slots,
            !old(self).has_slot(id) ==> final(self).slots@ == old(self).slots@.push(
                (id, Option::<CompValue>::None),
            ),
            forall|other: u64| other != id
                ==> final(self).value_of(other) == old(self).value_of(other),
            final(self).value_of(id) == old(self).value_of(id),
    {
        if self.index_of(id).is_none() {
            proof {
                lemma_find_slot_props(old(self).slots@, id, 0);
            }
            self.slots.push((id, None));
            proof {
                lemma_find_slot_push(old(self).slots@, id, id);
                assert forall|i: int, j: int| 0 <= i < j < self.slots@.len()
                    implies (#[trigger] self.slots@[i]).0 != (#[trigger] self.slots@[j]).0 by {
                    if j == self.slots@.len() - 1 {
                        assert(old(self).slots@[i].0 != id);
                    }
                }
                assert forall|other: u64| other != id
                    implies self.value_of(other) == old(self).value_of(other) by {
                    lemma_find_slot_push(old(self).slots@, other, id);
                    if old(self).has_slot(other) {
                        lemma_find_slot_props(old(self).slots@, other, 0);
                    }
                }
            }
        }
    }

    /// Read access to the value stored for this id.
    pub fn get_res(&self, id: u64) -> (r: Option<&CompValue>)
        ensures
            match r {
                Option::Some(v) => self.value_of(id) == Option::Some(*v),
                Option::None => self.value_of(id) is None,
            },
    {
        match self.index_of(id) {
            Some(k) => match &self.slots[k].1 {
                Some(v) => Some(v),
                None => None,
            },
            None => None,
        }
    }

    /// Write access in store-and-swap form: stores a value for this id,
    /// creating the slot if need be, and hands back what the slot held
    /// before. The plain lookup lives in `get_res`, `take_res`/`put_res`
    /// and `Res::get_mut`.
    pub fn get_res_mut(&mut self, id: u64, value: CompValue) -> (r: Option<CompValue>)
        requires
            old(self).wf(),
        ensures
            final(self).wf(),
            r == old(self).value_of(id),
            final(self).value_of(id) == Option::Some(value),
            forall|other: u64| other != id
                ==> final(self).value_of(other) == old(self).value_of(other),
    {
        self.new_res(id);
        let k = match self.index_of(id) {
            Some(k) => k,
            None => {
                proof {
                    assert(false);
                }
                0
            },
        };
        let ghost mid = *self;
        let mut taken: (u64, Option<CompValue>) = (id, Some(value));
        self.slots.set_and_swap(k, &mut taken);
        proof {
            lemma_find_slot_props(mid.slots@, id, 0);
            lemma_slot_swap_frames(mid, *self, k as int, id);
        }
        taken.1
    }

    /// Removes and returns the value stored for this id; its slot stays.
    pub fn take_res(&mut self, id: u64) -> (r: Res)
        requires
            old(self).wf(),
        ensures
            final(self).wf(),
            r.inner == old(self).value_of(id),
            final(self).has_slot(id) == old(self).has_slot(id),
            final(self).value_of(id) is None,
            forall|other: u64| other != id
                ==> final(self).value_of(other) == old(self).value_of(other),
    {
        match self.index_of(id) {
            Some(k) => {
                let ghost mid = *self;
                let mut taken: (u64, Option<CompValue>) = (id, None);
                self.slots.set_and_swap(k, &mut taken);
                proof {
                    lemma_find_slot_props(mid.slots@, id, 0);
                    lemma_slot_swap_frames(mid, *self, k as int, id);
                }
                Res { inner: taken.1 }
            },
            None => Res { inner: None },
        }
    }

    /// Puts a handle's value back into the slot for this id.
    pub fn put_res(&mut self, id: u64, res: Res)
        requires
            old(self).wf(),
        ensures
            final(self).wf(),
            final(self).value_of(id) == res.inner,
            forall|other: u64| other != id
                ==> final(self).value_of(other) == old(self).value_of(other),
    {
        self.new_res(id);
        let k = match self.index_of(id) {
            Some(k) => k,
            None => {
                proof {
                    assert(false);
                }
                0
            },
        };
        let ghost mid = *self;
        let mut taken: (u64, Option<CompValue>) = (id, res.inner);
        self.slots.set_and_swap(k, &mut taken);
        proof {
            lemma_find_slot_props(mid.slots@, id, 0);
            lemma_slot_swap_frames(mid, *self, k as int, id);
        }
    }
}

/// Replacing the value in the slot that `slot_idx(id)` names, keeping its
/// id, leaves the map well-formed, every search in place, and every other
/// id's value untouched.
proof fn lemma_slot_swap_frames(pre: Resources, post: Resources, at: int, id: u64)
    requires
        pre.wf(),
        pre.slots@.len() == post.slots@.len(),
        0 <= at < pre.slots@.len(),
        at == pre.slot_idx(id),
        pre.slots@[at].0 == id,
        post.slots@[at].0 == id,
        forall|i: int| 0 <= i < pre.slots@.len() && i != at ==> post.slots@[i] == pre.slots@[i],
    ensures
        post.wf(),
        post.slot_idx(id) == at,
        post.value_of(id) == post.slots@[at].1,
        forall|other: u64| other != id ==> post.value_of(other) == pre.value_of(other),
{
    assert forall|i: int, j: int| 0 <= i < j < post.slots@.len()
        implies (#[trigger] post.slots@[i]).0 != (#[trigger] post.slots@[j]).0 by {
        assert(post.slots@[i].0 == pre.slots@[i].0);
        assert(post.slots@[j].0 == pre.slots@[j].0);
    }
    lemma_find_slot_update(pre.slots@, post.slots@, at, id);
    assert forall|other: u64| other != id
        implies post.value_of(other) == pre.value_of(other) by {
        lemma_find_slot_update(pre.slots@, post.slots@, at, other);
        if pre.has_slot(other) {
            lemma_find_slot_props(pre.slots@, other, 0);
            assert(pre.slots@[pre.slot_idx(other)].0 == other);
            assert(pre.slot_idx(other) != at);
        }
    }
}

/// Appending a slot with a fresh id moves no existing slot and the search
/// for any other id is unchanged.
proof fn lemma_find_slot_push(slots: Seq<(u64, Option<CompValue>)>, id: u64, added: u64)
    ensures
        id != added ==> find_slot(slots.push((added, Option::None)), id, 0)
            == if find_slot(slots, id, 0) < slots.len() {
                find_slot(slots, id, 0)
            } else {
                (slots.len() + 1) as int
            },
        id == added ==> find_slot(slots.push((added, Option::None)), id, 0)
            == if find_slot(slots, id, 0) < slots.len() {
                find_slot(slots, id, 0)
            } else {
                slots.len() as int
            },
{
    lemma_find_slot_push_from(slots, id, added, 0);
}

proof fn lemma_find_slot_push_from(
    slots: Seq<(u64, Option<CompValue>)>,
    id: u64,
    added: u64,
    from: int,
)
    requires
        0 <= from <= slots.len(),
    ensures
        id != added ==> find_slot(slots.push((added, Option::None)), id, from)
            == if find_slot(slots, id, from) < slots.len() {
                find_slot(slots, id, from)
            } else {
                (slots.len() + 1) as int
            },
        id == added ==> find_slot(slots.push((added, Option::None)), id, from)
            == if find_slot(slots, id, from) < slots.len() {
                find_slot(slots, id, from)
            } else {
                slots.len() as int
            },
    decreases slots.len() - from,
{
    if from < slots.len() {
        assert(slots.push((added, Option::None))[from] == slots[from]);
        if slots[from].0 != id {
            lemma_find_slot_push_from(slots, id, added, from + 1);
        }
    } else {
        assert(slots.push((added, Option::None))[from].0 == added);
        assert(find_slot(slots.push((added, Option::None)), id, (slots.len() + 1) as int)
            == slots.len() + 1);
    }
}

/// Updating one slot in place, id kept, leaves every search where it was.
proof fn lemma_find_slot_update(
    pre: Seq<(u64, Option<CompValue>)>,
    post: Seq<(u64, Option<CompValue>)>,
    at: int,
    id: u64,
)
    requires
        pre.len() == post.len(),
        0 <= at < pre.len(),
        post[at].0 == pre[at].0,
        forall|i: int| 0 <= i < pre.len() && i != at ==> post[i] == pre[i],
    ensures
        find_slot(post, id, 0) == find_slot(pre, id, 0),
{
    lemma_find_slot_update_from(pre, post, at, id, 0);
}

proof fn lemma_find_slot_update_from(
    pre: Seq<(u64, Option<CompValue>)>,
    post: Seq<(u64, Option<CompValue>)>,
    at: int,
    id: u64,
    from: int,
)
    requires
        pre.len() == post.len(),
        0 <= at < pre.len(),
        0 <= from <= pre.len(),
        post[at].0 == pre[at].0,
        forall|i: int| 0 <= i < pre.len() && i != at ==> post[i] == pre[i],
    ensures
        find_slot(post, id, from) == find_slot(pre, id, from),
    decreases pre.len() - from,
{
    if from < pre.len() {
        if pre[from].0 != id {
            lemma_find_slot_update_from(pre, post, at, id, from + 1);
        }
    }
}

} // verus!
