//! Storage segments: fixed-capacity blocks of erased records with a parallel
//! generation array (top bit: occupied; low bits: reuse count) and a free-list
//! stack, plus the generation-tagged handles that address their slots.

use vstd::prelude::*;
use crate::component::CompCell;

verus! {

/// How many records one segment holds by default.
pub const CHUNK_SIZE: usize = 1024;

/// Top bit of a generation word: set while the slot is occupied.
pub const ALIVE_TAG: u64 = 0x8000_0000_0000_0000;

/// Generation-tagged handle to one stored record: a global slot index
/// (segment ordinal times capacity, plus the local slot) and the generation
/// word the slot carried when the record was put there. The handle is valid
/// exactly while the slot still carries that word.
#[derive(Debug, Clone, Copy, PartialEq, Eq, Structural)]
pub struct Entity {
    /// Generation word copied from the segment at insertion time.
    pub generator: u64,
    /// Global slot index of the record.
    pub index: usize,
}

impl Entity {
    pub fn new(generator: u64, index: usize) -> (r: Entity)
        ensures
            r.generator == generator,
            r.index == index,
    {
        Entity { generator, index }
    }

    /// Rebases a segment-local handle to the global index space, given the
    /// segment's ordinal and the store's segment capacity.
    pub fn sync(self, chunk_id: usize, capacity: usize) -> (r: Entity)
        requires
            self.index + chunk_id * capacity <= usize::MAX,
        ensures
            r.generator == self.generator,
            r.index == self.index + chunk_id * capacity,
    {
        Entity { generator: self.generator, index: self.index + chunk_id * capacity }
    }
}

/// Fixed-capacity storage segment for one record schema. Slot `i` holds an
/// erased record in `bundles[i]`; `alive[i]` is its generation word (top bit:
/// occupied, low bits: how often the slot has been reused); `removed` is the
/// free-list stack of cleared slots.
#[derive(Debug)]
pub struct Chunk {
    /// Erased records, one per allocated slot.
    pub bundles: Vec<Vec<CompCell>>,
    /// Generation word per allocated slot.
    pub alive: Vec<u64>,
    /// Free-list stack: slots cleared by `remove`, ready for reuse.
    pub removed: Vec<usize>,
    /// Ordinal of this segment in the store.
    pub index: usize,
    /// How many slots this segment may allocate.
    pub capacity: usize,
    /// Schema id of the records this segment owns.
    pub bundle_id: u64,
}

impl Chunk {
    /// Slot `i` currently holds a record.
    pub open spec fn occupied(self, i: int) -> bool {
        self.alive@[i] >= ALIVE_TAG
    }

    /// Structural invariant of a segment.
    pub open spec fn wf(self) -> bool {
        &&& 1 <= self.capacity
        &&& self.alive@.len() == self.bundles@.len()
        &&& self.bundles@.len() <= self.capacity
        &&& (self.index + 1) * self.capacity <= usize::MAX
        &&& self.removed@.no_duplicates()
        &&& forall|k: int| 0 <= k < self.removed@.len()
                ==> #[trigger] self.removed@[k] < self.bundles@.len()
        &&& forall|i: int| 0 <= i < self.alive@.len()
                ==> (#[trigger] self.alive@[i] < ALIVE_TAG <==> self.removed@.contains(i as usize))
        &&& forall|i: int| 0 <= i < self.alive@.len() && self.alive@[i] < ALIVE_TAG
                ==> #[trigger] self.bundles@[i]@.len() == 0
    }

    /// The handle addressing slot `i` under its current generation word.
    pub open spec fn slot_entity(self, i: int) -> Entity {
        Entity {
            generator: self.alive@[i],
            index: (self.index * self.capacity + i) as usize,
        }
    }

    /// The free-list's top slot can be reused without exhausting its
    /// generation counter.
    pub open spec fn can_reuse(self) -> bool {
        &&& self.removed@.len() > 0
        &&& self.alive@[self.removed@.last() as int] + ALIVE_TAG + 1 <= u64::MAX
    }

    /// An insertion will find a slot: either unallocated capacity remains or
    /// the free list offers a reusable slot.
    pub open spec fn has_room(self) -> bool {
        self.bundles@.len() < self.capacity || self.can_reuse()
    }

    /// Validity of a handle against this segment alone: `None` when the
    /// handle does not address an allocated slot of this segment, otherwise
    /// whether its generation word still matches.
    pub open spec fn alive_spec(self, e: Entity) -> Option<bool> {
        if e.index as int / self.capacity as int != self.index {
            Option::None
        } else if e.index as int % self.capacity as int >= self.alive@.len() {
            Option::None
        } else {
            Option::Some(self.alive@[e.index as int % self.capacity as int] == e.generator)
        }
    }

    pub fn new(idx: usize) -> (r: Chunk)
        requires
            (idx + 1) * CHUNK_SIZE <= usize::MAX,
        ensures
            r.wf(),
            r.bundles@.len() == 0,
            r.alive@.len() == 0,
            r.removed@.len() == 0,
            r.index == idx,
            r.capacity == CHUNK_SIZE,
            r.bundle_id == 0,
    {
        Chunk {
            bundles: Vec::new(),
            alive: Vec::new(),
            removed: Vec::new(),
            index: idx,
            capacity: CHUNK_SIZE,
            bundle_id: 0,
        }
    }

    /// Segment for a given schema, ordinal and capacity; the store uses this
    /// when it allocates a segment lazily.
    pub fn for_schema(idx: usize, bundle_id: u64, capacity: usize) -> (r: Chunk)
        requires
            1 <= capacity,
            (idx + 1) * capacity <= usize::MAX,
        ensures
            r.wf(),
            r.bundles@.len() == 0,
            r.alive@.len() == 0,
            r.removed@.len() == 0,
            r.index == idx,
            r.capacity == capacity,
            r.bundle_id == bundle_id,
    {
        Chunk {
            bundles: Vec::new(),
            alive: Vec::new(),
            removed: Vec::new(),
            index: idx,
            capacity,
            bundle_id,
        }
    }

    /// Tri-state validity of a handle: `None` when the handle does not point
    /// into this segment's allocated slots, otherwise whether its generation
    /// still matches the slot's word.
    pub fn alive(&self, entity: Entity) -> (r: Option<bool>)
        requires
            self.wf(),
        ensures
            r == self.alive_spec(entity),
    {
        if entity.index / self.capacity != self.index {
            return None;
        }
        let local = entity.index % self.capacity;
        if local >= self.alive.len() {
            return None;
        }
        Some(self.alive[local] == entity.generator)
    }

    /// How many more records fit: unallocated slots plus the free list.
    pub fn free(&self) -> (r: usize)
        requires
            self.wf(),
        ensures
            r == self.capacity - self.bundles@.len() + self.removed@.len(),
    {
        proof {
            self.lemma_removed_bounded();
        }
        self.capacity - self.bundles.len() + self.removed.len()
    }

    /// The free list never holds more entries than there are allocated slots.
    proof fn lemma_removed_bounded(self)
        requires
            self.wf(),
        ensures
            self.removed@.len() <= self.bundles@.len(),
    {
        let ints = self.removed@.map_values(|x: usize| x as int);
        assert(ints.no_duplicates());
        ints.unique_seq_to_set();
        assert(ints.to_set().subset_of(vstd::set_lib::set_int_range(0, self.bundles@.len() as int)))
        by {
            assert forall|x: int| ints.to_set().contains(x)
                implies vstd::set_lib::set_int_range(0, self.bundles@.len() as int).contains(x) by {
                let k = choose|k: int| 0 <= k < ints.len() && ints[k] == x;
                assert(self.removed@[k] < self.bundles@.len());
            }
        }
        vstd::set_lib::lemma_int_range(0, self.bundles@.len() as int);
        vstd::set_lib::lemma_len_subset(
            ints.to_set(),
            vstd::set_lib::set_int_range(0, self.bundles@.len() as int),
        );
    }

    /// Tries to place one erased record. A slot is appended while unallocated
    /// capacity remains; otherwise the top of the free list is reused, its
    /// generation word raised by the occupied flag plus one, so every handle
    /// issued earlier for that slot mismatches from then on. When the segment
    /// is full (or the only offered free slot has exhausted its generation
    /// counter) the record is handed back untouched.
    pub fn insert(&mut self, rec: Vec<CompCell>) -> (r: Result<Entity, Vec<CompCell>>)
        requires
            old(self).wf(),
        ensures
            final(self).wf(),
            final(self).index == old(self).index,
            final(self).capacity == old(self).capacity,
            final(self).bundle_id == old(self).bundle_id,
            old(self).bundles@.len() < old(self).capacity ==> {
                &&& r == Result::<Entity, Vec<CompCell>>::Ok(
                    Entity {
                        generator: ALIVE_TAG,
                        index: (old(self).index * old(self).capacity
                            + old(self).bundles@.len()) as usize,
                    },
                )
                &&& final(self).bundles@ =~= old(self).bundles@.push(rec)
                &&& final(self).alive@ =~= old(self).alive@.push(ALIVE_TAG)
                &&& final(self).removed@ == old(self).removed@
            },
            old(self).bundles@.len() == old(self).capacity && old(self).can_reuse() ==> {
                let slot = old(self).removed@.last() as int;
                let gen = (old(self).alive@[slot] + ALIVE_TAG + 1) as u64;
                &&& r == Result::<Entity, Vec<CompCell>>::Ok(
                    Entity {
                        generator: gen,
                        index: (old(self).index * old(self).capacity + slot) as usize,
                    },
                )
                &&& final(self).bundles@ =~= old(self).bundles@.update(slot, rec)
                &&& final(self).alive@ =~= old(self).alive@.update(slot, gen)
                &&& final(self).removed@ == old(self).removed@.drop_last()
            },
            !old(self).has_room() ==> {
                &&& r == Result::<Entity, Vec<CompCell>>::Err(rec)
                &&& final(self).bundles@ == old(self).bundles@
                &&& final(self).alive@ == old(self).alive@
                &&& final(self).removed@ == old(self).removed@
            },
    {
        if self.bundles.len() < self.capacity {
            proof {
                assert(self.index * self.capacity + self.bundles@.len() < usize::MAX)
                    by (nonlinear_arith)
                    requires
                        (self.index + 1) * self.capacity <= usize::MAX,
                        self.bundles@.len() < self.capacity,
                ;
                assert forall|k: int| 0 <= k < self.removed@.len()
                    implies #[trigger] self.removed@[k] != self.bundles@.len() by {}
                assert(!self.removed@.contains(self.bundles@.len() as usize));
            }
            let entity = Entity {
                generator: ALIVE_TAG,
                index: self.index * self.capacity + self.bundles.len(),
            };
            self.bundles.push(rec);
            self.alive.push(ALIVE_TAG);
            return Ok(entity);
        }
        match self.removed.last() {
            Some(last) => {
                let slot: usize = *last;
                if self.alive[slot] <= u64::MAX - ALIVE_TAG - 1 {
                    proof {
                        assert(self.index * self.capacity + slot < usize::MAX)
                            by (nonlinear_arith)
                            requires
                                (self.index + 1) * self.capacity <= usize::MAX,
                                slot < self.capacity,
                        ;
                        let s = self.removed@;
                        assert forall|i: int|
                            0 <= i < s.drop_last().len()
                            implies #[trigger] s.drop_last()[i] != slot as usize by {
                            assert(s[i] == s.drop_last()[i]);
                            assert(s[s.len() - 1] == slot as usize);
                        }
                    }
                    self.removed.pop();
                    let gen = self.alive[slot] + ALIVE_TAG + 1;
                    self.alive.set(slot, gen);
                    self.bundles.set(slot, rec);
                    let entity = Entity {
                        generator: gen,
                        index: self.index * self.capacity + slot,
                    };
                    proof {
                        let pre = old(self);
                        let s = pre.removed@;
                        assert(self.removed@ =~= s.drop_last());
                        assert forall|i: int| 0 <= i < self.alive@.len()
                            implies (#[trigger] self.alive@[i] < ALIVE_TAG
                                <==> self.removed@.contains(i as usize)) by {
                            if i == slot {
                                assert(!s.drop_last().contains(slot as usize));
                            } else {
                                assert(pre.alive@[i] == self.alive@[i]);
                                if s.drop_last().contains(i as usize) {
                                    let k = choose|k: int|
                                        0 <= k < s.drop_last().len()
                                            && s.drop_last()[k] == i as usize;
                                    assert(s[k] == i as usize);
                                    assert(s.contains(i as usize));
                                }
                                if s.contains(i as usize) {
                                    let k = choose|k: int| 0 <= k < s.len() && s[k] == i as usize;
                                    assert(k < s.len() - 1);
                                    assert(s.drop_last()[k] == i as usize);
                                    assert(s.drop_last().contains(i as usize));
                                }
                            }
                        }
                    }
                    Ok(entity)
                } else {
                    Err(rec)
                }
            },
            None => Err(rec),
        }
    }

    /// Whether an insertion would find a slot here.
    pub fn room(&self) -> (r: bool)
        requires
            self.wf(),
        ensures
            r == self.has_room(),
    {
        if self.bundles.len() < self.capacity {
            return true;
        }
        match self.removed.last() {
            Some(last) => self.alive[*last] <= u64::MAX - ALIVE_TAG - 1,
            None => false,
        }
    }

    /// Clears the slot a valid handle addresses: drops the record, strips the
    /// occupied flag from the generation word and pushes the slot on the free
    /// list. Returns whether the handle was valid; an invalid or foreign
    /// handle leaves the segment untouched. Storage never shifts, so every
    /// other handle stays as it was.
    pub fn remove(&mut self, entity: Entity) -> (r: bool)
        requires
            old(self).wf(),
        ensures
            final(self).wf(),
            final(self).index == old(self).index,
            final(self).capacity == old(self).capacity,
            final(self).bundle_id == old(self).bundle_id,
            r == (old(self).alive_spec(entity) == Option::Some(true)
                && old(self).occupied(entity.index as int % old(self).capacity as int)),
            !r ==> {
                &&& final(self).bundles@ == old(self).bundles@
                &&& final(self).alive@ == old(self).alive@
                &&& final(self).removed@ == old(self).removed@
            },
            r ==> {
                let local = entity.index as int % old(self).capacity as int;
                &&& final(self).alive@ =~= old(self).alive@.update(
                    local,
                    (old(self).alive@[local] - ALIVE_TAG) as u64,
                )
                &&& final(self).bundles@.len() == old(self).bundles@.len()
                &&& final(self).bundles@[local]@.len() == 0
                &&& forall|j: int| 0 <= j < old(self).bundles@.len() && j != local
                        ==> #[trigger] final(self).bundles@[j] == old(self).bundles@[j]
                &&& final(self).removed@ == old(self).removed@.push(local as usize)
            },
    {
        let valid = match self.alive(entity) {
            Some(v) => v,
            None => false,
        };
        if !valid {
            return false;
        }
        let local = entity.index % self.capacity;
        if self.alive[local] < ALIVE_TAG {
            // The handle matched a cleared slot's word: it was issued before
            // the slot was ever occupied, which insert never does.
            return false;
        }
        let word = self.alive[local] - ALIVE_TAG;
        self.alive.set(local, word);
        self.bundles.set(local, Vec::new());
        self.removed.push(local);
        proof {
            let pre = old(self);
            assert(!pre.removed@.contains(local));
            assert forall|i: int| 0 <= i < self.alive@.len()
                implies (#[trigger] self.alive@[i] < ALIVE_TAG
                    <==> self.removed@.contains(i as usize)) by {
                if i == local {
                    assert(self.removed@[self.removed@.len() - 1] == local);
                } else {
                    if pre.removed@.contains(i as usize) {
                        let k = choose|k: int|
                            0 <= k < pre.removed@.len() && pre.removed@[k] == i as usize;
                        assert(self.removed@[k] == i as usize);
                    }
                    if self.removed@.contains(i as usize) {
                        let k = choose|k: int|
                            0 <= k < self.removed@.len() && self.removed@[k] == i as usize;
                        assert(k < pre.removed@.len());
                        assert(pre.removed@[k] == i as usize);
                    }
                }
            }
        }
        true
    }

    /// Clears an occupied slot as `remove` does, but hands the record back
    /// instead of dropping it.
    pub fn remove_vul(&mut self, index: usize) -> (r: Vec<CompCell>)
        requires
            old(self).wf(),
            index < old(self).bundles@.len(),
            old(self).occupied(index as int),
        ensures
            final(self).wf(),
            final(self).index == old(self).index,
            final(self).capacity == old(self).capacity,
            final(self).bundle_id == old(self).bundle_id,
            r == old(self).bundles@[index as int],
            final(self).alive@ =~= old(self).alive@.update(
                index as int,
                (old(self).alive@[index as int] - ALIVE_TAG) as u64,
            ),
            final(self).bundles@.len() == old(self).bundles@.len(),
            final(self).bundles@[index as int]@.len() == 0,
            forall|j: int| 0 <= j < old(self).bundles@.len() && j != index
                    ==> #[trigger] final(self).bundles@[j] == old(self).bundles@[j],
            final(self).removed@ == old(self).removed@.push(index),
    {
        let mut taken: Vec<CompCell> = Vec::new();
        self.bundles.set_and_swap(index, &mut taken);
        let word = self.alive[index] - ALIVE_TAG;
        self.alive.set(index, word);
        self.removed.push(index);
        proof {
            let pre = old(self);
            assert(!pre.removed@.contains(index));
            assert forall|i: int| 0 <= i < self.alive@.len()
                implies (#[trigger] self.alive@[i] < ALIVE_TAG
                    <==> self.removed@.contains(i as usize)) by {
                if i == index {
                    assert(self.removed@[self.removed@.len() - 1] == index);
                } else {
                    if pre.removed@.contains(i as usize) {
                        let k = choose|k: int|
                            0 <= k < pre.removed@.len() && pre.removed@[k] == i as usize;
                        assert(self.removed@[k] == i as usize);
                    }
                    if self.removed@.contains(i as usize) {
                        let k = choose|k: int|
                            0 <= k < self.removed@.len() && self.removed@[k] == i as usize;
                        assert(k < pre.removed@.len());
                        assert(pre.removed@[k] == i as usize);
                    }
                }
            }
        }
        taken
    }

    /// Overwrites one cell of the record in an occupied slot, in place; the
    /// generation word is untouched, so every handle keeps its standing.
    pub fn write_cell(&mut self, index: usize, pos: usize, cell: CompCell)
        requires
            old(self).wf(),
            index < old(self).bundles@.len(),
            old(self).occupied(index as int),
            pos < old(self).bundles@[index as int]@.len(),
        ensures
            final(self).wf(),
            final(self).index == old(self).index,
            final(self).capacity == old(self).capacity,
            final(self).bundle_id == old(self).bundle_id,
            final(self).alive@ == old(self).alive@,
            final(self).removed@ == old(self).removed@,
            final(self).bundles@.len() == old(self).bundles@.len(),
            final(self).bundles@[index as int]@ == old(self).bundles@[index as int]@.update(
                pos as int,
                cell,
            ),
            forall|j: int| 0 <= j < old(self).bundles@.len() && j != index
                ==> #[trigger] final(self).bundles@[j] == old(self).bundles@[j],
    {
        let rec = &mut self.bundles[index];
        rec.set(pos, cell);
    }

    /// Overwrites the record in an occupied slot in place. Identity persists
    /// through a replacement: the generation word is left untouched, so
    /// handles to the slot stay valid.
    pub fn replace(&mut self, index: usize, rec: Vec<CompCell>)
        requires
            old(self).wf(),
            index < old(self).bundles@.len(),
            old(self).occupied(index as int),
        ensures
            final(self).wf(),
            final(self).index == old(self).index,
            final(self).capacity == old(self).capacity,
            final(self).bundle_id == old(self).bundle_id,
            final(self).bundles@ =~= old(self).bundles@.update(index as int, rec),
            final(self).alive@ == old(self).alive@,
            final(self).removed@ == old(self).removed@,
    {
        self.bundles.set(index, rec);
    }

    /// The handle currently addressing slot `index`.
    pub fn gen_entity(&self, index: usize) -> (r: Entity)
        requires
            self.wf(),
            index < self.alive@.len(),
        ensures
            r == self.slot_entity(index as int),
    {
        proof {
            assert(self.index * self.capacity + index <= usize::MAX) by (nonlinear_arith)
                requires
                    (self.index + 1) * self.capacity <= usize::MAX,
                    index < self.capacity,
                    1 <= self.capacity,
            ;
        }
        Entity { generator: self.alive[index], index: self.index * self.capacity + index }
    }

    /// The records of the occupied slots at or after `from`, in slot order.
    pub open spec fn live_records_from(self, from: int) -> Seq<Vec<CompCell>>
        decreases self.bundles@.len() - from,
    {
        if from < 0 || from >= self.bundles@.len() {
            Seq::empty()
        } else if self.occupied(from) {
            seq![self.bundles@[from]] + self.live_records_from(from + 1)
        } else {
            self.live_records_from(from + 1)
        }
    }

    /// Moves every live record out, in slot order, leaving the occupancy
    /// flags as they are; the store uses this at teardown so the caller can
    /// run the records' destructors exactly once.
    pub fn clear(&mut self) -> (r: Vec<Vec<CompCell>>)
        requires
            old(self).wf(),
        ensures
            final(self).wf(),
            final(self).index == old(self).index,
            final(self).capacity == old(self).capacity,
            final(self).bundle_id == old(self).bundle_id,
            final(self).alive@ == old(self).alive@,
            final(self).removed@ == old(self).removed@,
            final(self).bundles@.len() == old(self).bundles@.len(),
            forall|j: int| 0 <= j < final(self).bundles@.len()
                ==> #[trigger] final(self).bundles@[j]@.len() == 0,
            r@ == old(self).live_records_from(0),
    {
        let mut out: Vec<Vec<CompCell>> = Vec::new();
        let mut i: usize = 0;
        while i < self.bundles.len()
            invariant
                old(self).wf(),
                self.wf(),
                i <= self.bundles@.len(),
                self.index == old(self).index,
                self.capacity == old(self).capacity,
                self.bundle_id == old(self).bundle_id,
                self.alive@ == old(self).alive@,
                self.removed@ == old(self).removed@,
                self.bundles@.len() == old(self).bundles@.len(),
                forall|j: int| 0 <= j < i ==> #[trigger] self.bundles@[j]@.len() == 0,
                forall|j: int| i <= j < self.bundles@.len()
                    ==> #[trigger] self.bundles@[j] == old(self).bundles@[j],
                out@ + old(self).live_records_from(i as int) =~= old(self).live_records_from(0),
            decreases self.bundles@.len() - i,
        {
            if self.alive[i] >= ALIVE_TAG {
                let mut taken: Vec<CompCell> = Vec::new();
                self.bundles.set_and_swap(i, &mut taken);
                out.push(taken);
            }
            i = i + 1;
        }
        out
    }
}

impl Chunk {
    /// A fresh walk over this segment's live records.
    pub fn iter(&self) -> (r: ChunkIter<'_>)
        ensures
            r.chunk == self,
            r.index == 0,
    {
        ChunkIter { chunk: self, index: 0 }
    }
}

/// Lazy, restartable walk over the live records of one segment, skipping
/// unoccupied slots.
pub struct ChunkIter<'a> {
    /// The segment being walked.
    pub chunk: &'a Chunk,
    /// Next slot to look at.
    pub index: usize,
}

impl<'a> ChunkIter<'a> {
    /// The first occupied slot at or after `from`, or the slot count when
    /// none is left.
    pub open spec fn first_live(c: Chunk, from: int) -> int
        decreases c.bundles@.len() - from,
    {
        if from < 0 || from >= c.bundles@.len() {
            c.bundles@.len() as int
        } else if c.occupied(from) {
            from
        } else {
            Self::first_live(c, from + 1)
        }
    }

    /// What the live-slot search returns: a slot at or after `from`, in
    /// range and occupied when one exists.
    pub proof fn lemma_first_live_props(c: Chunk, from: int)
        ensures
            Self::first_live(c, from) <= c.bundles@.len(),
            Self::first_live(c, from) < c.bundles@.len() ==> {
                &&& 0 <= Self::first_live(c, from)
                &&& from <= Self::first_live(c, from)
                &&& c.occupied(Self::first_live(c, from))
            },
        decreases c.bundles@.len() - from,
    {
        if 0 <= from < c.bundles@.len() && !c.occupied(from) {
            Self::lemma_first_live_props(c, from + 1);
        }
    }

    pub fn new(chunk: &'a Chunk) -> (r: ChunkIter<'a>)
        ensures
            r.chunk == chunk,
            r.index == 0,
    {
        ChunkIter { chunk, index: 0 }
    }

    /// Hands out the next live record, if any, and steps past it.
    pub fn next(&mut self) -> (r: Option<&'a Vec<CompCell>>)
        requires
            old(self).chunk.wf(),
        ensures
            final(self).chunk == old(self).chunk,
            r is Some ==> final(self).index > old(self).index,
            ({
                let j = Self::first_live(*old(self).chunk, old(self).index as int);
                if j < old(self).chunk.bundles@.len() {
                    &&& r == Option::Some(&old(self).chunk.bundles@[j])
                    &&& final(self).index == j + 1
                } else {
                    &&& r is None
                    &&& final(self).index == old(self).chunk.bundles@.len()
                }
            }),
    {
        while self.index < self.chunk.bundles.len() && self.chunk.alive[self.index] < ALIVE_TAG
            invariant
                self.chunk.wf(),
                self.chunk == old(self).chunk,
                old(self).index <= self.index,
                Self::first_live(*self.chunk, old(self).index as int)
                    == Self::first_live(*self.chunk, self.index as int),
                self.index <= self.chunk.bundles@.len() || self.index == old(self).index,
            decreases self.chunk.bundles@.len() - self.index,
        {
            self.index = self.index + 1;
        }
        if self.index < self.chunk.bundles.len() {
            let r = Some(&self.chunk.bundles[self.index]);
            self.index = self.index + 1;
            r
        } else {
            self.index = self.chunk.bundles.len();
            None
        }
    }
}

} // verus!
