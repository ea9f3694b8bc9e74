//! Deferred store commands: a unit of work queues registrations, insertions
//! and removals while the round runs, and the single writer applies the
//! queue against the store afterwards. An operation that would break the
//! store's rules — a schema list with a repeated id, a record that does not
//! carry its schema — is skipped when the queue is applied.

use vstd::prelude::*;
use crate::component::{CompCell, cells_ids};
use crate::storage::Entity;
use crate::world::{World, register_post, remove_post, spawn_post};

verus! {

/// One queued store operation.
#[derive(Debug)]
pub enum CommandOp {
    /// Register a schema: its id and its component-id list.
    Register(u64, Vec<u64>),
    /// Place one record of a schema.
    Spawn(u64, Vec<u64>, Vec<CompCell>),
    /// Remove the record a handle addresses.
    Remove(Entity),
}

/// Whether the store, as it now stands, accepts an operation: a
/// registration with distinct ids; an insertion whose record carries its
/// schema, with address space left; a removal of a live handle.
pub open spec fn op_admissible(w: World, op: CommandOp) -> bool {
    match op {
        CommandOp::Register(_, ids) => ids@.no_duplicates(),
        CommandOp::Spawn(bundle_id, ids, rec) => {
            &&& ids@.no_duplicates()
            &&& cells_ids(rec@) == if w.has_meta(bundle_id) {
                w.schema_ids(bundle_id)
            } else {
                ids@
            }
            &&& w.chunks@.len() < (usize::MAX as int) / (w.capacity as int)
        },
        CommandOp::Remove(e) => {
            let cid = e.index as int / w.capacity as int;
            let local = e.index as int % w.capacity as int;
            &&& w.alive_spec(e) == Option::Some(true)
            &&& cid < w.chunks@.len()
            &&& w.chunks@[cid].occupied(local)
        },
    }
}

/// The whole effect of one queued operation: the registration, insertion or
/// removal it names, exactly as the store's own entry point performs it, or
/// nothing at all when the store refuses it.
pub open spec fn op_post(pre: World, post: World, op: CommandOp) -> bool {
    match op {
        CommandOp::Register(bundle_id, ids) => if op_admissible(pre, op) {
            register_post(pre, post, bundle_id, ids)
        } else {
            post == pre
        },
        CommandOp::Spawn(bundle_id, ids, rec) => if op_admissible(pre, op) {
            exists|e: Entity| #[trigger] spawn_post(pre, post, bundle_id, ids, rec, e)
        } else {
            post == pre
        },
        CommandOp::Remove(e) => remove_post(pre, post, e, op_admissible(pre, op)),
    }
}

/// The whole effect of a queue: each operation applied in order against the
/// store the earlier ones left, the admissible ones counted.
pub open spec fn ops_post(pre: World, post: World, ops: Seq<CommandOp>, applied: int) -> bool
    decreases ops,
{
    if ops.len() == 0 {
        post == pre && applied == 0
    } else {
        exists|mid: World|
            #[trigger] op_post(pre, mid, ops[0]) && ops_post(
                mid,
                post,
                ops.drop_first(),
                applied - if op_admissible(pre, ops[0]) {
                    1int
                } else {
                    0int
                },
            )
    }
}

/// One more applied operation extends the fold.
proof fn lemma_ops_post_push(
    pre: World,
    mid: World,
    post: World,
    ops: Seq<CommandOp>,
    applied: int,
    op: CommandOp,
    hit: bool,
)
    requires
        ops_post(pre, mid, ops, applied),
        op_post(mid, post, op),
        hit == op_admissible(mid, op),
    ensures
        ops_post(pre, post, ops.push(op), applied + if hit {
            1int
        } else {
            0int
        }),
    decreases ops,
{
    let ops2 = ops.push(op);
    if ops.len() == 0 {
        assert(mid == pre);
        assert(ops2[0] == op);
        assert(ops2.drop_first() =~= Seq::<CommandOp>::empty());
        assert(ops_post(post, post, ops2.drop_first(), 0));
        assert(op_post(pre, post, ops2[0]) && ops_post(
            post,
            post,
            ops2.drop_first(),
            (applied + if hit { 1int } else { 0int }) - if op_admissible(pre, ops2[0]) {
                1int
            } else {
                0int
            },
        ));
    } else {
        let mid1 = choose|mid1: World|
            #[trigger] op_post(pre, mid1, ops[0]) && ops_post(
                mid1,
                mid,
                ops.drop_first(),
                applied - if op_admissible(pre, ops[0]) {
                    1int
                } else {
                    0int
                },
            );
        lemma_ops_post_push(
            mid1,
            mid,
            post,
            ops.drop_first(),
            applied - if op_admissible(pre, ops[0]) {
                1int
            } else {
                0int
            },
            op,
            hit,
        );
        assert(ops2[0] == ops[0]);
        assert(ops2.drop_first() =~= ops.drop_first().push(op));
        assert(op_post(pre, mid1, ops2[0]) && ops_post(
            mid1,
            post,
            ops2.drop_first(),
            (applied + if hit { 1int } else { 0int }) - if op_admissible(pre, ops2[0]) {
                1int
            } else {
                0int
            },
        ));
    }
}

/// A queue of store operations, applied later by the single writer.
#[derive(Debug)]
pub struct Commands {
    /// The queued operations, in order.
    pub ops: Vec<CommandOp>,
}

impl Commands {
    pub fn new() -> (r: Commands)
        ensures
            r.ops@.len() == 0,
    {
        Commands { ops: Vec::new() }
    }

    /// Queues a schema registration.
    pub fn register(&mut self, bundle_id: u64, components_ids: Vec<u64>)
        ensures
            final(self).ops@ == old(self).ops@.push(
                CommandOp::Register(bundle_id, components_ids),
            ),
    {
        self.ops.push(CommandOp::Register(bundle_id, components_ids));
    }

    /// Queues one record insertion.
    pub fn spawn(&mut self, bundle_id: u64, components_ids: Vec<u64>, rec: Vec<CompCell>)
        ensures
            final(self).ops@ == old(self).ops@.push(
                CommandOp::Spawn(bundle_id, components_ids, rec),
            ),
    {
        self.ops.push(CommandOp::Spawn(bundle_id, components_ids, rec));
    }

    /// Queues one removal.
    pub fn remove(&mut self, entity: Entity)
        ensures
            final(self).ops@ == old(self).ops@.push(CommandOp::Remove(entity)),
    {
        self.ops.push(CommandOp::Remove(entity));
    }

    /// Applies the queued operations to the store, in order, each with the
    /// store's own effect — registration, insertion, removal — and empties
    /// the queue. An operation the store refuses — a schema list with
    /// repeated ids, a record that does not carry its target schema, an
    /// insertion past the store's addressable range, a dead handle — is
    /// skipped; the count of applied operations comes back.
    #[verifier::loop_isolation(false)]
    pub fn apply(&mut self, world: &mut World) -> (applied: usize)
        requires
            old(world).wf(),
        ensures
            final(world).wf(),
            final(self).ops@.len() == 0,
            ops_post(*old(world), *final(world), old(self).ops@, applied as int),
            applied <= old(self).ops@.len(),
    {
        let ghost pre = *old(world);
        let ghost ops0 = self.ops@;
        let mut applied: usize = 0;
        let n = self.ops.len();
        let mut k: usize = 0;
        while k < n
            invariant
                pre == *old(world),
                ops0 == old(self).ops@,
                world.wf(),
                n == self.ops@.len(),
                n == ops0.len(),
                k <= n,
                applied <= k,
                forall|k2: int| k <= k2 < n ==> #[trigger] self.ops@[k2] == ops0[k2],
                ops_post(pre, *world, ops0.subrange(0, k as int), applied as int),
            decreases n - k,
        {
            let mut op = CommandOp::Remove(Entity { generator: 0, index: 0 });
            self.ops.set_and_swap(k, &mut op);
            let ghost mid = *world;
            let ghost cur = ops0[k as int];
            let ghost applied_before = applied as int;
            let mut hit = false;
            match op {
                CommandOp::Register(bundle_id, ids) => {
                    if ids_distinct(&ids) {
                        world.register(bundle_id, ids);
                        applied = applied + 1;
                        hit = true;
                    }
                    proof {
                        assert(op_post(mid, *world, cur));
                        assert(hit == op_admissible(mid, cur));
                    }
                },
                CommandOp::Spawn(bundle_id, ids, rec) => {
                    let sound = ids_distinct(&ids) && {
                        let fits = match world.find_meta_index(bundle_id) {
                            Some(j) => crate::component::cells_carry(
                                &world.metas[j].components_ids,
                                &rec,
                            ),
                            None => crate::component::cells_carry(&ids, &rec),
                        };
                        fits
                    };
                    let roomy = world.chunks.len() < usize::MAX / world.capacity;
                    if sound && roomy {
                        proof {
                            let cap = world.capacity as int;
                            let len = world.chunks@.len() as int;
                            assert((len + 1) * cap <= usize::MAX) by (nonlinear_arith)
                                requires
                                    len < usize::MAX as int / cap,
                                    1 <= cap,
                                    len >= 0,
                            ;
                        }
                        let e = world.spawn(bundle_id, ids, rec);
                        applied = applied + 1;
                        hit = true;
                        proof {
                            assert(spawn_post(mid, *world, bundle_id, ids, rec, e));
                            assert(op_post(mid, *world, cur));
                            assert(hit == op_admissible(mid, cur));
                        }
                    } else {
                        proof {
                            assert(*world == mid);
                            assert(!op_admissible(mid, cur));
                            assert(op_post(mid, *world, cur));
                            assert(hit == op_admissible(mid, cur));
                        }
                    }
                },
                CommandOp::Remove(entity) => {
                    let removed = world.remove(entity);
                    if removed {
                        applied = applied + 1;
                        hit = true;
                    }
                    proof {
                        assert(remove_post(mid, *world, entity, removed));
                        assert(removed == op_admissible(mid, cur));
                        assert(op_post(mid, *world, cur));
                        assert(hit == op_admissible(mid, cur));
                    }
                },
            }
            proof {
                lemma_ops_post_push(
                    pre,
                    mid,
                    *world,
                    ops0.subrange(0, k as int),
                    applied_before,
                    cur,
                    hit,
                );
                assert(ops0.subrange(0, k as int).push(cur)
                    =~= ops0.subrange(0, k as int + 1));
            }
            k = k + 1;
        }
        proof {
            assert(ops0.subrange(0, n as int) =~= ops0);
        }
        self.ops.clear();
        applied
    }
}

/// Whether an id list holds no id twice.
#[verifier::loop_isolation(false)]
pub fn ids_distinct(ids: &Vec<u64>) -> (r: bool)
    ensures
        r == ids@.no_duplicates(),
{
    let mut k: usize = 0;
    while k < ids.len()
        invariant
            k <= ids@.len(),
            forall|i: int, j: int| 0 <= i < j < ids@.len() && j < k ==> ids@[i] != ids@[j],
        decreases ids@.len() - k,
    {
        let mut i: usize = 0;
        while i < k
            invariant
                k < ids@.len(),
                i <= k,
                forall|i0: int| 0 <= i0 < i ==> ids@[i0] != ids@[k as int],
            decreases k - i,
        {
            if ids[i] == ids[k] {
                return false;
            }
            i = i + 1;
        }
        k = k + 1;
    }
    true
}

} // verus!
