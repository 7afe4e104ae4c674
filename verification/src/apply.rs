//! The meaning of queued commands, and the flush that applies them.
//!
//! `apply_one` is the mathematical semantics of a single command against the
//! store; a flush applies the whole queue as the left fold of `apply_one`
//! over the commands in enqueue order. Before touching the store, the flush
//! validates every entity reference: a command may only reference an entity
//! that is live in the store or was reserved by this queue. If any command
//! fails that check the whole queue is discarded, the store is left
//! untouched, and the flush reports the stale reference.

use vstd::prelude::*;

use crate::command::Command;
use crate::command::CommandV;
use crate::consistency::lemma_attach_all;
use crate::consistency::lemma_ensure_all;
use crate::consistency::lemma_ensure_rec;
use crate::consistency::lemma_set_bundle;
use crate::consistency::lemma_set_comp;
use crate::consistency::lemma_spawn_all;
use crate::types::Entity;
use crate::world::World;
use crate::world::WorldV;

verus! {

/// The error a flush reports when a queued command references an entity that
/// is neither live in the store nor reserved by the flushing queue — most
/// commonly an entity despawned between enqueue and flush. The flush applies
/// nothing and discards the queue.
#[derive(Clone, Copy, PartialEq, Eq, Structural, Debug)]
pub struct StaleEntityReference {
    pub entity: Entity,
}

/// The already-known entities a command references: the entities it must
/// find at flush time, as opposed to those it spawns itself.
pub open spec fn cmd_refs(cmd: CommandV) -> Seq<Entity> {
    match cmd {
        CommandV::Insert { entity, component } => seq![entity],
        CommandV::InsertBundle { entity, bundle } => seq![entity],
        CommandV::AddChild { parent, child } => seq![parent, child],
        CommandV::PushChildren { parent, children } => seq![parent] + children,
        CommandV::SpawnChildBatch { parent, bundles } => seq![parent],
    }
}

/// A referenced entity is acceptable at flush time if it is live in the
/// store or its id was reserved by the flushing queue's window.
pub open spec fn ref_ok(e: Entity, w: WorldV, base: u64, next: u64) -> bool {
    w.has(e) || (base <= e.id < next)
}

/// Every entity the command references is acceptable.
pub open spec fn cmd_ok(cmd: CommandV, w: WorldV, base: u64, next: u64) -> bool {
    forall|i: int|
        0 <= i < cmd_refs(cmd).len() ==> ref_ok(#[trigger] cmd_refs(cmd)[i], w, base, next)
}

/// Every command of the queue references only acceptable entities.
pub open spec fn all_ok(q: Seq<CommandV>, w: WorldV, base: u64, next: u64) -> bool {
    forall|i: int| 0 <= i < q.len() ==> cmd_ok(#[trigger] q[i], w, base, next)
}

/// Whether some command of the queue references the entity.
pub open spec fn queue_mentions(q: Seq<CommandV>, e: Entity) -> bool {
    exists|i: int| 0 <= i < q.len() && cmd_refs(#[trigger] q[i]).contains(e)
}

/// How many entities the command spawns at flush time.
pub open spec fn batch_len(cmd: CommandV) -> int {
    match cmd {
        CommandV::SpawnChildBatch { parent, bundles } => bundles.len() as int,
        _ => 0,
    }
}

/// How many entities the whole queue spawns at flush time.
pub open spec fn total_batch(q: Seq<CommandV>) -> int
    decreases q.len(),
{
    if q.len() == 0 {
        0
    } else {
        total_batch(q.drop_last()) + batch_len(q.last())
    }
}

/// Every entity the command references has an id below `n`.
pub open spec fn cmd_ids_below(cmd: CommandV, n: u64) -> bool {
    forall|i: int| 0 <= i < cmd_refs(cmd).len() ==> (#[trigger] cmd_refs(cmd)[i]).id < n
}

/// The store with its allocation mark raised to at least `n`.
pub open spec fn sync_mark(w: WorldV, n: u64) -> WorldV {
    WorldV {
        records: w.records,
        next_id: if n > w.next_id {
            n
        } else {
            w.next_id
        },
    }
}

/// The store after one command: referenced entities are brought to life
/// where missing, then the command's mutation is applied.
pub open spec fn apply_one(w: WorldV, cmd: CommandV) -> WorldV {
    match cmd {
        CommandV::Insert { entity, component } => w.ensure_rec(entity).set_comp(
            entity,
            component,
        ),
        CommandV::InsertBundle { entity, bundle } => w.ensure_rec(entity).set_bundle_comps(
            entity,
            bundle,
        ),
        CommandV::AddChild { parent, child } => w.ensure_rec(parent).ensure_rec(child).attach(
            parent,
            child,
        ),
        CommandV::PushChildren { parent, children } => w.ensure_rec(parent).ensure_all(
            children,
        ).attach_all(parent, children),
        CommandV::SpawnChildBatch { parent, bundles } => {
            let w1 = w.ensure_rec(parent);
            w1.spawn_all(bundles).attach_all(parent, w1.batch_ids(bundles.len() as int))
        },
    }
}

/// The store after a whole queue, applied in enqueue order.
pub open spec fn apply_all(w: WorldV, q: Seq<CommandV>) -> WorldV
    decreases q.len(),
{
    if q.len() == 0 {
        w
    } else {
        apply_one(apply_all(w, q.drop_last()), q.last())
    }
}

/// A queue never spawns a negative number of entities, and a prefix never
/// spawns more than the whole queue.
pub proof fn lemma_total_batch_bounds(q: Seq<CommandV>, i: int)
    requires
        0 <= i <= q.len(),
    ensures
        0 <= total_batch(q.take(i)) <= total_batch(q),
        total_batch(q.take(q.len() as int)) == total_batch(q),
        i < q.len() ==> total_batch(q.take(i + 1)) == total_batch(q.take(i)) + batch_len(q[i]),
    decreases q.len() - i,
{
    lemma_total_batch_nonneg(q.take(i));
    if i < q.len() {
        assert(q.take(i + 1).drop_last() =~= q.take(i));
        assert(q.take(i + 1).last() == q[i]);
        lemma_total_batch_bounds(q, i + 1);
    } else {
        assert(q.take(i) =~= q);
        lemma_total_batch_nonneg(q);
    }
}

/// Spawning counts are never negative.
pub proof fn lemma_total_batch_nonneg(q: Seq<CommandV>)
    ensures
        total_batch(q) >= 0,
    decreases q.len(),
{
    if q.len() > 0 {
        lemma_total_batch_nonneg(q.drop_last());
    }
}

/// One command keeps the store invariant, raises the allocation mark by
/// exactly the number of entities it spawns, and never removes an entity.
pub proof fn lemma_apply_one(w: WorldV, cmd: CommandV)
    requires
        w.wf(),
        cmd_ids_below(cmd, w.next_id),
        w.next_id + batch_len(cmd) <= u64::MAX,
    ensures
        apply_one(w, cmd).wf(),
        apply_one(w, cmd).next_id == w.next_id + batch_len(cmd),
        forall|x: Entity| w.has(x) ==> #[trigger] apply_one(w, cmd).has(x),
{
    match cmd {
        CommandV::Insert { entity, component } => {
            assert(cmd_refs(cmd)[0] == entity);
            lemma_ensure_rec(w, entity);
            lemma_set_comp(w.ensure_rec(entity), entity, component);
        },
        CommandV::InsertBundle { entity, bundle } => {
            assert(cmd_refs(cmd)[0] == entity);
            lemma_ensure_rec(w, entity);
            lemma_set_bundle(w.ensure_rec(entity), entity, bundle);
        },
        CommandV::AddChild { parent, child } => {
            assert(cmd_refs(cmd)[0] == parent);
            assert(cmd_refs(cmd)[1] == child);
            lemma_ensure_rec(w, parent);
            let w1 = w.ensure_rec(parent);
            lemma_ensure_rec(w1, child);
            let w2 = w1.ensure_rec(child);
            crate::consistency::lemma_attach(w2, parent, child);
        },
        CommandV::PushChildren { parent, children } => {
            assert(cmd_refs(cmd)[0] == parent);
            lemma_ensure_rec(w, parent);
            let w1 = w.ensure_rec(parent);
            assert forall|i: int|
                0 <= i < children.len() implies (#[trigger] children[i]).id < w1.next_id by {
                assert(cmd_refs(cmd)[i + 1] == children[i]);
            }
            lemma_ensure_all(w1, children);
            let w2 = w1.ensure_all(children);
            assert forall|i: int| 0 <= i < children.len() implies w2.has(
                #[trigger] children[i],
            ) by {}
            lemma_attach_all(w2, parent, children);
        },
        CommandV::SpawnChildBatch { parent, bundles } => {
            assert(cmd_refs(cmd)[0] == parent);
            lemma_ensure_rec(w, parent);
            let w1 = w.ensure_rec(parent);
            lemma_spawn_all(w1, bundles);
            let w2 = w1.spawn_all(bundles);
            let ids = w1.batch_ids(bundles.len() as int);
            assert forall|i: int| 0 <= i < ids.len() implies w2.has(#[trigger] ids[i]) by {
                assert(w1.batch_ids(bundles.len() as int)[i] == ids[i]);
            }
            lemma_attach_all(w2, parent, ids);
        },
    }
}

/// A whole queue keeps the store invariant, raises the allocation mark by
/// exactly the number of entities it spawns, and never removes an entity.
pub proof fn lemma_apply_all(w: WorldV, q: Seq<CommandV>)
    requires
        w.wf(),
        forall|i: int| 0 <= i < q.len() ==> cmd_ids_below(#[trigger] q[i], w.next_id),
        w.next_id + total_batch(q) <= u64::MAX,
    ensures
        apply_all(w, q).wf(),
        apply_all(w, q).next_id == w.next_id + total_batch(q),
        forall|x: Entity| w.has(x) ==> #[trigger] apply_all(w, q).has(x),
    decreases q.len(),
{
    if q.len() > 0 {
        let init = q.drop_last();
        assert forall|i: int|
            0 <= i < init.len() implies cmd_ids_below(#[trigger] init[i], w.next_id) by {
            assert(init[i] == q[i]);
        }
        lemma_total_batch_nonneg(init);
        assert(batch_len(q.last()) >= 0);
        lemma_apply_all(w, init);
        let w1 = apply_all(w, init);
        assert(cmd_ids_below(q.last(), w1.next_id)) by {
            assert(q[q.len() - 1] == q.last());
            assert forall|i: int|
                0 <= i < cmd_refs(q.last()).len() implies (#[trigger] cmd_refs(
                q.last(),
            )[i]).id < w1.next_id by {}
        }
        lemma_apply_one(w1, q.last());
    }
}

/// Whether `e` would be acceptable to a flush with window `base .. next`.
fn check_ref(world: &World, e: Entity, base: u64, next: u64) -> (r: bool)
    requires
        world@.wf(),
    ensures
        r == ref_ok(e, world@, base, next),
{
    if world.contains(e) {
        true
    } else {
        base <= e.id && e.id < next
    }
}

/// The first unacceptable entity reference of a command, if any.
pub(crate) fn check_cmd(world: &World, cmd: &Command, base: u64, next: u64) -> (r: Option<Entity>)
    requires
        world@.wf(),
    ensures
        (r is None) <==> cmd_ok(cmd@, world@, base, next),
        r matches Some(e) ==> !ref_ok(e, world@, base, next) && cmd_refs(cmd@).contains(e),
{
    match cmd {
        Command::Insert { entity, component } => {
            if check_ref(world, *entity, base, next) {
                proof {
                    assert forall|i: int| 0 <= i < cmd_refs(cmd@).len() implies ref_ok(
                        #[trigger] cmd_refs(cmd@)[i],
                        world@,
                        base,
                        next,
                    ) by {
                        assert(cmd_refs(cmd@)[0] == *entity);
                    }
                }
                None
            } else {
                proof {
                    assert(cmd_refs(cmd@)[0] == *entity);
                }
                Some(*entity)
            }
        },
        Command::InsertBundle { entity, bundle } => {
            if check_ref(world, *entity, base, next) {
                proof {
                    assert forall|i: int| 0 <= i < cmd_refs(cmd@).len() implies ref_ok(
                        #[trigger] cmd_refs(cmd@)[i],
                        world@,
                        base,
                        next,
                    ) by {
                        assert(cmd_refs(cmd@)[0] == *entity);
                    }
                }
                None
            } else {
                proof {
                    assert(cmd_refs(cmd@)[0] == *entity);
                }
                Some(*entity)
            }
        },
        Command::AddChild { parent, child } => {
            if !check_ref(world, *parent, base, next) {
                proof {
                    assert(cmd_refs(cmd@)[0] == *parent);
                }
                Some(*parent)
            } else if !check_ref(world, *child, base, next) {
                proof {
                    assert(cmd_refs(cmd@)[1] == *child);
                }
                Some(*child)
            } else {
                proof {
                    assert forall|i: int| 0 <= i < cmd_refs(cmd@).len() implies ref_ok(
                        #[trigger] cmd_refs(cmd@)[i],
                        world@,
                        base,
                        next,
                    ) by {
                        assert(cmd_refs(cmd@)[0] == *parent);
                        assert(cmd_refs(cmd@)[1] == *child);
                    }
                }
                None
            }
        },
        Command::PushChildren { parent, children } => {
            if !check_ref(world, *parent, base, next) {
                proof {
                    assert(cmd_refs(cmd@)[0] == *parent);
                }
                return Some(*parent);
            }
            let n = children.len();
            let mut k: usize = 0;
            while k < n
                invariant
                    n == children@.len(),
                    k <= n,
                    world@.wf(),
                    cmd_refs(cmd@) == seq![*parent] + children@,
                    forall|l: int|
                        0 <= l < k ==> ref_ok(#[trigger] children@[l], world@, base, next),
                decreases n - k,
            {
                if !check_ref(world, children[k], base, next) {
                    proof {
                        assert(cmd_refs(cmd@)[k + 1] == children@[k as int]);
                    }
                    return Some(children[k]);
                }
                k = k + 1;
            }
            proof {
                assert(ref_ok(*parent, world@, base, next));
                assert forall|i: int| 0 <= i < cmd_refs(cmd@).len() implies ref_ok(
                    #[trigger] cmd_refs(cmd@)[i],
                    world@,
                    base,
                    next,
                ) by {
                    if i == 0 {
                        assert(cmd_refs(cmd@)[0] == *parent);
                    } else {
                        assert(cmd_refs(cmd@)[i] == children@[i - 1]);
                    }
                }
            }
            None
        },
        Command::SpawnChildBatch { parent, bundles } => {
            if check_ref(world, *parent, base, next) {
                proof {
                    assert forall|i: int| 0 <= i < cmd_refs(cmd@).len() implies ref_ok(
                        #[trigger] cmd_refs(cmd@)[i],
                        world@,
                        base,
                        next,
                    ) by {
                        assert(cmd_refs(cmd@)[0] == *parent);
                    }
                }
                None
            } else {
                proof {
                    assert(cmd_refs(cmd@)[0] == *parent);
                }
                Some(*parent)
            }
        },
    }
}

/// Apply one command to the store.
pub(crate) fn apply_cmd(world: &mut World, cmd: &Command)
    requires
        old(world)@.wf(),
        cmd_ids_below(cmd@, old(world)@.next_id),
        old(world)@.next_id + batch_len(cmd@) <= u64::MAX,
    ensures
        final(world)@ == apply_one(old(world)@, cmd@),
        final(world)@.wf(),
{
    proof {
        lemma_apply_one(old(world)@, cmd@);
    }
    match cmd {
        Command::Insert { entity, component } => {
            proof {
                assert(cmd_refs(cmd@)[0] == *entity);
                lemma_ensure_rec(old(world)@, *entity);
            }
            world.ensure_entity(*entity);
            world.set_component(*entity, *component);
        },
        Command::InsertBundle { entity, bundle } => {
            proof {
                assert(cmd_refs(cmd@)[0] == *entity);
                lemma_ensure_rec(old(world)@, *entity);
            }
            world.ensure_entity(*entity);
            world.set_bundle(*entity, bundle);
        },
        Command::AddChild { parent, child } => {
            proof {
                assert(cmd_refs(cmd@)[0] == *parent);
                assert(cmd_refs(cmd@)[1] == *child);
                lemma_ensure_rec(old(world)@, *parent);
                lemma_ensure_rec(old(world)@.ensure_rec(*parent), *child);
            }
            world.ensure_entity(*parent);
            world.ensure_entity(*child);
            world.attach_child(*parent, *child);
        },
        Command::PushChildren { parent, children } => {
            let ghost w0 = world@;
            proof {
                assert(cmd_refs(cmd@)[0] == *parent);
                lemma_ensure_rec(w0, *parent);
                assert forall|i: int|
                    0 <= i < children@.len() implies (#[trigger] children@[i]).id
                    < w0.next_id by {
                    assert(cmd_refs(cmd@)[i + 1] == children@[i]);
                }
                lemma_ensure_all(w0.ensure_rec(*parent), children@);
            }
            world.ensure_entity(*parent);
            world.ensure_entities(children.as_slice());
            world.attach_children(*parent, children.as_slice());
        },
        Command::SpawnChildBatch { parent, bundles } => {
            let ghost w0 = world@;
            proof {
                assert(cmd_refs(cmd@)[0] == *parent);
                lemma_ensure_rec(w0, *parent);
                lemma_spawn_all(w0.ensure_rec(*parent), bundles@.map_values(|b: crate::types::Bundle| b@));
            }
            world.ensure_entity(*parent);
            let ids = world.spawn_batch(bundles);
            world.attach_children(*parent, ids.as_slice());
        },
    }
}

} // verus!
