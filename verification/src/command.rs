//! The deferred command queue: an ordered list of pending store mutations,
//! appended to synchronously by cursor operations and applied later, in
//! append order, against exclusive access to the store.

use vstd::prelude::*;

use crate::apply::all_ok;
use crate::apply::apply_all;
use crate::apply::apply_cmd;
use crate::apply::check_cmd;
use crate::apply::cmd_ids_below;
use crate::apply::cmd_ok;
use crate::apply::cmd_refs;
use crate::apply::lemma_apply_all;
use crate::apply::lemma_total_batch_bounds;
use crate::apply::lemma_total_batch_nonneg;
use crate::apply::queue_mentions;
use crate::apply::ref_ok;
use crate::apply::batch_len;
use crate::apply::sync_mark;
use crate::apply::total_batch;
use crate::apply::StaleEntityReference;
use crate::world::World;
use crate::types::Bundle;
use crate::types::Component;
use crate::types::Entity;

verus! {

/// An inert, deferred description of one store mutation.
///
/// Commands are immutable once enqueued and consumed exactly once at flush.
pub enum Command {
    /// Attach one component to `entity`, creating the entity's record if it
    /// does not exist yet.
    Insert { entity: Entity, component: Component },
    /// Attach every component of `bundle` to `entity`, in order, creating
    /// the entity's record if it does not exist yet.
    InsertBundle { entity: Entity, bundle: Bundle },
    /// Record `child` as the last child of `parent`, replacing any previous
    /// parent relation of `child`.
    AddChild { parent: Entity, child: Entity },
    /// Attach every entity of `children` to `parent`, in order.
    PushChildren { parent: Entity, children: Vec<Entity> },
    /// At flush time, spawn one new entity per bundle of `bundles` and attach
    /// all of them to `parent` in one pass, in input order.
    SpawnChildBatch { parent: Entity, bundles: Vec<Bundle> },
}

/// The mathematical value of a [`Command`].
pub enum CommandV {
    Insert { entity: Entity, component: Component },
    InsertBundle { entity: Entity, bundle: Seq<Component> },
    AddChild { parent: Entity, child: Entity },
    PushChildren { parent: Entity, children: Seq<Entity> },
    SpawnChildBatch { parent: Entity, bundles: Seq<Seq<Component>> },
}

impl View for Command {
    type V = CommandV;

    open spec fn view(&self) -> CommandV {
        match self {
            Command::Insert { entity, component } => CommandV::Insert {
                entity: *entity,
                component: *component,
            },
            Command::InsertBundle { entity, bundle } => CommandV::InsertBundle {
                entity: *entity,
                bundle: bundle@,
            },
            Command::AddChild { parent, child } => CommandV::AddChild {
                parent: *parent,
                child: *child,
            },
            Command::PushChildren { parent, children } => CommandV::PushChildren {
                parent: *parent,
                children: children@,
            },
            Command::SpawnChildBatch { parent, bundles } => CommandV::SpawnChildBatch {
                parent: *parent,
                bundles: bundles@.map_values(|b: Bundle| b@),
            },
        }
    }
}

/// The mathematical value of a [`Commands`] queue: the pending commands in
/// enqueue order, together with the state of the id reservation window.
pub struct CommandsV {
    /// The pending commands, oldest first.
    pub queue: Seq<CommandV>,
    /// The next entity id this queue would reserve.
    pub next_id: u64,
    /// The store's allocation mark when this queue was created: ids in
    /// `base .. next_id` were reserved by this queue and exist nowhere else.
    pub base: u64,
}

/// The deferred command queue of one builder invocation, together with the
/// entity id allocator it reserves ids from.
///
/// Cursor operations never touch the store: they only reserve ids here and
/// append commands, which [`Commands::flush`] later applies in enqueue order.
pub struct Commands {
    pub(crate) queue: Vec<Command>,
    pub(crate) next_id: u64,
    pub(crate) base: u64,
}

impl View for Commands {
    type V = CommandsV;

    closed spec fn view(&self) -> CommandsV {
        CommandsV {
            queue: self.queue@.map_values(|c: Command| c@),
            next_id: self.next_id,
            base: self.base,
        }
    }
}

impl Commands {
    /// The id reservation window is well-formed.
    pub open spec fn wf(&self) -> bool {
        self@.base <= self@.next_id
    }

    /// A fresh, empty queue whose id reservation window starts at `mark`.
    pub(crate) fn new_with_mark(mark: u64) -> (c: Commands)
        ensures
            c.wf(),
            c@.queue.len() == 0,
            c@.base == mark,
            c@.next_id == mark,
    {
        let queue: Vec<Command> = Vec::new();
        proof {
            assert(queue@.map_values(|m: Command| m@) =~= Seq::<CommandV>::empty());
        }
        Commands { queue, next_id: mark, base: mark }
    }

    /// Reserve a fresh entity id without touching the store.
    pub(crate) fn reserve_id(&mut self) -> (e: Entity)
        requires
            old(self).wf(),
            old(self)@.next_id < u64::MAX,
        ensures
            final(self).wf(),
            e.id == old(self)@.next_id,
            final(self)@.next_id == old(self)@.next_id + 1,
            final(self)@.base == old(self)@.base,
            final(self)@.queue == old(self)@.queue,
    {
        let e = Entity { id: self.next_id };
        self.next_id = self.next_id + 1;
        e
    }

    /// Append one command to the queue.
    pub(crate) fn push_cmd(&mut self, cmd: Command)
        requires
            old(self).wf(),
        ensures
            final(self).wf(),
            final(self)@.queue == old(self)@.queue.push(cmd@),
            final(self)@.next_id == old(self)@.next_id,
            final(self)@.base == old(self)@.base,
    {
        let ghost prior = self.queue@.map_values(|c: Command| c@);
        self.queue.push(cmd);
        proof {
            assert(self.queue@.map_values(|c: Command| c@) =~= prior.push(cmd@));
        }
    }

    /// The number of commands waiting to be applied.
    pub fn pending(&self) -> (n: usize)
        ensures
            n == self@.queue.len(),
    {
        self.queue.len()
    }

    /// Hand the pending commands over, oldest first, leaving the queue
    /// empty: for a host scheduler that applies them against a store of its
    /// own instead of [`Commands::flush`].
    pub fn drain(&mut self) -> (cmds: Vec<Command>)
        ensures
            final(self)@.queue.len() == 0,
            final(self)@.next_id == old(self)@.next_id,
            final(self)@.base == old(self)@.base,
            final(self).wf() == old(self).wf(),
            cmds@.map_values(|c: Command| c@) == old(self)@.queue,
    {
        let mut cmds: Vec<Command> = Vec::new();
        core::mem::swap(&mut self.queue, &mut cmds);
        proof {
            assert(self.queue@.map_values(|c: Command| c@) =~= Seq::<CommandV>::empty());
        }
        cmds
    }
}

impl Commands {
    /// Apply every pending command to the store, in enqueue order, after
    /// validating that each referenced entity is live in the store or was
    /// reserved by this queue. On success the queue is empty, the store
    /// holds the result of applying every command in order, and this
    /// queue's reservation window restarts at the store's new allocation
    /// mark. If any reference is stale, nothing is applied, the queue is
    /// discarded, and the first stale entity found is reported.
    pub fn flush(&mut self, world: &mut World) -> (r: Result<(), StaleEntityReference>)
        requires
            old(self).wf(),
            old(world)@.wf(),
            sync_mark(old(world)@, old(self)@.next_id).next_id + total_batch(old(self)@.queue)
                <= u64::MAX,
        ensures
            final(self).wf(),
            final(world)@.wf(),
            final(self)@.queue.len() == 0,
            (r is Ok) <==> all_ok(
                old(self)@.queue,
                old(world)@,
                old(self)@.base,
                old(self)@.next_id,
            ),
            r is Ok ==> final(world)@ == apply_all(
                sync_mark(old(world)@, old(self)@.next_id),
                old(self)@.queue,
            ),
            r is Ok ==> final(self)@.next_id == final(world)@.next_id && final(self)@.base
                == final(world)@.next_id,
            r is Err ==> final(world)@ == old(world)@ && final(self)@.next_id == old(
                self,
            )@.next_id && final(self)@.base == old(self)@.base,
            r matches Err(s) ==> !ref_ok(
                s.entity,
                old(world)@,
                old(self)@.base,
                old(self)@.next_id,
            ) && queue_mentions(old(self)@.queue, s.entity),
    {
        let ghost q0 = self@.queue;
        let ghost w0 = world@;
        let base = self.base;
        let next = self.next_id;
        let n = self.queue.len();
        proof {
            assert(q0 == self.queue@.map_values(|m: Command| m@));
        }
        // validation pass: nothing is applied until every reference checks out
        let mut i: usize = 0;
        while i < n
            invariant
                self.wf(),
                n == self.queue@.len(),
                q0 == self.queue@.map_values(|m: Command| m@),
                q0 == old(self)@.queue,
                w0 == old(world)@,
                base == self@.base,
                base == old(self)@.base,
                next == self@.next_id,
                next == old(self)@.next_id,
                world@ == w0,
                w0.wf(),
                i <= n,
                forall|j: int| 0 <= j < i ==> cmd_ok(#[trigger] q0[j], w0, base, next),
            decreases n - i,
        {
            let bad = check_cmd(world, &self.queue[i], base, next);
            match bad {
                Some(entity) => {
                    proof {
                        assert(q0[i as int] == self.queue@[i as int]@);
                        assert(!cmd_ok(q0[i as int], w0, base, next));
                        assert(!all_ok(q0, w0, base, next));
                        assert(queue_mentions(q0, entity));
                    }
                    self.queue.clear();
                    proof {
                        assert(self.queue@.map_values(|m: Command| m@) =~= Seq::<
                            CommandV,
                        >::empty());
                    }
                    return Err(StaleEntityReference { entity });
                },
                None => {
                    proof {
                        assert(q0[i as int] == self.queue@[i as int]@);
                    }
                },
            }
            i = i + 1;
        }
        proof {
            assert(all_ok(q0, w0, base, next));
        }
        // raise the store's allocation mark over this queue's reservations
        world.bump_mark(next);
        let ghost ws = world@;
        proof {
            assert(ws == sync_mark(w0, next));
            assert(ws.wf()) by {
                assert(ws.records == w0.records);
                assert forall|j: int|
                    0 <= j < ws.records.len() implies (#[trigger] ws.records[j]).entity.id
                    < ws.next_id by {
                    assert(w0.records[j].entity.id < w0.next_id);
                }
                assert forall|x: Entity| #[trigger] ws.has(x) implies w0.has(x) by {}
                assert forall|x: Entity| #[trigger] w0.has(x) implies ws.has(x) by {}
                assert forall|x: Entity| w0.has(x) implies ws.rec(x) == w0.rec(x) by {}
            }
            assert forall|j: int| 0 <= j < q0.len() implies cmd_ids_below(
                #[trigger] q0[j],
                ws.next_id,
            ) by {
                assert(cmd_ok(q0[j], w0, base, next));
                assert forall|k: int|
                    0 <= k < cmd_refs(q0[j]).len() implies (#[trigger] cmd_refs(
                    q0[j],
                )[k]).id < ws.next_id by {
                    let e = cmd_refs(q0[j])[k];
                    assert(ref_ok(e, w0, base, next));
                    if w0.has(e) {
                        let l = w0.idx(e);
                        assert(w0.records[l].entity.id < w0.next_id);
                    }
                }
            }
        }
        // apply pass
        let mut i: usize = 0;
        while i < n
            invariant
                self.wf(),
                n == self.queue@.len(),
                q0 == self.queue@.map_values(|m: Command| m@),
                base == self@.base,
                next == self@.next_id,
                i <= n,
                ws.wf(),
                ws.next_id + total_batch(q0) <= u64::MAX,
                forall|j: int| 0 <= j < q0.len() ==> cmd_ids_below(#[trigger] q0[j], ws.next_id),
                world@ == apply_all(ws, q0.take(i as int)),
            decreases n - i,
        {
            proof {
                let pre = q0.take(i as int);
                assert forall|j: int|
                    0 <= j < pre.len() implies cmd_ids_below(#[trigger] pre[j], ws.next_id) by {
                    assert(pre[j] == q0[j]);
                }
                lemma_total_batch_bounds(q0, i as int);
                lemma_apply_all(ws, pre);
                assert(q0[i as int] == self.queue@[i as int]@);
                assert(cmd_ids_below(q0[i as int], ws.next_id));
                assert(world@.next_id == ws.next_id + total_batch(pre));
                lemma_total_batch_bounds(q0, i + 1 as int);
                assert(world@.next_id + batch_len(q0[i as int]) <= u64::MAX);
                assert forall|k: int|
                    0 <= k < cmd_refs(q0[i as int]).len() implies (#[trigger] cmd_refs(
                    q0[i as int],
                )[k]).id < world@.next_id by {
                    lemma_total_batch_nonneg(pre);
                }
            }
            apply_cmd(world, &self.queue[i]);
            proof {
                let qk = q0.take(i + 1 as int);
                assert(qk.drop_last() =~= q0.take(i as int));
                assert(qk.last() == q0[i as int]);
            }
            i = i + 1;
        }
        proof {
            assert(q0.take(n as int) =~= q0);
            assert forall|j: int| 0 <= j < q0.len() implies cmd_ids_below(
                #[trigger] q0[j],
                ws.next_id,
            ) by {}
            lemma_apply_all(ws, q0);
        }
        // the queue is consumed; reservations restart at the new mark
        self.queue.clear();
        proof {
            assert(self.queue@.map_values(|m: Command| m@) =~= Seq::<CommandV>::empty());
        }
        let m = world.mark();
        self.next_id = m;
        self.base = m;
        Ok(())
    }
}


} // verus!
