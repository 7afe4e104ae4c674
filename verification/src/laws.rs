//! The guarantees the builder gives as a whole, stated over the store model
//! and proved from the command semantics.

use vstd::prelude::*;

use crate::apply::apply_all;
use crate::apply::apply_one;
use crate::apply::batch_len;
use crate::apply::cmd_ids_below;
use crate::apply::cmd_refs;
use crate::apply::lemma_apply_one;
use crate::apply::lemma_total_batch_nonneg;
use crate::apply::total_batch;
use crate::command::CommandV;
use crate::consistency::lemma_attach;
use crate::consistency::lemma_attach_all;
use crate::consistency::lemma_attach_all_fresh;
use crate::consistency::lemma_children_member;
use crate::consistency::lemma_ensure_all;
use crate::consistency::lemma_ensure_rec;
use crate::consistency::lemma_rec_entity;
use crate::consistency::lemma_set_bundle;
use crate::consistency::lemma_set_comp;
use crate::consistency::lemma_spawn_all;
use crate::types::Component;
use crate::types::Entity;
use crate::world::apply_bundle;
use crate::world::entities_nodup;
use crate::world::WorldV;

verus! {

/// Law: the parent/child relation of a well-formed store is mutually
/// consistent. An entity appears among a parent's children exactly when its
/// recorded parent is that entity, and it appears there at most once. Every
/// store this library hands out is well-formed — a fresh store trivially,
/// and a flushed store by the contract of the flush — so this holds of any
/// constructed hierarchy.
pub proof fn lemma_hierarchy_consistent(w: WorldV, p: Entity, c: Entity)
    requires
        w.wf(),
        w.has(p),
        w.has(c),
    ensures
        w.children_of(p).contains(c) <==> w.parent_of(c) == Some(p),
        forall|k: int, l: int|
            0 <= k < w.children_of(p).len() && 0 <= l < w.children_of(p).len()
                && w.children_of(p)[k] == c && w.children_of(p)[l] == c ==> k == l,
{
    if w.children_of(p).contains(c) {
        lemma_children_member(w, p, c);
    }
    if w.parent_of(c) == Some(p) {
        lemma_rec_entity(w, c);
        let i = w.idx(c);
        assert(w.records[i].parent is Some && w.records[i].parent->0 == p);
        assert(w.has(p) && w.rec(p).children.contains(w.records[i].entity));
    }
    lemma_rec_entity(w, p);
    assert(entities_nodup(w.children_of(p)));
}

/// Law: applying a queue split at any point equals applying the first part
/// and then the second. Together with the definition of `apply_all` as the
/// in-order fold of `apply_one`, this says a deferred flush is equivalent
/// to applying every command eagerly at its enqueue point: the store sees
/// the same final state either way.
pub proof fn lemma_flush_order(w: WorldV, q1: Seq<CommandV>, q2: Seq<CommandV>)
    ensures
        apply_all(w, q1 + q2) == apply_all(apply_all(w, q1), q2),
    decreases q2.len(),
{
    if q2.len() == 0 {
        assert(q1 + q2 =~= q1);
    } else {
        assert((q1 + q2).drop_last() =~= q1 + q2.drop_last());
        assert((q1 + q2).last() == q2.last());
        lemma_flush_order(w, q1, q2.drop_last());
    }
}

/// Law: a batch spawn of `n` bundles against a live parent creates exactly
/// `n` new entities, taking consecutive ids at the allocation mark in input
/// order; all of them record the parent as theirs, the parent's children
/// grow by exactly those entities in that order, each new entity carries
/// its own bundle, and no other entity's relations change.
pub proof fn lemma_batch_spawn(w: WorldV, p: Entity, bundles: Seq<Seq<Component>>)
    requires
        w.wf(),
        w.has(p),
        w.next_id + bundles.len() <= u64::MAX,
    ensures
        apply_one(w, (CommandV::SpawnChildBatch { parent: p, bundles })).records.len()
            == w.records.len() + bundles.len(),
        apply_one(w, (CommandV::SpawnChildBatch { parent: p, bundles })).next_id == w.next_id
            + bundles.len(),
        apply_one(w, (CommandV::SpawnChildBatch { parent: p, bundles })).children_of(p)
            == w.children_of(p) + w.batch_ids(bundles.len() as int),
        forall|i: int|
            0 <= i < bundles.len() ==> apply_one(
                w,
                (CommandV::SpawnChildBatch { parent: p, bundles }),
            ).parent_of(#[trigger] w.batch_ids(bundles.len() as int)[i]) == Some(p),
        forall|i: int|
            0 <= i < bundles.len() ==> apply_one(
                w,
                (CommandV::SpawnChildBatch { parent: p, bundles }),
            ).comps_of(#[trigger] w.batch_ids(bundles.len() as int)[i]) == apply_bundle(
                Seq::<Component>::empty(),
                bundles[i],
            ),
        forall|x: Entity|
            w.has(x) && x != p ==> #[trigger] apply_one(
                w,
                (CommandV::SpawnChildBatch { parent: p, bundles }),
            ).children_of(x) == w.children_of(x),
        forall|x: Entity|
            w.has(x) ==> #[trigger] apply_one(
                w,
                (CommandV::SpawnChildBatch { parent: p, bundles }),
            ).parent_of(x) == w.parent_of(x),
{
    let n = bundles.len() as int;
    let cmd = CommandV::SpawnChildBatch { parent: p, bundles };
    lemma_ensure_rec(w, p);
    let w1 = w.ensure_rec(p);
    assert(w1 == w);
    let ids = w1.batch_ids(n);
    lemma_spawn_all(w1, bundles);
    let w2 = w1.spawn_all(bundles);
    // the fresh ids are distinct, live, parentless, and are not the parent
    assert(entities_nodup(ids)) by {
        assert forall|k: int, l: int|
            0 <= k < ids.len() && 0 <= l < ids.len() && k != l implies (#[trigger] ids[k]) != (
        #[trigger] ids[l]) by {
            assert(ids[k].id == w.next_id + k);
            assert(ids[l].id == w.next_id + l);
        }
    }
    assert forall|i: int| 0 <= i < n implies w2.has(#[trigger] ids[i]) && w2.parent_of(ids[i])
        is None by {}
    assert(!ids.contains(p)) by {
        lemma_rec_entity(w, p);
        assert(w.records[w.idx(p)].entity.id < w.next_id);
        if ids.contains(p) {
            let i = choose|i: int| 0 <= i < ids.len() && ids[i] == p;
            assert(ids[i].id == w.next_id + i);
        }
    }
    assert(w2.has(p));
    assert(w2.children_of(p) == w.children_of(p));
    lemma_attach_all(w2, p, ids);
    lemma_attach_all_fresh(w2, p, ids);
    let w3 = w2.attach_all(p, ids);
    assert(apply_one(w, cmd) == w3);
    assert(w3.children_of(p) == w.children_of(p) + ids);
    assert forall|i: int| 0 <= i < n implies w3.comps_of(#[trigger] ids[i]) == apply_bundle(
        Seq::<Component>::empty(),
        bundles[i],
    ) by {
        assert(w2.comps_of(ids[i]) == apply_bundle(Seq::<Component>::empty(), bundles[i]));
        assert(w3.comps_of(ids[i]) == w2.comps_of(ids[i]));
    }
    // untouched entities keep their relations
    assert forall|x: Entity|
        w.has(x) && x != p implies #[trigger] w3.children_of(x) == w.children_of(x) by {
        assert(w2.has(x));
        assert(w2.rec(x) == w.rec(x));
        assert(w3.children_of(x) == w2.children_of(x));
    }
    assert forall|x: Entity| w.has(x) implies #[trigger] w3.parent_of(x) == w.parent_of(x) by {
        assert(w2.rec(x) == w.rec(x));
        assert(!ids.contains(x)) by {
            lemma_rec_entity(w, x);
            assert(w.records[w.idx(x)].entity.id < w.next_id);
            if ids.contains(x) {
                let i = choose|i: int| 0 <= i < ids.len() && ids[i] == x;
                assert(ids[i].id == w.next_id + i);
            }
        }
        assert(w3.parent_of(x) == w2.parent_of(x));
    }
}

/// Whether applying the command can change the recorded parent of `c`.
pub open spec fn reparents(cmd: CommandV, c: Entity) -> bool {
    match cmd {
        CommandV::Insert { entity, component } => false,
        CommandV::InsertBundle { entity, bundle } => false,
        CommandV::AddChild { parent, child } => child == c,
        CommandV::PushChildren { parent, children } => children.contains(c),
        CommandV::SpawnChildBatch { parent, bundles } => false,
    }
}

/// A command that does not re-parent a live entity leaves its recorded
/// parent alone.
proof fn lemma_apply_one_parent_stable(w: WorldV, cmd: CommandV, c: Entity)
    requires
        w.wf(),
        cmd_ids_below(cmd, w.next_id),
        w.next_id + batch_len(cmd) <= u64::MAX,
        w.has(c),
        !reparents(cmd, c),
    ensures
        apply_one(w, cmd).has(c),
        apply_one(w, cmd).parent_of(c) == w.parent_of(c),
{
    lemma_rec_entity(w, c);
    assert(c.id < w.next_id) by {
        assert(w.records[w.idx(c)].entity.id < w.next_id);
    }
    match cmd {
        CommandV::Insert { entity, component } => {
            assert(cmd_refs(cmd)[0] == entity);
            lemma_ensure_rec(w, entity);
            let w1 = w.ensure_rec(entity);
            lemma_set_comp(w1, entity, component);
            assert(w1.rec(c).parent == w.rec(c).parent);
            if entity == c {
                assert(w1.set_comp(entity, component).rec(c).parent == w1.rec(c).parent);
            } else {
                assert(w1.set_comp(entity, component).rec(c) == w1.rec(c));
            }
        },
        CommandV::InsertBundle { entity, bundle } => {
            assert(cmd_refs(cmd)[0] == entity);
            lemma_ensure_rec(w, entity);
            let w1 = w.ensure_rec(entity);
            lemma_set_bundle(w1, entity, bundle);
            assert(w1.rec(c).parent == w.rec(c).parent);
            if entity == c {
                assert(w1.set_bundle_comps(entity, bundle).rec(c).parent == w1.rec(c).parent);
            } else {
                assert(w1.set_bundle_comps(entity, bundle).rec(c) == w1.rec(c));
            }
        },
        CommandV::AddChild { parent, child } => {
            assert(cmd_refs(cmd)[0] == parent);
            assert(cmd_refs(cmd)[1] == child);
            lemma_ensure_rec(w, parent);
            let w1 = w.ensure_rec(parent);
            lemma_ensure_rec(w1, child);
            let w2 = w1.ensure_rec(child);
            lemma_attach(w2, parent, child);
            assert(child != c);
            assert(w2.rec(c).parent == w.rec(c).parent);
            assert(w2.attach(parent, child).parent_of(c) == w2.parent_of(c));
        },
        CommandV::PushChildren { parent, children } => {
            assert(cmd_refs(cmd)[0] == parent);
            lemma_ensure_rec(w, parent);
            let w1 = w.ensure_rec(parent);
            assert forall|i: int|
                0 <= i < children.len() implies (#[trigger] children[i]).id < w1.next_id by {
                assert(cmd_refs(cmd)[i + 1] == children[i]);
            }
            lemma_ensure_all(w1, children);
            let w2 = w1.ensure_all(children);
            lemma_attach_all(w2, parent, children);
            assert(!children.contains(c));
            assert(w2.rec(c).parent == w.rec(c).parent);
            assert(w2.attach_all(parent, children).parent_of(c) == w2.parent_of(c));
        },
        CommandV::SpawnChildBatch { parent, bundles } => {
            assert(cmd_refs(cmd)[0] == parent);
            lemma_ensure_rec(w, parent);
            let w1 = w.ensure_rec(parent);
            lemma_spawn_all(w1, bundles);
            let w2 = w1.spawn_all(bundles);
            let ids = w1.batch_ids(bundles.len() as int);
            assert forall|i: int| 0 <= i < ids.len() implies w2.has(#[trigger] ids[i]) by {}
            lemma_attach_all(w2, parent, ids);
            assert(!ids.contains(c)) by {
                if ids.contains(c) {
                    let i = choose|i: int| 0 <= i < ids.len() && ids[i] == c;
                    assert(ids[i].id == w1.next_id + i);
                }
            }
            assert(w1.rec(c).parent == w.rec(c).parent);
            assert(w2.rec(c) == w1.rec(c));
            assert(w2.attach_all(parent, ids).parent_of(c) == w2.parent_of(c));
        },
    }
}

/// Law: an entity linked under a parent keeps that parent through the rest
/// of the flush, as long as no later command of the queue re-parents it. A
/// chain of sibling advancements enqueues one such link per new entity, all
/// against the same parent and none re-parenting an earlier one, so every
/// entity of the chain ends up recorded under that parent, whatever the
/// chain's length.
pub proof fn lemma_attached_parent(w: WorldV, q: Seq<CommandV>, i: int, p: Entity, c: Entity)
    requires
        w.wf(),
        forall|j: int| 0 <= j < q.len() ==> cmd_ids_below(#[trigger] q[j], w.next_id),
        w.next_id + total_batch(q) <= u64::MAX,
        0 <= i < q.len(),
        q[i] == (CommandV::AddChild { parent: p, child: c }),
        forall|j: int| i < j < q.len() ==> !reparents(#[trigger] q[j], c),
    ensures
        apply_all(w, q).has(c),
        apply_all(w, q).parent_of(c) == Some(p),
    decreases q.len(),
{
    let init = q.drop_last();
    let last = q.last();
    assert forall|j: int|
        0 <= j < init.len() implies cmd_ids_below(#[trigger] init[j], w.next_id) by {
        assert(init[j] == q[j]);
    }
    lemma_total_batch_nonneg(init);
    assert(q[q.len() - 1] == last);
    assert(batch_len(last) >= 0);
    crate::apply::lemma_apply_all(w, init);
    let w1 = apply_all(w, init);
    assert(cmd_ids_below(last, w1.next_id)) by {
        assert forall|k: int|
            0 <= k < cmd_refs(last).len() implies (#[trigger] cmd_refs(last)[k]).id
            < w1.next_id by {}
    }
    if i == q.len() - 1 {
        assert(last == (CommandV::AddChild { parent: p, child: c }));
        assert(cmd_refs(last)[0] == p);
        assert(cmd_refs(last)[1] == c);
        lemma_ensure_rec(w1, p);
        let wa = w1.ensure_rec(p);
        lemma_ensure_rec(wa, c);
        let wb = wa.ensure_rec(c);
        lemma_attach(wb, p, c);
    } else {
        lemma_attached_parent(w, init, i, p, c);
        assert(!reparents(last, c));
        lemma_apply_one_parent_stable(w1, last, c);
    }
}

/// Every already-known entity any command of the queue references.
pub open spec fn queue_refs(q: Seq<CommandV>) -> Set<Entity>
    decreases q.len(),
{
    if q.len() == 0 {
        Set::<Entity>::empty()
    } else {
        queue_refs(q.drop_last()).union(cmd_refs(q.last()).to_set())
    }
}

/// The referenced entities a flush of the queue would bring to life: those
/// mentioned by some command but not live in the store.
pub open spec fn materialized(w: WorldV, q: Seq<CommandV>) -> Set<Entity> {
    queue_refs(q).filter(|e: Entity| !w.has(e))
}

/// The size of a union of disjoint finite sets is the sum of their sizes.
proof fn lemma_disjoint_union_len<A>(s1: Set<A>, s2: Set<A>)
    requires
        s1.finite(),
        s2.finite(),
        s1.disjoint(s2),
    ensures
        s1.union(s2).finite(),
        s1.union(s2).len() == s1.len() + s2.len(),
    decreases s2.len(),
{
    broadcast use vstd::set_lib::lemma_set_union_finite_iff;

    if s2.len() == 0 {
        s2.lemma_len0_is_empty();
        assert(s1.union(s2) =~= s1);
    } else {
        let a = s2.choose();
        assert(s2.contains(a));
        lemma_disjoint_union_len(s1, s2.remove(a));
        assert(s1.union(s2.remove(a)).insert(a) =~= s1.union(s2));
        assert(!s1.union(s2.remove(a)).contains(a));
    }
}

/// A queue's reference set is finite.
proof fn lemma_queue_refs_finite(q: Seq<CommandV>)
    ensures
        queue_refs(q).finite(),
    decreases q.len(),
{
    broadcast use vstd::set_lib::lemma_set_union_finite_iff;
    broadcast use vstd::seq_lib::seq_to_set_is_finite;

    if q.len() > 0 {
        lemma_queue_refs_finite(q.drop_last());
    }
}

/// One command brings exactly its referenced entities to life: afterwards
/// an entity is live exactly when it was live, is referenced, or was
/// spawned fresh by the command at an id at or above the old mark.
proof fn lemma_apply_one_live(w: WorldV, cmd: CommandV)
    requires
        w.wf(),
        cmd_ids_below(cmd, w.next_id),
        w.next_id + batch_len(cmd) <= u64::MAX,
    ensures
        forall|x: Entity|
            w.has(x) || cmd_refs(cmd).contains(x) ==> #[trigger] apply_one(w, cmd).has(x),
        forall|x: Entity|
            #[trigger] apply_one(w, cmd).has(x) && x.id < w.next_id ==> (w.has(x)
                || cmd_refs(cmd).contains(x)),
{
    lemma_apply_one(w, cmd);
    match cmd {
        CommandV::Insert { entity, component } => {
            assert(cmd_refs(cmd)[0] == entity);
            lemma_ensure_rec(w, entity);
            lemma_set_comp(w.ensure_rec(entity), entity, component);
            assert forall|x: Entity|
                w.has(x) || cmd_refs(cmd).contains(x) implies #[trigger] apply_one(
                w,
                cmd,
            ).has(x) by {
                if cmd_refs(cmd).contains(x) {
                    assert(x == entity);
                }
            }
        },
        CommandV::InsertBundle { entity, bundle } => {
            assert(cmd_refs(cmd)[0] == entity);
            lemma_ensure_rec(w, entity);
            lemma_set_bundle(w.ensure_rec(entity), entity, bundle);
            assert forall|x: Entity|
                w.has(x) || cmd_refs(cmd).contains(x) implies #[trigger] apply_one(
                w,
                cmd,
            ).has(x) by {
                if cmd_refs(cmd).contains(x) {
                    assert(x == entity);
                }
            }
        },
        CommandV::AddChild { parent, child } => {
            assert(cmd_refs(cmd)[0] == parent);
            assert(cmd_refs(cmd)[1] == child);
            lemma_ensure_rec(w, parent);
            let w1 = w.ensure_rec(parent);
            lemma_ensure_rec(w1, child);
            let w2 = w1.ensure_rec(child);
            lemma_attach(w2, parent, child);
            assert forall|x: Entity|
                w.has(x) || cmd_refs(cmd).contains(x) implies #[trigger] apply_one(
                w,
                cmd,
            ).has(x) by {
                if cmd_refs(cmd).contains(x) {
                    assert(x == parent || x == child);
                }
            }
        },
        CommandV::PushChildren { parent, children } => {
            assert(cmd_refs(cmd)[0] == parent);
            lemma_ensure_rec(w, parent);
            let w1 = w.ensure_rec(parent);
            assert forall|i: int|
                0 <= i < children.len() implies (#[trigger] children[i]).id < w1.next_id by {
                assert(cmd_refs(cmd)[i + 1] == children[i]);
            }
            lemma_ensure_all(w1, children);
            let w2 = w1.ensure_all(children);
            lemma_attach_all(w2, parent, children);
            assert forall|x: Entity|
                w.has(x) || cmd_refs(cmd).contains(x) implies #[trigger] apply_one(
                w,
                cmd,
            ).has(x) by {
                if cmd_refs(cmd).contains(x) && x != parent {
                    let i = choose|i: int|
                        0 <= i < cmd_refs(cmd).len() && cmd_refs(cmd)[i] == x;
                    assert(i >= 1);
                    assert(children[i - 1] == x);
                    assert(children.contains(x));
                    assert(w2.has(x));
                }
            }
            assert forall|x: Entity|
                #[trigger] apply_one(w, cmd).has(x) && x.id < w.next_id implies (w.has(x)
                || cmd_refs(cmd).contains(x)) by {
                assert(w2.has(x));
                if !w.has(x) && x != parent {
                    assert(children.contains(x));
                    let i = choose|i: int| 0 <= i < children.len() && children[i] == x;
                    assert(cmd_refs(cmd)[i + 1] == x);
                    assert(cmd_refs(cmd).contains(x));
                }
                if x == parent {
                    assert(cmd_refs(cmd).contains(x));
                }
            }
        },
        CommandV::SpawnChildBatch { parent, bundles } => {
            assert(cmd_refs(cmd)[0] == parent);
            lemma_ensure_rec(w, parent);
            let w1 = w.ensure_rec(parent);
            lemma_spawn_all(w1, bundles);
            let w2 = w1.spawn_all(bundles);
            let ids = w1.batch_ids(bundles.len() as int);
            assert forall|i: int| 0 <= i < ids.len() implies w2.has(#[trigger] ids[i]) by {}
            lemma_attach_all(w2, parent, ids);
            assert forall|x: Entity|
                w.has(x) || cmd_refs(cmd).contains(x) implies #[trigger] apply_one(
                w,
                cmd,
            ).has(x) by {
                if cmd_refs(cmd).contains(x) {
                    assert(x == parent);
                }
            }
            assert forall|x: Entity|
                #[trigger] apply_one(w, cmd).has(x) && x.id < w.next_id implies (w.has(x)
                || cmd_refs(cmd).contains(x)) by {
                assert(w2.has(x));
                if !w1.has(x) {
                    assert(ids.contains(x));
                    let i = choose|i: int| 0 <= i < ids.len() && ids[i] == x;
                    assert(ids[i].id == w1.next_id + i);
                }
            }
        },
    }
}

/// One command grows the store by exactly its not-yet-live references plus
/// the entities it spawns itself.
proof fn lemma_apply_one_count(w: WorldV, cmd: CommandV)
    requires
        w.wf(),
        cmd_ids_below(cmd, w.next_id),
        w.next_id + batch_len(cmd) <= u64::MAX,
    ensures
        cmd_refs(cmd).to_set().filter(|e: Entity| !w.has(e)).finite(),
        apply_one(w, cmd).records.len() == w.records.len() + cmd_refs(cmd).to_set().filter(
            |e: Entity| !w.has(e),
        ).len() + batch_len(cmd),
{
    broadcast use vstd::seq_lib::seq_to_set_is_finite;

    let fresh = cmd_refs(cmd).to_set().filter(|e: Entity| !w.has(e));
    cmd_refs(cmd).to_set().lemma_len_filter(|e: Entity| !w.has(e));
    match cmd {
        CommandV::Insert { entity, component } => {
            assert(cmd_refs(cmd)[0] == entity);
            lemma_ensure_rec(w, entity);
            lemma_set_comp(w.ensure_rec(entity), entity, component);
            if w.has(entity) {
                assert(fresh =~= Set::<Entity>::empty());
            } else {
                assert(fresh =~= Set::<Entity>::empty().insert(entity));
            }
        },
        CommandV::InsertBundle { entity, bundle } => {
            assert(cmd_refs(cmd)[0] == entity);
            lemma_ensure_rec(w, entity);
            lemma_set_bundle(w.ensure_rec(entity), entity, bundle);
            if w.has(entity) {
                assert(fresh =~= Set::<Entity>::empty());
            } else {
                assert(fresh =~= Set::<Entity>::empty().insert(entity));
            }
        },
        CommandV::AddChild { parent, child } => {
            assert(cmd_refs(cmd)[0] == parent);
            assert(cmd_refs(cmd)[1] == child);
            assert(cmd_refs(cmd).to_set() =~= Set::<Entity>::empty().insert(parent).insert(
                child,
            ));
            lemma_ensure_rec(w, parent);
            let w1 = w.ensure_rec(parent);
            lemma_ensure_rec(w1, child);
            let w2 = w1.ensure_rec(child);
            lemma_attach(w2, parent, child);
            if w.has(parent) {
                if w.has(child) {
                    assert(fresh =~= Set::<Entity>::empty());
                } else {
                    assert(fresh =~= Set::<Entity>::empty().insert(child));
                }
            } else {
                if w.has(child) {
                    assert(fresh =~= Set::<Entity>::empty().insert(parent));
                } else if parent == child {
                    assert(fresh =~= Set::<Entity>::empty().insert(parent));
                } else {
                    assert(fresh =~= Set::<Entity>::empty().insert(parent).insert(child));
                    assert(!Set::<Entity>::empty().insert(parent).contains(child));
                }
            }
        },
        CommandV::PushChildren { parent, children } => {
            assert(cmd_refs(cmd)[0] == parent);
            lemma_ensure_rec(w, parent);
            let w1 = w.ensure_rec(parent);
            assert forall|i: int|
                0 <= i < children.len() implies (#[trigger] children[i]).id < w1.next_id by {
                assert(cmd_refs(cmd)[i + 1] == children[i]);
            }
            lemma_ensure_all_count(w1, children);
            lemma_ensure_all(w1, children);
            let w2 = w1.ensure_all(children);
            lemma_attach_all(w2, parent, children);
            let fresh1 = children.to_set().filter(|e: Entity| !w1.has(e));
            // split the reference set into the parent and the children
            assert(cmd_refs(cmd).to_set() =~= children.to_set().insert(parent)) by {
                assert forall|x: Entity|
                    cmd_refs(cmd).to_set().contains(x) implies children.to_set().insert(
                    parent,
                ).contains(x) by {
                    let i = choose|i: int|
                        0 <= i < cmd_refs(cmd).len() && cmd_refs(cmd)[i] == x;
                    if i >= 1 {
                        assert(children[i - 1] == x);
                    }
                }
                assert forall|x: Entity|
                    children.to_set().insert(parent).contains(x) implies cmd_refs(
                    cmd,
                ).to_set().contains(x) by {
                    if x == parent {
                        assert(cmd_refs(cmd)[0] == x);
                    } else {
                        let i = choose|i: int| 0 <= i < children.len() && children[i] == x;
                        assert(cmd_refs(cmd)[i + 1] == x);
                    }
                }
            }
            children.to_set().lemma_len_filter(|e: Entity| !w1.has(e));
            if w.has(parent) {
                assert(fresh =~= fresh1) by {
                    assert forall|x: Entity| fresh.contains(x) implies fresh1.contains(x) by {
                        assert(x != parent || w.has(x));
                    }
                }
            } else {
                assert(fresh =~= fresh1.insert(parent));
                assert(!fresh1.contains(parent));
            }
        },
        CommandV::SpawnChildBatch { parent, bundles } => {
            assert(cmd_refs(cmd)[0] == parent);
            lemma_ensure_rec(w, parent);
            let w1 = w.ensure_rec(parent);
            lemma_spawn_all(w1, bundles);
            let w2 = w1.spawn_all(bundles);
            let ids = w1.batch_ids(bundles.len() as int);
            assert forall|i: int| 0 <= i < ids.len() implies w2.has(#[trigger] ids[i]) by {}
            lemma_attach_all(w2, parent, ids);
            if w.has(parent) {
                assert(fresh =~= Set::<Entity>::empty());
            } else {
                assert(fresh =~= Set::<Entity>::empty().insert(parent));
            }
        },
    }
}

/// A flushed queue brings exactly its referenced entities to life, besides
/// what it spawns fresh at or above the old allocation mark.
proof fn lemma_apply_all_live(w: WorldV, q: Seq<CommandV>)
    requires
        w.wf(),
        forall|i: int| 0 <= i < q.len() ==> cmd_ids_below(#[trigger] q[i], w.next_id),
        w.next_id + total_batch(q) <= u64::MAX,
    ensures
        forall|x: Entity|
            w.has(x) || queue_refs(q).contains(x) ==> #[trigger] apply_all(w, q).has(x),
        forall|x: Entity|
            #[trigger] apply_all(w, q).has(x) && x.id < w.next_id ==> (w.has(x) || queue_refs(
                q,
            ).contains(x)),
    decreases q.len(),
{
    if q.len() > 0 {
        let init = q.drop_last();
        let last = q.last();
        assert forall|i: int|
            0 <= i < init.len() implies cmd_ids_below(#[trigger] init[i], w.next_id) by {
            assert(init[i] == q[i]);
        }
        lemma_total_batch_nonneg(init);
        assert(batch_len(last) >= 0);
        crate::apply::lemma_apply_all(w, init);
        lemma_apply_all_live(w, init);
        let w1 = apply_all(w, init);
        assert(q[q.len() - 1] == last);
        assert(cmd_ids_below(last, w1.next_id)) by {
            assert forall|k: int|
                0 <= k < cmd_refs(last).len() implies (#[trigger] cmd_refs(last)[k]).id
                < w1.next_id by {}
        }
        lemma_apply_one(w1, last);
        lemma_apply_one_live(w1, last);
        assert forall|x: Entity|
            w.has(x) || queue_refs(q).contains(x) implies #[trigger] apply_all(w, q).has(
            x,
        ) by {
            if w.has(x) || queue_refs(init).contains(x) {
                assert(w1.has(x));
            } else {
                assert(cmd_refs(last).to_set().contains(x));
                assert(cmd_refs(last).contains(x));
            }
        }
        assert forall|x: Entity|
            #[trigger] apply_all(w, q).has(x) && x.id < w.next_id implies (w.has(x)
            || queue_refs(q).contains(x)) by {
            assert(apply_one(w1, last).has(x));
            assert(x.id < w1.next_id);
            if !w1.has(x) {
                assert(cmd_refs(last).contains(x));
                assert(cmd_refs(last).to_set().contains(x));
            }
        }
    }
}

/// Law: the number of live entities after a flush is exactly the number
/// before it, plus one per distinct entity the queue references that was
/// not yet live (each such reference materializes its entity once, however
/// often it is mentioned), plus one per batch-spawned bundle. In
/// particular, building against a freshly spawned root adds exactly the
/// root and every individually- and batch-spawned child.
pub proof fn lemma_entity_count(w: WorldV, q: Seq<CommandV>)
    requires
        w.wf(),
        forall|i: int| 0 <= i < q.len() ==> cmd_ids_below(#[trigger] q[i], w.next_id),
        w.next_id + total_batch(q) <= u64::MAX,
    ensures
        materialized(w, q).finite(),
        apply_all(w, q).records.len() == w.records.len() + materialized(w, q).len()
            + total_batch(q),
    decreases q.len(),
{
    broadcast use vstd::seq_lib::seq_to_set_is_finite;

    lemma_queue_refs_finite(q);
    queue_refs(q).lemma_len_filter(|e: Entity| !w.has(e));
    if q.len() == 0 {
        assert(materialized(w, q) =~= Set::<Entity>::empty());
    } else {
        let init = q.drop_last();
        let last = q.last();
        assert forall|i: int|
            0 <= i < init.len() implies cmd_ids_below(#[trigger] init[i], w.next_id) by {
            assert(init[i] == q[i]);
        }
        lemma_total_batch_nonneg(init);
        assert(q[q.len() - 1] == last);
        assert(batch_len(last) >= 0);
        lemma_entity_count(w, init);
        crate::apply::lemma_apply_all(w, init);
        lemma_apply_all_live(w, init);
        let w1 = apply_all(w, init);
        assert(cmd_ids_below(last, w1.next_id)) by {
            assert forall|k: int|
                0 <= k < cmd_refs(last).len() implies (#[trigger] cmd_refs(last)[k]).id
                < w1.next_id by {}
        }
        lemma_apply_one_count(w1, last);
        let mat_init = materialized(w, init);
        let fresh_now = cmd_refs(last).to_set().filter(|e: Entity| !w1.has(e));
        let fresh_of_w = cmd_refs(last).to_set().filter(|e: Entity| !w.has(e));
        lemma_queue_refs_finite(init);
        queue_refs(init).lemma_len_filter(|e: Entity| !w.has(e));
        // what the last command materializes is exactly what neither the
        // store nor the earlier commands had brought to life
        assert(fresh_now =~= fresh_of_w.difference(mat_init)) by {
            assert forall|x: Entity|
                fresh_now.contains(x) implies fresh_of_w.difference(mat_init).contains(x) by {
                assert(cmd_refs(last).contains(x));
                assert(!w1.has(x));
                assert(!w.has(x));
                if mat_init.contains(x) {
                    assert(queue_refs(init).contains(x));
                    assert(w1.has(x));
                }
            }
            assert forall|x: Entity|
                fresh_of_w.difference(mat_init).contains(x) implies fresh_now.contains(x) by {
                assert(cmd_refs(last).contains(x));
                assert(!w.has(x));
                assert(!queue_refs(init).contains(x));
                assert(x.id < w.next_id);
                if w1.has(x) {
                    assert(w.has(x) || queue_refs(init).contains(x));
                }
            }
        }
        assert(materialized(w, q) =~= mat_init.union(fresh_now)) by {
            assert forall|x: Entity|
                materialized(w, q).contains(x) implies mat_init.union(fresh_now).contains(
                x,
            ) by {
                assert(queue_refs(q).contains(x) && !w.has(x));
                if !queue_refs(init).contains(x) {
                    assert(cmd_refs(last).to_set().contains(x));
                    assert(fresh_of_w.contains(x));
                    assert(fresh_now.contains(x));
                }
            }
            assert forall|x: Entity|
                mat_init.union(fresh_now).contains(x) implies materialized(w, q).contains(
                x,
            ) by {
                if mat_init.contains(x) {
                    assert(queue_refs(init).contains(x) && !w.has(x));
                } else {
                    assert(fresh_now.contains(x));
                    assert(cmd_refs(last).to_set().contains(x));
                    assert(!w1.has(x));
                    assert(!w.has(x));
                }
            }
        }
        assert(mat_init.disjoint(fresh_now)) by {
            assert forall|x: Entity| mat_init.contains(x) implies !fresh_now.contains(x) by {
                if fresh_now.contains(x) {
                    assert(fresh_of_w.difference(mat_init).contains(x));
                }
            }
        }
        lemma_disjoint_union_len(mat_init, fresh_now);
        assert(materialized(w, q).len() == mat_init.len() + fresh_now.len());
    }
}

/// Bringing a list of entities to life grows the store by exactly the
/// number of distinct entities of the list that were not yet live.
proof fn lemma_ensure_all_count(w: WorldV, cs: Seq<Entity>)
    requires
        w.wf(),
        forall|i: int| 0 <= i < cs.len() ==> (#[trigger] cs[i]).id < w.next_id,
    ensures
        cs.to_set().filter(|e: Entity| !w.has(e)).finite(),
        w.ensure_all(cs).records.len() == w.records.len() + cs.to_set().filter(
            |e: Entity| !w.has(e),
        ).len(),
    decreases cs.len(),
{
    broadcast use vstd::seq_lib::seq_to_set_is_finite;

    cs.to_set().lemma_len_filter(|e: Entity| !w.has(e));
    if cs.len() > 0 {
        let init = cs.drop_last();
        let last = cs.last();
        assert forall|i: int|
            0 <= i < init.len() implies (#[trigger] init[i]).id < w.next_id by {
            assert(init[i] == cs[i]);
        }
        lemma_ensure_all_count(w, init);
        lemma_ensure_all(w, init);
        let w1 = w.ensure_all(init);
        lemma_ensure_rec(w1, last);
        let f_init = init.to_set().filter(|e: Entity| !w.has(e));
        let f_all = cs.to_set().filter(|e: Entity| !w.has(e));
        init.to_set().lemma_len_filter(|e: Entity| !w.has(e));
        assert(cs.to_set() =~= init.to_set().insert(last)) by {
            assert forall|x: Entity| cs.to_set().contains(x) implies init.to_set().insert(
                last,
            ).contains(x) by {
                let i = choose|i: int| 0 <= i < cs.len() && cs[i] == x;
                if i < cs.len() - 1 {
                    assert(init[i] == x);
                }
            }
            assert forall|x: Entity|
                init.to_set().insert(last).contains(x) implies cs.to_set().contains(x) by {
                if x == last {
                    assert(cs[cs.len() - 1] == x);
                } else {
                    let i = choose|i: int| 0 <= i < init.len() && init[i] == x;
                    assert(cs[i] == x);
                }
            }
        }
        // whether the last entity is new to the intermediate store decides
        // both sides of the count
        if w1.has(last) {
            assert(w.has(last) || init.contains(last)) by {
                if !w.has(last) {
                    assert(init.contains(last));
                }
            }
            assert(f_all =~= f_init) by {
                assert forall|x: Entity| f_all.contains(x) implies f_init.contains(x) by {
                    if x == last {
                        assert(init.contains(last));
                        let i = choose|i: int| 0 <= i < init.len() && init[i] == x;
                        assert(init.to_set().contains(x));
                    }
                }
            }
        } else {
            assert(!w.has(last));
            assert(!init.contains(last)) by {
                if init.contains(last) {
                    assert(w1.has(last));
                }
            }
            assert(f_all =~= f_init.insert(last));
            assert(!f_init.contains(last)) by {
                if f_init.contains(last) {
                    assert(init.to_set().contains(last));
                }
            }
        }
    } else {
        assert(cs.to_set() =~= Set::<Entity>::empty());
        assert(cs.to_set().filter(|e: Entity| !w.has(e)) =~= Set::<Entity>::empty());
    }
}

} // verus!
