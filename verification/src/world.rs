//! The entity/component store the deferred commands are applied against.
//!
//! The store keeps one record per live entity: its components, its parent
//! and its children, in attachment order. The store is only ever mutated
//! through [`crate::Commands::flush`] applying queued commands, or through
//! the narrow interface of direct operations below, and it maintains mutual
//! parent/child consistency throughout: an entity appears in a parent's
//! children exactly when its recorded parent is that entity, and it appears
//! there exactly once.

use vstd::prelude::*;

use crate::command::Commands;
use crate::consistency::lemma_attach;
use crate::consistency::lemma_attach_all;
use crate::consistency::lemma_ensure_rec;
use crate::consistency::lemma_kind_idx;
use crate::consistency::lemma_rec_entity;
use crate::consistency::lemma_set_bundle;
use crate::consistency::lemma_set_comp;
use crate::consistency::lemma_spawn_blank;
use crate::consistency::lemma_spawn_one;
use crate::types::copy_entities;
use crate::types::Bundle;
use crate::types::Component;
use crate::types::Entity;

verus! {

/// The mathematical value of one entity record.
pub struct RecordV {
    pub entity: Entity,
    pub components: Seq<Component>,
    pub parent: Option<Entity>,
    pub children: Seq<Entity>,
}

/// The mathematical value of the store: the records in spawn order and the
/// next entity id the store would allocate.
pub struct WorldV {
    pub records: Seq<RecordV>,
    pub next_id: u64,
}

/// No entity occurs twice in the list.
pub open spec fn entities_nodup(s: Seq<Entity>) -> bool {
    forall|k: int, l: int|
        0 <= k < s.len() && 0 <= l < s.len() && k != l ==> (#[trigger] s[k]) != (#[trigger] s[l])
}

/// No two components of the list share a kind.
pub open spec fn kinds_nodup(s: Seq<Component>) -> bool {
    forall|k: int, l: int|
        0 <= k < s.len() && 0 <= l < s.len() && k != l ==> (#[trigger] s[k]).kind != (
        #[trigger] s[l]).kind
}

/// Whether some component of `comps` has kind `kind`.
pub open spec fn has_kind(comps: Seq<Component>, kind: u64) -> bool {
    exists|k: int| 0 <= k < comps.len() && (#[trigger] comps[k]).kind == kind
}

/// The position of the component of kind `kind` in `comps`; meaningful only
/// when `has_kind` holds and kinds are unique.
pub open spec fn kind_idx(comps: Seq<Component>, kind: u64) -> int {
    choose|k: int| 0 <= k < comps.len() && (#[trigger] comps[k]).kind == kind
}

/// Attaching a component to a list of components: replace the component of
/// the same kind if there is one, append otherwise.
pub open spec fn set_comp_seq(comps: Seq<Component>, c: Component) -> Seq<Component> {
    if has_kind(comps, c.kind) {
        comps.update(kind_idx(comps, c.kind), c)
    } else {
        comps.push(c)
    }
}

/// Attaching every component of `b` to a list of components, in order.
pub open spec fn apply_bundle(comps: Seq<Component>, b: Seq<Component>) -> Seq<Component>
    decreases b.len(),
{
    if b.len() == 0 {
        comps
    } else {
        set_comp_seq(apply_bundle(comps, b.drop_last()), b.last())
    }
}

impl WorldV {
    /// Whether an entity is live in the store.
    pub open spec fn has(self, e: Entity) -> bool {
        exists|i: int| 0 <= i < self.records.len() && (#[trigger] self.records[i]).entity == e
    }

    /// The position of `e`'s record; meaningful only when `has(e)` holds and
    /// ids are unique.
    pub open spec fn idx(self, e: Entity) -> int {
        choose|i: int| 0 <= i < self.records.len() && (#[trigger] self.records[i]).entity == e
    }

    /// The record of a live entity.
    pub open spec fn rec(self, e: Entity) -> RecordV
        recommends
            self.has(e),
    {
        self.records[self.idx(e)]
    }

    /// The recorded parent of a live entity.
    pub open spec fn parent_of(self, e: Entity) -> Option<Entity>
        recommends
            self.has(e),
    {
        self.rec(e).parent
    }

    /// The recorded children of a live entity, in attachment order.
    pub open spec fn children_of(self, e: Entity) -> Seq<Entity>
        recommends
            self.has(e),
    {
        self.rec(e).children
    }

    /// The components of a live entity, in attachment order.
    pub open spec fn comps_of(self, e: Entity) -> Seq<Component>
        recommends
            self.has(e),
    {
        self.rec(e).components
    }

    /// No two records share an entity id.
    pub open spec fn ids_unique(self) -> bool {
        forall|i: int, j: int|
            0 <= i < self.records.len() && 0 <= j < self.records.len() && i != j ==> (
            #[trigger] self.records[i]).entity != (#[trigger] self.records[j]).entity
    }

    /// Every live id is below the allocation mark.
    pub open spec fn ids_bounded(self) -> bool {
        forall|i: int|
            0 <= i < self.records.len() ==> (#[trigger] self.records[i]).entity.id < self.next_id
    }

    /// Every child entry is live and points back to the parent that lists it.
    pub open spec fn children_consistent(self) -> bool {
        forall|i: int, k: int|
            0 <= i < self.records.len() && 0 <= k < self.records[i].children.len() ==> {
                let c = #[trigger] self.records[i].children[k];
                &&& self.has(c)
                &&& self.rec(c).parent == Some(self.records[i].entity)
            }
    }

    /// No children list mentions the same entity twice.
    pub open spec fn children_nodup(self) -> bool {
        forall|i: int|
            0 <= i < self.records.len() ==> entities_nodup((#[trigger] self.records[i]).children)
    }

    /// Every recorded parent is live and lists the child among its children.
    pub open spec fn parents_consistent(self) -> bool {
        forall|i: int|
            0 <= i < self.records.len() && (#[trigger] self.records[i]).parent is Some ==> {
                let p = self.records[i].parent->0;
                &&& self.has(p)
                &&& self.rec(p).children.contains(self.records[i].entity)
            }
    }

    /// No record holds two components of the same kind.
    pub open spec fn comps_nodup(self) -> bool {
        forall|i: int|
            0 <= i < self.records.len() ==> kinds_nodup((#[trigger] self.records[i]).components)
    }

    /// The store's invariant: unique bounded ids and mutually consistent,
    /// duplicate-free parent/child relations.
    pub open spec fn wf(self) -> bool {
        &&& self.ids_unique()
        &&& self.ids_bounded()
        &&& self.children_consistent()
        &&& self.children_nodup()
        &&& self.parents_consistent()
        &&& self.comps_nodup()
    }

    /// The store with the record at position `i` replaced.
    pub open spec fn with_rec(self, i: int, r: RecordV) -> WorldV {
        WorldV { records: self.records.update(i, r), next_id: self.next_id }
    }

    /// The record a bare entity starts from: no components, no parent, no
    /// children.
    pub open spec fn blank_rec(e: Entity) -> RecordV {
        RecordV {
            entity: e,
            components: Seq::<Component>::empty(),
            parent: None,
            children: Seq::<Entity>::empty(),
        }
    }

    /// The store with a record for `e` present: unchanged if `e` is live,
    /// else extended by a blank record for `e`.
    pub open spec fn ensure_rec(self, e: Entity) -> WorldV {
        if self.has(e) {
            self
        } else {
            WorldV {
                records: self.records.push(WorldV::blank_rec(e)),
                next_id: self.next_id,
            }
        }
    }

    /// The store with every entity of `cs` ensured live, in order.
    pub open spec fn ensure_all(self, cs: Seq<Entity>) -> WorldV
        decreases cs.len(),
    {
        if cs.len() == 0 {
            self
        } else {
            self.ensure_all(cs.drop_last()).ensure_rec(cs.last())
        }
    }

    /// The store with component `c` attached to the live entity `e`,
    /// replacing any component of the same kind.
    pub open spec fn set_comp(self, e: Entity, c: Component) -> WorldV
        recommends
            self.has(e),
    {
        let i = self.idx(e);
        self.with_rec(
            i,
            RecordV { components: set_comp_seq(self.records[i].components, c), ..self.records[i] },
        )
    }

    /// The store with every component of `b` attached to the live entity
    /// `e`, in order.
    pub open spec fn set_bundle_comps(self, e: Entity, b: Seq<Component>) -> WorldV
        recommends
            self.has(e),
        decreases b.len(),
    {
        if b.len() == 0 {
            self
        } else {
            self.set_bundle_comps(e, b.drop_last()).set_comp(e, b.last())
        }
    }

    /// The store with the live entity `c` detached from its parent, if it
    /// has one: `c` leaves the parent's children and its recorded parent is
    /// cleared.
    pub open spec fn detach(self, c: Entity) -> WorldV
        recommends
            self.has(c),
    {
        match self.rec(c).parent {
            Some(p) => {
                let w1 = if self.has(p) {
                    let pi = self.idx(p);
                    self.with_rec(
                        pi,
                        RecordV {
                            children: self.records[pi].children.remove_value(c),
                            ..self.records[pi]
                        },
                    )
                } else {
                    self
                };
                let ci = w1.idx(c);
                w1.with_rec(ci, RecordV { parent: None, ..w1.records[ci] })
            },
            None => self,
        }
    }

    /// The store with the live entity `c` recorded as the last child of the
    /// live entity `p`, replacing any previous parent relation of `c`.
    pub open spec fn attach(self, p: Entity, c: Entity) -> WorldV
        recommends
            self.has(p),
            self.has(c),
    {
        let w1 = self.detach(c);
        let ci = w1.idx(c);
        let w2 = w1.with_rec(ci, RecordV { parent: Some(p), ..w1.records[ci] });
        let pi = w2.idx(p);
        w2.with_rec(
            pi,
            RecordV { children: w2.records[pi].children.push(c), ..w2.records[pi] },
        )
    }

    /// The store with every entity of `cs` attached to `p`, in order.
    pub open spec fn attach_all(self, p: Entity, cs: Seq<Entity>) -> WorldV
        recommends
            self.has(p),
        decreases cs.len(),
    {
        if cs.len() == 0 {
            self
        } else {
            self.attach_all(p, cs.drop_last()).attach(p, cs.last())
        }
    }

    /// The store with one new bare entity spawned at the allocation mark.
    pub open spec fn spawn_blank(self) -> WorldV
        recommends
            self.next_id < u64::MAX,
    {
        WorldV {
            records: self.records.push(WorldV::blank_rec(Entity { id: self.next_id })),
            next_id: (self.next_id + 1) as u64,
        }
    }

    /// The store with one new entity spawned at the allocation mark,
    /// carrying the components of bundle `b` attached in order.
    pub open spec fn spawn_one(self, b: Seq<Component>) -> WorldV
        recommends
            self.next_id < u64::MAX,
    {
        self.spawn_blank().set_bundle_comps(Entity { id: self.next_id }, b)
    }

    /// The store with one new entity spawned per element of `bs`, in order.
    pub open spec fn spawn_all(self, bs: Seq<Seq<Component>>) -> WorldV
        decreases bs.len(),
    {
        if bs.len() == 0 {
            self
        } else {
            self.spawn_all(bs.drop_last()).spawn_one(bs.last())
        }
    }

    /// The `n` entity ids a batch spawn starting at this store's allocation
    /// mark produces, in spawn order.
    pub open spec fn batch_ids(self, n: int) -> Seq<Entity> {
        Seq::new(n as nat, |i: int| Entity { id: (self.next_id + i) as u64 })
    }

    /// The store with the record at position `i` removed.
    pub open spec fn drop_rec(self, i: int) -> WorldV {
        WorldV { records: self.records.remove(i), next_id: self.next_id }
    }

    /// The store with the recorded parent of `c` cleared, if `c` is live.
    pub open spec fn orphan_one(self, c: Entity) -> WorldV {
        if self.has(c) {
            let ci = self.idx(c);
            self.with_rec(ci, RecordV { parent: None, ..self.records[ci] })
        } else {
            self
        }
    }

    /// The store with the recorded parent of every live entity of `cs`
    /// cleared, in order.
    pub open spec fn orphan_all(self, cs: Seq<Entity>) -> WorldV
        decreases cs.len(),
    {
        if cs.len() == 0 {
            self
        } else {
            self.orphan_all(cs.drop_last()).orphan_one(cs.last())
        }
    }

    /// The store with the live entity `e` removed: its record is gone, it
    /// leaves its parent's children, and its own children become parentless.
    pub open spec fn despawn_rec(self, e: Entity) -> WorldV {
        if !self.has(e) {
            self
        } else {
            let r = self.rec(e);
            let w1 = self.drop_rec(self.idx(e));
            let w2 = match r.parent {
                Some(p) => if w1.has(p) {
                    let pi = w1.idx(p);
                    w1.with_rec(
                        pi,
                        RecordV {
                            children: w1.records[pi].children.remove_value(e),
                            ..w1.records[pi]
                        },
                    )
                } else {
                    w1
                },
                None => w1,
            };
            w2.orphan_all(r.children)
        }
    }
}

/// If a record at position `i` carries entity `e` and ids are unique, then
/// `e` is live and its record is the one at `i`.
pub proof fn lemma_idx(w: WorldV, e: Entity, i: int)
    requires
        w.ids_unique(),
        0 <= i < w.records.len(),
        w.records[i].entity == e,
    ensures
        w.has(e),
        w.idx(e) == i,
{
    assert(w.has(e));
    let j = w.idx(e);
    if j != i {
        assert(w.records[i].entity != w.records[j].entity);
    }
}

/// One entity record of the store.
pub struct Record {
    pub entity: Entity,
    pub components: Vec<Component>,
    pub parent: Option<Entity>,
    pub children: Vec<Entity>,
}

impl View for Record {
    type V = RecordV;

    open spec fn view(&self) -> RecordV {
        RecordV {
            entity: self.entity,
            components: self.components@,
            parent: self.parent,
            children: self.children@,
        }
    }
}

/// The entity/component store.
pub struct World {
    records: Vec<Record>,
    next_id: u64,
}

impl View for World {
    type V = WorldV;

    closed spec fn view(&self) -> WorldV {
        WorldV { records: self.records@.map_values(|r: Record| r@), next_id: self.next_id }
    }
}

impl World {
    /// An empty store: no entities, ids start at zero.
    pub fn new() -> (w: World)
        ensures
            w@.records.len() == 0,
            w@.next_id == 0,
            w@.wf(),
    {
        let records: Vec<Record> = Vec::new();
        proof {
            assert(records@.map_values(|r: Record| r@) =~= Seq::<RecordV>::empty());
        }
        World { records, next_id: 0 }
    }

    /// A fresh deferred command queue whose id reservation window starts at
    /// this store's allocation mark.
    pub fn commands(&self) -> (c: Commands)
        ensures
            c.wf(),
            c@.queue.len() == 0,
            c@.base == self@.next_id,
            c@.next_id == self@.next_id,
    {
        Commands::new_with_mark(self.next_id)
    }

    /// The position of `e`'s record, if `e` is live.
    fn find(&self, e: Entity) -> (r: Option<usize>)
        ensures
            r is Some ==> r->0 < self@.records.len() && self@.records[r->0 as int].entity == e,
            r is None ==> !self@.has(e),
    {
        let n = self.records.len();
        let mut i: usize = 0;
        while i < n
            invariant
                n == self@.records.len(),
                i <= n,
                forall|j: int| 0 <= j < i ==> (#[trigger] self@.records[j]).entity != e,
            decreases n - i,
        {
            if self.records[i].entity == e {
                return Some(i);
            }
            i = i + 1;
        }
        None
    }

    /// Whether an entity is live in the store.
    pub fn contains(&self, e: Entity) -> (r: bool)
        requires
            self@.wf(),
        ensures
            r == self@.has(e),
    {
        match self.find(e) {
            Some(i) => {
                proof {
                    lemma_idx(self@, e, i as int);
                }
                true
            },
            None => false,
        }
    }

    /// The number of live entities.
    pub fn entity_count(&self) -> (n: usize)
        ensures
            n == self@.records.len(),
    {
        self.records.len()
    }

    /// The live entities, in spawn order.
    pub fn entities(&self) -> (r: Vec<Entity>)
        ensures
            r@.len() == self@.records.len(),
            forall|i: int| 0 <= i < r@.len() ==> r@[i] == (#[trigger] self@.records[i]).entity,
    {
        let n = self.records.len();
        let mut r: Vec<Entity> = Vec::new();
        let mut i: usize = 0;
        while i < n
            invariant
                n == self@.records.len(),
                i <= n,
                r@.len() == i,
                forall|j: int| 0 <= j < i ==> r@[j] == (#[trigger] self@.records[j]).entity,
            decreases n - i,
        {
            r.push(self.records[i].entity);
            i = i + 1;
        }
        r
    }

    /// The recorded parent of `e`, or `None` if `e` is not live or has no
    /// parent.
    pub fn parent_of(&self, e: Entity) -> (r: Option<Entity>)
        requires
            self@.wf(),
        ensures
            r == if self@.has(e) {
                self@.parent_of(e)
            } else {
                Option::<Entity>::None
            },
    {
        match self.find(e) {
            Some(i) => {
                proof {
                    lemma_idx(self@, e, i as int);
                }
                self.records[i].parent
            },
            None => None,
        }
    }

    /// The recorded children of `e` in attachment order, or the empty list
    /// if `e` is not live.
    pub fn children_of(&self, e: Entity) -> (r: Vec<Entity>)
        requires
            self@.wf(),
        ensures
            r@ == if self@.has(e) {
                self@.children_of(e)
            } else {
                Seq::<Entity>::empty()
            },
    {
        match self.find(e) {
            Some(i) => {
                proof {
                    lemma_idx(self@, e, i as int);
                }
                copy_entities(self.records[i].children.as_slice())
            },
            None => {
                let r: Vec<Entity> = Vec::new();
                proof {
                    assert(r@ =~= Seq::<Entity>::empty());
                }
                r
            },
        }
    }

    /// The store's allocation mark: the next entity id it would allocate.
    pub fn mark(&self) -> (n: u64)
        ensures
            n == self@.next_id,
    {
        self.next_id
    }

    /// Raise the allocation mark to `n` if it is below it.
    pub(crate) fn bump_mark(&mut self, n: u64)
        ensures
            final(self)@.records == old(self)@.records,
            final(self)@.next_id == (if n > old(self)@.next_id {
                n
            } else {
                old(self)@.next_id
            }),
    {
        if n > self.next_id {
            self.next_id = n;
        }
    }

    /// Make sure a record for `e` exists: a no-op if `e` is live, else a
    /// blank record is added for it.
    pub(crate) fn ensure_entity(&mut self, e: Entity)
        requires
            old(self)@.wf(),
            e.id < old(self)@.next_id,
        ensures
            final(self)@ == old(self)@.ensure_rec(e),
            final(self)@.wf(),
    {
        proof {
            lemma_ensure_rec(old(self)@, e);
        }
        match self.find(e) {
            Some(i) => {
                proof {
                    lemma_idx(old(self)@, e, i as int);
                }
            },
            None => {
                let components: Vec<Component> = Vec::new();
                let children: Vec<Entity> = Vec::new();
                let ghost prior = self.records@.map_values(|r: Record| r@);
                self.records.push(Record { entity: e, components, parent: None, children });
                proof {
                    assert(self.records@.map_values(|r: Record| r@) =~= prior.push(
                        WorldV::blank_rec(e),
                    ));
                }
            },
        }
    }

    /// Make sure a record exists for every entity of `es`, in order.
    pub(crate) fn ensure_entities(&mut self, es: &[Entity])
        requires
            old(self)@.wf(),
            forall|i: int| 0 <= i < es@.len() ==> (#[trigger] es@[i]).id < old(self)@.next_id,
        ensures
            final(self)@ == old(self)@.ensure_all(es@),
            final(self)@.wf(),
    {
        let ghost w0 = self@;
        let n = es.len();
        let mut k: usize = 0;
        while k < n
            invariant
                n == es@.len(),
                k <= n,
                w0.wf(),
                forall|i: int| 0 <= i < n ==> (#[trigger] es@[i]).id < w0.next_id,
                self@ == w0.ensure_all(es@.take(k as int)),
            decreases n - k,
        {
            proof {
                let pre = es@.take(k as int);
                assert forall|i: int|
                    0 <= i < pre.len() implies (#[trigger] pre[i]).id < w0.next_id by {
                    assert(pre[i] == es@[i]);
                }
                crate::consistency::lemma_ensure_all(w0, pre);
            }
            self.ensure_entity(es[k]);
            proof {
                let ck = es@.take(k + 1 as int);
                assert(ck.drop_last() =~= es@.take(k as int));
                assert(ck.last() == es@[k as int]);
            }
            k = k + 1;
        }
        proof {
            assert(es@.take(n as int) =~= es@);
            assert forall|i: int|
                0 <= i < es@.len() implies (#[trigger] es@[i]).id < w0.next_id by {}
            crate::consistency::lemma_ensure_all(w0, es@);
        }
    }

    /// Attach component `c` to the live entity `e`, replacing any component
    /// of the same kind.
    pub fn set_component(&mut self, e: Entity, c: Component)
        requires
            old(self)@.wf(),
            old(self)@.has(e),
        ensures
            final(self)@ == old(self)@.set_comp(e, c),
            final(self)@.wf(),
    {
        proof {
            lemma_set_comp(old(self)@, e, c);
        }
        let ghost w0 = self@;
        let i = self.find(e).unwrap();
        proof {
            lemma_idx(w0, e, i as int);
            lemma_rec_entity(w0, e);
            assert(kinds_nodup(w0.records[i as int].components));
        }
        set_comp_at(&mut self.records, i, c);
        proof {
            assert(self.records@.map_values(|r2: Record| r2@) =~= w0.records.update(
                i as int,
                self.records@[i as int]@,
            ));
            assert(self@ == w0.set_comp(e, c));
        }
    }

    /// Attach every component of `bundle` to the live entity `e`, in order.
    pub fn set_bundle(&mut self, e: Entity, bundle: &Bundle)
        requires
            old(self)@.wf(),
            old(self)@.has(e),
        ensures
            final(self)@ == old(self)@.set_bundle_comps(e, bundle@),
            final(self)@.wf(),
    {
        let ghost w0 = self@;
        let n = bundle.components.len();
        let mut k: usize = 0;
        while k < n
            invariant
                n == bundle@.len(),
                k <= n,
                w0.wf(),
                w0.has(e),
                self@ == w0.set_bundle_comps(e, bundle@.take(k as int)),
            decreases n - k,
        {
            proof {
                lemma_set_bundle(w0, e, bundle@.take(k as int));
            }
            self.set_component(e, bundle.components[k]);
            proof {
                let bk = bundle@.take(k + 1 as int);
                assert(bk.drop_last() =~= bundle@.take(k as int));
                assert(bk.last() == bundle@[k as int]);
            }
            k = k + 1;
        }
        proof {
            assert(bundle@.take(n as int) =~= bundle@);
            lemma_set_bundle(w0, e, bundle@);
        }
    }

    /// Spawn a bare entity at the allocation mark.
    pub fn spawn(&mut self) -> (e: Entity)
        requires
            old(self)@.wf(),
            old(self)@.next_id < u64::MAX,
        ensures
            final(self)@ == old(self)@.spawn_blank(),
            final(self)@.wf(),
            e == (Entity { id: old(self)@.next_id }),
    {
        proof {
            lemma_spawn_blank(old(self)@);
        }
        let e = Entity { id: self.next_id };
        let components: Vec<Component> = Vec::new();
        let children: Vec<Entity> = Vec::new();
        let ghost prior = self.records@.map_values(|r: Record| r@);
        self.records.push(Record { entity: e, components, parent: None, children });
        self.next_id = self.next_id + 1;
        proof {
            assert(self.records@.map_values(|r: Record| r@) =~= prior.push(WorldV::blank_rec(e)));
        }
        e
    }

    /// Spawn an entity at the allocation mark and attach the components of
    /// `bundle` to it, in order.
    pub fn spawn_with(&mut self, bundle: &Bundle) -> (e: Entity)
        requires
            old(self)@.wf(),
            old(self)@.next_id < u64::MAX,
        ensures
            final(self)@ == old(self)@.spawn_one(bundle@),
            final(self)@.wf(),
            e == (Entity { id: old(self)@.next_id }),
    {
        proof {
            lemma_spawn_blank(old(self)@);
            lemma_spawn_one(old(self)@, bundle@);
        }
        let e = self.spawn();
        self.set_bundle(e, bundle);
        e
    }

    /// Spawn one entity per bundle of `bundles`, in input order, and return
    /// their ids in that order.
    pub fn spawn_batch(&mut self, bundles: &Vec<Bundle>) -> (ids: Vec<Entity>)
        requires
            old(self)@.wf(),
            old(self)@.next_id + bundles@.len() <= u64::MAX,
        ensures
            final(self)@ == old(self)@.spawn_all(bundles@.map_values(|b: Bundle| b@)),
            final(self)@.wf(),
            ids@ == old(self)@.batch_ids(bundles@.len() as int),
    {
        let ghost w0 = self@;
        let ghost bsv = bundles@.map_values(|b: Bundle| b@);
        let n = bundles.len();
        let mut ids: Vec<Entity> = Vec::new();
        let mut k: usize = 0;
        proof {
            assert(ids@ =~= w0.batch_ids(0));
        }
        while k < n
            invariant
                n == bundles@.len(),
                bsv == bundles@.map_values(|b: Bundle| b@),
                k <= n,
                w0.wf(),
                w0.next_id + n <= u64::MAX,
                self@ == w0.spawn_all(bsv.take(k as int)),
                ids@ == w0.batch_ids(k as int),
            decreases n - k,
        {
            proof {
                crate::consistency::lemma_spawn_all(w0, bsv.take(k as int));
            }
            let e = self.spawn_with(&bundles[k]);
            ids.push(e);
            proof {
                let bk = bsv.take(k + 1 as int);
                assert(bk.drop_last() =~= bsv.take(k as int));
                assert(bk.last() == bundles@[k as int]@);
                assert(ids@ =~= w0.batch_ids(k + 1 as int));
            }
            k = k + 1;
        }
        proof {
            assert(bsv.take(n as int) =~= bsv);
            crate::consistency::lemma_spawn_all(w0, bsv);
        }
        ids
    }

    /// Record the live entity `c` as the last child of the live entity `p`,
    /// detaching `c` from any previous parent first.
    pub fn attach_child(&mut self, p: Entity, c: Entity)
        requires
            old(self)@.wf(),
            old(self)@.has(p),
            old(self)@.has(c),
        ensures
            final(self)@ == old(self)@.attach(p, c),
            final(self)@.wf(),
    {
        proof {
            lemma_attach(old(self)@, p, c);
            crate::consistency::lemma_detach(old(self)@, c);
        }
        let ghost w0 = self@;
        // detach c from its previous parent
        let ci = self.find(c).unwrap();
        proof {
            lemma_idx(w0, c, ci as int);
        }
        let old_parent = self.records[ci].parent;
        match old_parent {
            Some(q) => {
                proof {
                    assert(w0.records[ci as int].parent is Some);
                    assert(w0.records[ci as int].parent->0 == q);
                    assert(w0.has(q) && w0.rec(q).children.contains(c));
                }
                let qi = self.find(q).unwrap();
                proof {
                    lemma_idx(w0, q, qi as int);
                    lemma_rec_entity(w0, q);
                    assert(w0.records[qi as int].children.contains(c));
                    assert(entities_nodup(w0.records[qi as int].children));
                }
                remove_child_at(&mut self.records, qi, c);
                proof {
                    assert(self.records@.map_values(|r2: Record| r2@) =~= w0.records.update(
                        qi as int,
                        self.records@[qi as int]@,
                    ));
                    assert(self@ == w0.with_rec(
                        qi as int,
                        RecordV {
                            children: w0.records[qi as int].children.remove_value(c),
                            ..w0.records[qi as int]
                        },
                    ));
                }
            },
            None => {},
        }
        let ghost w1 = self@;
        proof {
            assert(w1.records.len() == w0.records.len());
            assert forall|j: int|
                0 <= j < w1.records.len() implies (#[trigger] w1.records[j]).entity
                == w0.records[j].entity by {}
            assert(w1.ids_unique());
            assert(w1.records[ci as int].entity == c);
            lemma_idx(w1, c, ci as int);
        }
        set_parent_at(&mut self.records, ci, None);
        proof {
            assert(self.records@.map_values(|r2: Record| r2@) =~= w1.records.update(
                ci as int,
                self.records@[ci as int]@,
            ));
            assert(self@ == w1.with_rec(
                ci as int,
                RecordV { parent: None, ..w1.records[ci as int] },
            ));
            if w0.rec(c).parent is Some {
                assert(self@ == w0.detach(c));
            } else {
                assert(w1 == w0);
                assert(w1.records[ci as int].parent is None);
                assert((RecordV { parent: None, ..w1.records[ci as int] }) == w1.records[ci as int]);
                assert(w1.records.update(ci as int, w1.records[ci as int]) =~= w1.records);
                assert(self@.records == w0.records);
                assert(self@ == w0.detach(c));
            }
        }
        let ghost wd = self@;
        proof {
            assert(wd == w0.detach(c));
            assert(wd.records[ci as int].entity == c);
            lemma_idx(wd, c, ci as int);
            crate::consistency::lemma_with_rec(
                wd,
                ci as int,
                RecordV { parent: Some(p), ..wd.records[ci as int] },
            );
        }
        // record the new parent
        set_parent_at(&mut self.records, ci, Some(p));
        proof {
            assert(self.records@.map_values(|r2: Record| r2@) =~= wd.records.update(
                ci as int,
                self.records@[ci as int]@,
            ));
            assert(self@ == wd.with_rec(
                wd.idx(c),
                RecordV { parent: Some(p), ..wd.records[wd.idx(c)] },
            ));
        }
        let ghost wa = self@;
        // and the new child entry, last in the parent's list
        proof {
            assert(wa.has(p));
        }
        let pi = self.find(p).unwrap();
        proof {
            lemma_idx(wa, p, pi as int);
        }
        push_child_at(&mut self.records, pi, c);
        proof {
            assert(self.records@.map_values(|r2: Record| r2@) =~= wa.records.update(
                pi as int,
                self.records@[pi as int]@,
            ));
            assert(self@ == wa.with_rec(
                wa.idx(p),
                RecordV {
                    children: wa.records[wa.idx(p)].children.push(c),
                    ..wa.records[wa.idx(p)]
                },
            ));
            assert(self@ == w0.attach(p, c));
        }
    }

    /// Attach every entity of `children` to the live entity `p`, in order.
    pub fn attach_children(&mut self, p: Entity, children: &[Entity])
        requires
            old(self)@.wf(),
            old(self)@.has(p),
            forall|i: int| 0 <= i < children@.len() ==> old(self)@.has(#[trigger] children@[i]),
        ensures
            final(self)@ == old(self)@.attach_all(p, children@),
            final(self)@.wf(),
    {
        let ghost w0 = self@;
        let n = children.len();
        let mut k: usize = 0;
        while k < n
            invariant
                n == children@.len(),
                k <= n,
                w0.wf(),
                w0.has(p),
                forall|i: int| 0 <= i < n ==> w0.has(#[trigger] children@[i]),
                self@ == w0.attach_all(p, children@.take(k as int)),
            decreases n - k,
        {
            proof {
                let pre = children@.take(k as int);
                assert forall|i: int| 0 <= i < pre.len() implies w0.has(#[trigger] pre[i]) by {
                    assert(pre[i] == children@[i]);
                }
                lemma_attach_all(w0, p, pre);
            }
            self.attach_child(p, children[k]);
            proof {
                let ck = children@.take(k + 1 as int);
                assert(ck.drop_last() =~= children@.take(k as int));
                assert(ck.last() == children@[k as int]);
            }
            k = k + 1;
        }
        proof {
            assert(children@.take(n as int) =~= children@);
            lemma_attach_all(w0, p, children@);
        }
    }

    /// Remove the entity `e` from the store, if it is live: its record is
    /// gone, it leaves its parent's children, and its own children become
    /// parentless. Returns whether anything was removed. Commands already
    /// enqueued against a removed entity are stale: a later flush of such a
    /// queue reports the reference and applies nothing.
    pub fn despawn(&mut self, e: Entity) -> (r: bool)
        requires
            old(self)@.wf(),
        ensures
            final(self)@ == old(self)@.despawn_rec(e),
            final(self)@.wf(),
            r == old(self)@.has(e),
    {
        proof {
            crate::consistency::lemma_despawn(old(self)@, e);
        }
        let ghost w0 = self@;
        let i = match self.find(e) {
            Some(i) => i,
            None => {
                return false;
            },
        };
        proof {
            lemma_idx(w0, e, i as int);
            crate::consistency::lemma_drop_rec(w0, i as int);
        }
        let removed = self.records.remove(i);
        proof {
            let oldv = w0.records;
            oldv.remove_ensures(i as int);
            assert(self.records@.map_values(|r2: Record| r2@) =~= oldv.remove(i as int));
            assert(self@ == w0.drop_rec(i as int));
            assert(removed@ == w0.rec(e));
        }
        let ghost w1 = self@;
        // detach the removed entity from its parent's children
        match removed.parent {
            Some(p) => {
                match self.find(p) {
                    Some(pi) => {
                        proof {
                            lemma_idx(w1, p, pi as int);
                            assert(w1.rec(p) == w0.rec(p));
                            assert(w0.rec(p).children.contains(e)) by {
                                let j = w0.idx(e);
                                assert(w0.records[j].parent is Some && w0.records[j].parent->0
                                    == p);
                                assert(w0.rec(p).children.contains(w0.records[j].entity));
                            }
                            crate::consistency::lemma_rec_entity(w1, p);
                        }
                        remove_child_at(&mut self.records, pi, e);
                        proof {
                            assert(self.records@.map_values(|r2: Record| r2@)
                                =~= w1.records.update(pi as int, self.records@[pi as int]@));
                            assert(self@ == w1.with_rec(
                                w1.idx(p),
                                RecordV {
                                    children: w1.records[w1.idx(p)].children.remove_value(e),
                                    ..w1.records[w1.idx(p)]
                                },
                            ));
                            crate::consistency::lemma_with_rec(
                                w1,
                                w1.idx(p),
                                RecordV {
                                    children: w1.records[w1.idx(p)].children.remove_value(e),
                                    ..w1.records[w1.idx(p)]
                                },
                            );
                        }
                    },
                    None => {
                        proof {
                            assert(!w1.has(p));
                        }
                    },
                }
            },
            None => {},
        }
        let ghost w2 = self@;
        proof {
            assert(w2.ids_unique());
            assert(w2 == (match w0.rec(e).parent {
                Some(p) => if w1.has(p) {
                    w1.with_rec(
                        w1.idx(p),
                        RecordV {
                            children: w1.records[w1.idx(p)].children.remove_value(e),
                            ..w1.records[w1.idx(p)]
                        },
                    )
                } else {
                    w1
                },
                None => w1,
            }));
        }
        // the removed entity's children become parentless
        let children = removed.children;
        let n = children.len();
        let mut k: usize = 0;
        while k < n
            invariant
                n == children@.len(),
                k <= n,
                w2.ids_unique(),
                self@ == w2.orphan_all(children@.take(k as int)),
            decreases n - k,
        {
            proof {
                crate::consistency::lemma_orphan_all(w2, children@.take(k as int));
            }
            let ghost cur = self@;
            let c = children[k];
            match self.find(c) {
                Some(ci) => {
                    proof {
                        lemma_idx(cur, c, ci as int);
                        crate::consistency::lemma_rec_entity(cur, c);
                    }
                    set_parent_at(&mut self.records, ci, None);
                    proof {
                        assert(self.records@.map_values(|r2: Record| r2@) =~= cur.records.update(
                            ci as int,
                            self.records@[ci as int]@,
                        ));
                        assert(self@ == cur.with_rec(
                            cur.idx(c),
                            RecordV { parent: None, ..cur.records[cur.idx(c)] },
                        ));
                        assert(self@ == cur.orphan_one(c));
                    }
                },
                None => {
                    proof {
                        assert(!cur.has(c));
                        assert(self@ == cur.orphan_one(c));
                    }
                },
            }
            proof {
                let ck = children@.take(k + 1 as int);
                assert(ck.drop_last() =~= children@.take(k as int));
                assert(ck.last() == children@[k as int]);
            }
            k = k + 1;
        }
        proof {
            assert(children@.take(n as int) =~= children@);
            assert(children@ == w0.rec(e).children);
            assert(self@ == w0.despawn_rec(e));
        }
        true
    }

    /// The component of kind `kind` carried by `e`, if `e` is live and
    /// carries one.
    pub fn get_component(&self, e: Entity, kind: u64) -> (r: Option<Component>)
        requires
            self@.wf(),
        ensures
            (r is Some) <==> (self@.has(e) && has_kind(self@.comps_of(e), kind)),
            r matches Some(c) ==> c == self@.comps_of(e)[kind_idx(self@.comps_of(e), kind)]
                && c.kind == kind,
    {
        match self.find(e) {
            Some(i) => {
                proof {
                    lemma_idx(self@, e, i as int);
                    lemma_rec_entity(self@, e);
                    assert(kinds_nodup(self@.comps_of(e)));
                }
                match find_kind(&self.records[i].components, kind) {
                    Some(k) => {
                        proof {
                            lemma_kind_idx(self@.comps_of(e), kind, k as int);
                        }
                        Some(self.records[i].components[k])
                    },
                    None => None,
                }
            },
            None => None,
        }
    }

    /// Whether `e` is live and carries a component of kind `kind`.
    pub fn has_component(&self, e: Entity, kind: u64) -> (r: bool)
        requires
            self@.wf(),
        ensures
            r == (self@.has(e) && has_kind(self@.comps_of(e), kind)),
    {
        match self.find(e) {
            Some(i) => {
                proof {
                    lemma_idx(self@, e, i as int);
                }
                let comps = &self.records[i].components;
                let n = comps.len();
                let mut k: usize = 0;
                while k < n
                    invariant
                        n == comps@.len(),
                        k <= n,
                        self@.has(e),
                        comps@ == self@.comps_of(e),
                        forall|l: int| 0 <= l < k ==> (#[trigger] comps@[l]).kind != kind,
                    decreases n - k,
                {
                    if comps[k].kind == kind {
                        proof {
                            assert(self@.comps_of(e)[k as int].kind == kind);
                        }
                        return true;
                    }
                    k = k + 1;
                }
                false
            },
            None => false,
        }
    }
}

/// The position of the first component of kind `kind`, if any.
fn find_kind(comps: &Vec<Component>, kind: u64) -> (r: Option<usize>)
    ensures
        r is Some ==> r->0 < comps@.len() && comps@[r->0 as int].kind == kind,
        r is None ==> !has_kind(comps@, kind),
{
    let n = comps.len();
    let mut k: usize = 0;
    while k < n
        invariant
            n == comps@.len(),
            k <= n,
            forall|l: int| 0 <= l < k ==> (#[trigger] comps@[l]).kind != kind,
        decreases n - k,
    {
        if comps[k].kind == kind {
            return Some(k);
        }
        k = k + 1;
    }
    proof {
        if has_kind(comps@, kind) {
            let l = kind_idx(comps@, kind);
            assert(comps@[l].kind != kind);
        }
    }
    None
}

/// The position of the first occurrence of `c`, if any.
fn find_entity(children: &Vec<Entity>, c: Entity) -> (r: Option<usize>)
    ensures
        r is Some ==> r->0 < children@.len() && children@[r->0 as int] == c && (forall|j: int|
            0 <= j < r->0 ==> children@[j] != c),
        r is None ==> !children@.contains(c),
{
    let n = children.len();
    let mut k: usize = 0;
    while k < n
        invariant
            n == children@.len(),
            k <= n,
            forall|l: int| 0 <= l < k ==> children@[l] != c,
        decreases n - k,
    {
        if children[k] == c {
            return Some(k);
        }
        k = k + 1;
    }
    proof {
        if children@.contains(c) {
            let l = choose|l: int| 0 <= l < children@.len() && children@[l] == c;
            assert(children@[l] != c);
        }
    }
    None
}

/// Attach `c` to the component list of the record at `i`, replacing the
/// component of the same kind if there is one.
fn set_comp_at(records: &mut Vec<Record>, i: usize, c: Component)
    requires
        i < old(records)@.len(),
        kinds_nodup(old(records)@[i as int]@.components),
    ensures
        final(records)@.len() == old(records)@.len(),
        forall|j: int|
            0 <= j < old(records)@.len() && j != i ==> final(records)@[j] == old(records)@[j],
        final(records)@[i as int]@ == (RecordV {
            components: set_comp_seq(
                old(records)@[i as int]@.components,
                c,
            ),
            ..old(records)@[i as int]@
        }),
{
    let ghost oldrec = records@[i as int]@;
    let kpos = find_kind(&records[i].components, c.kind);
    match kpos {
        Some(k) => {
            proof {
                lemma_kind_idx(oldrec.components, c.kind, k as int);
            }
            let r = &mut records[i];
            r.components[k] = c;
        },
        None => {
            let r = &mut records[i];
            r.components.push(c);
        },
    }
}

/// Remove the entity `c` from the children list of the record at `i`.
fn remove_child_at(records: &mut Vec<Record>, i: usize, c: Entity)
    requires
        i < old(records)@.len(),
        old(records)@[i as int]@.children.contains(c),
    ensures
        final(records)@.len() == old(records)@.len(),
        forall|j: int|
            0 <= j < old(records)@.len() && j != i ==> final(records)@[j] == old(records)@[j],
        final(records)@[i as int]@ == (RecordV {
            children: old(records)@[i as int]@.children.remove_value(c),
            ..old(records)@[i as int]@
        }),
{
    let ghost s = records@[i as int]@.children;
    let pos = find_entity(&records[i].children, c).unwrap();
    proof {
        s.index_of_first_ensures(c);
        let i0 = s.index_of_first(c)->0;
        if i0 < pos as int {
            assert(s[i0] != c);
        }
        if (pos as int) < i0 {
            assert(s[pos as int] != c);
        }
        assert(i0 == pos as int);
        assert(s.remove_value(c) == s.remove(pos as int));
    }
    let r = &mut records[i];
    r.children.remove(pos);
}

/// Overwrite the recorded parent of the record at `i`.
fn set_parent_at(records: &mut Vec<Record>, i: usize, p: Option<Entity>)
    requires
        i < old(records)@.len(),
    ensures
        final(records)@.len() == old(records)@.len(),
        forall|j: int|
            0 <= j < old(records)@.len() && j != i ==> final(records)@[j] == old(records)@[j],
        final(records)@[i as int]@ == (RecordV { parent: p, ..old(records)@[i as int]@ }),
{
    let r = &mut records[i];
    r.parent = p;
}

/// Append the entity `c` to the children list of the record at `i`.
fn push_child_at(records: &mut Vec<Record>, i: usize, c: Entity)
    requires
        i < old(records)@.len(),
    ensures
        final(records)@.len() == old(records)@.len(),
        forall|j: int|
            0 <= j < old(records)@.len() && j != i ==> final(records)@[j] == old(records)@[j],
        final(records)@[i as int]@ == (RecordV {
            children: old(records)@[i as int]@.children.push(c),
            ..old(records)@[i as int]@
        }),
{
    let r = &mut records[i];
    r.children.push(c);
}

} // verus!
