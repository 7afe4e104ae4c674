//! Cursors: transient values tracking the current position in the hierarchy
//! being built.
//!
//! A [`RootCommands`] is positioned at an entity that is the root of the
//! current hierarchy scope; a [`ChildCommands`] is positioned at an entity
//! with a known parent inside a hierarchy with a known root. Every cursor
//! operation either reserves a new entity id immediately and appends the
//! commands that will link it, or appends a command referencing an id that
//! is already known. No cursor operation touches the store.

use vstd::prelude::*;

use crate::command::Command;
use crate::command::CommandV;
use crate::command::Commands;
use crate::types::copy_entities;
use crate::types::Bundle;
use crate::types::Entity;

verus! {

/// A cursor positioned at entity `entity`, which is the root of the current
/// hierarchy scope. For a root cursor the current entity and the root
/// coincide: `root_id()` and `id()` return the same entity.
#[derive(Clone, Copy, PartialEq, Eq, Structural, Debug)]
pub struct RootCommands {
    pub entity: Entity,
}

/// A cursor positioned at entity `entity`, whose parent is `parent`, within
/// a hierarchy rooted at `root`.
///
/// `root` never changes for the lifetime of the cursor; `parent` never
/// changes except by descending to a child, which hands back a new cursor;
/// `entity` is reassigned in place when advancing to a sibling.
#[derive(Clone, Copy, PartialEq, Eq, Structural, Debug)]
pub struct ChildCommands {
    pub root: Entity,
    pub parent: Entity,
    pub entity: Entity,
}

/// The capability set shared by every cursor kind: report the current
/// position, attach data to the current entity, and descend to children.
pub trait ParentCommands: Sized {
    /// The root of the current hierarchy scope.
    spec fn root_id_spec(&self) -> Entity;

    /// The entity the cursor is positioned at.
    spec fn id_spec(&self) -> Entity;

    /// Returns the id of the root entity of the current hierarchy.
    fn root_id(&self) -> (r: Entity)
        ensures
            r == self.root_id_spec(),
    ;

    /// Returns the id of the current entity.
    fn id(&self) -> (r: Entity)
        ensures
            r == self.id_spec(),
    ;

    /// Enqueue attaching one component to the current entity. The stored
    /// data is untouched until flush.
    fn insert(&self, q: &mut Commands, component: crate::types::Component)
        requires
            old(q).wf(),
        ensures
            final(q).wf(),
            final(q)@.queue == old(q)@.queue.push(CommandV::Insert {
                entity: self.id_spec(),
                component,
            }),
            final(q)@.next_id == old(q)@.next_id,
            final(q)@.base == old(q)@.base,
    ;

    /// Enqueue attaching a bundle of components to the current entity.
    fn insert_bundle(&self, q: &mut Commands, bundle: Bundle)
        requires
            old(q).wf(),
        ensures
            final(q).wf(),
            final(q)@.queue == old(q)@.queue.push(CommandV::InsertBundle {
                entity: self.id_spec(),
                bundle: bundle@,
            }),
            final(q)@.next_id == old(q)@.next_id,
            final(q)@.base == old(q)@.base,
    ;

    /// Reserve an id for a new child entity, enqueue spawning it with the
    /// components of `bundle` and linking it under the current entity, and
    /// return a cursor positioned at the new child.
    fn with_child(&self, q: &mut Commands, bundle: Bundle) -> (c: ChildCommands)
        requires
            old(q).wf(),
            old(q)@.next_id < u64::MAX,
        ensures
            final(q).wf(),
            c.root == self.root_id_spec(),
            c.parent == self.id_spec(),
            c.entity == (Entity { id: old(q)@.next_id }),
            final(q)@.next_id == old(q)@.next_id + 1,
            final(q)@.base == old(q)@.base,
            final(q)@.queue == old(q)@.queue.push(CommandV::InsertBundle {
                entity: c.entity,
                bundle: bundle@,
            }).push(CommandV::AddChild { parent: self.id_spec(), child: c.entity }),
    ;

    /// Like [`ParentCommands::with_child`], but the new child carries no
    /// component payload.
    fn with_empty_child(&self, q: &mut Commands) -> (c: ChildCommands)
        requires
            old(q).wf(),
            old(q)@.next_id < u64::MAX,
        ensures
            final(q).wf(),
            c.root == self.root_id_spec(),
            c.parent == self.id_spec(),
            c.entity == (Entity { id: old(q)@.next_id }),
            final(q)@.next_id == old(q)@.next_id + 1,
            final(q)@.base == old(q)@.base,
            final(q)@.queue == old(q)@.queue.push(CommandV::InsertBundle {
                entity: c.entity,
                bundle: Seq::<crate::types::Component>::empty(),
            }).push(CommandV::AddChild { parent: self.id_spec(), child: c.entity }),
    ;

    /// Open a nested hierarchy scope anchored at the current entity: the
    /// returned cursor is a fresh root cursor positioned there, with full
    /// root capabilities. The receiving cursor is not disturbed: building a
    /// subtree through the returned cursor never changes this cursor's
    /// `root`, `parent` or `entity`.
    fn with_descendants(&self) -> (r: RootCommands)
        ensures
            r.entity == self.id_spec(),
    ;

    /// Enqueue linking an already-known entity as the last child of the
    /// current entity, without spawning and without advancing the cursor.
    fn add_child(&self, q: &mut Commands, child: Entity)
        requires
            old(q).wf(),
        ensures
            final(q).wf(),
            final(q)@.queue == old(q)@.queue.push(CommandV::AddChild {
                parent: self.id_spec(),
                child,
            }),
            final(q)@.next_id == old(q)@.next_id,
            final(q)@.base == old(q)@.base,
    ;

    /// Enqueue one batch command that will, at flush time, spawn one entity
    /// per bundle and attach all of them to the current entity in one pass,
    /// in input order.
    fn with_child_batch(&self, q: &mut Commands, bundles: Vec<Bundle>)
        requires
            old(q).wf(),
        ensures
            final(q).wf(),
            final(q)@.queue == old(q)@.queue.push(CommandV::SpawnChildBatch {
                parent: self.id_spec(),
                bundles: bundles@.map_values(|b: Bundle| b@),
            }),
            final(q)@.next_id == old(q)@.next_id,
            final(q)@.base == old(q)@.base,
    ;
}

/// Attaching already-existing entities as children by id, without spawning.
pub trait ChildPusher: ParentCommands {
    /// Enqueue attaching every entity of `children` to the current entity,
    /// in order.
    fn push_children(&self, q: &mut Commands, children: &[Entity])
        requires
            old(q).wf(),
        ensures
            final(q).wf(),
            final(q)@.queue == old(q)@.queue.push(CommandV::PushChildren {
                parent: self.id_spec(),
                children: children@,
            }),
            final(q)@.next_id == old(q)@.next_id,
            final(q)@.base == old(q)@.base,
    ;
}

impl ParentCommands for RootCommands {
    open spec fn root_id_spec(&self) -> Entity {
        self.entity
    }

    open spec fn id_spec(&self) -> Entity {
        self.entity
    }

    fn root_id(&self) -> Entity {
        self.entity
    }

    fn id(&self) -> Entity {
        self.entity
    }

    fn insert(&self, q: &mut Commands, component: crate::types::Component) {
        q.push_cmd(Command::Insert { entity: self.entity, component });
    }

    fn insert_bundle(&self, q: &mut Commands, bundle: Bundle) {
        q.push_cmd(Command::InsertBundle { entity: self.entity, bundle });
    }

    fn with_child(&self, q: &mut Commands, bundle: Bundle) -> ChildCommands {
        let child = q.reserve_id();
        q.push_cmd(Command::InsertBundle { entity: child, bundle });
        q.push_cmd(Command::AddChild { parent: self.entity, child });
        ChildCommands { root: self.entity, parent: self.entity, entity: child }
    }

    fn with_empty_child(&self, q: &mut Commands) -> ChildCommands {
        let child = q.reserve_id();
        q.push_cmd(Command::InsertBundle { entity: child, bundle: Bundle::empty() });
        q.push_cmd(Command::AddChild { parent: self.entity, child });
        ChildCommands { root: self.entity, parent: self.entity, entity: child }
    }

    fn with_descendants(&self) -> RootCommands {
        RootCommands { entity: self.entity }
    }

    fn add_child(&self, q: &mut Commands, child: Entity) {
        q.push_cmd(Command::AddChild { parent: self.entity, child });
    }

    fn with_child_batch(&self, q: &mut Commands, bundles: Vec<Bundle>) {
        q.push_cmd(Command::SpawnChildBatch { parent: self.entity, bundles });
    }
}

impl ChildPusher for RootCommands {
    fn push_children(&self, q: &mut Commands, children: &[Entity]) {
        let owned = copy_entities(children);
        q.push_cmd(Command::PushChildren { parent: self.entity, children: owned });
    }
}

impl ParentCommands for ChildCommands {
    open spec fn root_id_spec(&self) -> Entity {
        self.root
    }

    open spec fn id_spec(&self) -> Entity {
        self.entity
    }

    fn root_id(&self) -> Entity {
        self.root
    }

    fn id(&self) -> Entity {
        self.entity
    }

    fn insert(&self, q: &mut Commands, component: crate::types::Component) {
        q.push_cmd(Command::Insert { entity: self.entity, component });
    }

    fn insert_bundle(&self, q: &mut Commands, bundle: Bundle) {
        q.push_cmd(Command::InsertBundle { entity: self.entity, bundle });
    }

    fn with_child(&self, q: &mut Commands, bundle: Bundle) -> ChildCommands {
        let child = q.reserve_id();
        q.push_cmd(Command::InsertBundle { entity: child, bundle });
        q.push_cmd(Command::AddChild { parent: self.entity, child });
        ChildCommands { root: self.root, parent: self.entity, entity: child }
    }

    fn with_empty_child(&self, q: &mut Commands) -> ChildCommands {
        let child = q.reserve_id();
        q.push_cmd(Command::InsertBundle { entity: child, bundle: Bundle::empty() });
        q.push_cmd(Command::AddChild { parent: self.entity, child });
        ChildCommands { root: self.root, parent: self.entity, entity: child }
    }

    fn with_descendants(&self) -> RootCommands {
        RootCommands { entity: self.entity }
    }

    fn add_child(&self, q: &mut Commands, child: Entity) {
        q.push_cmd(Command::AddChild { parent: self.entity, child });
    }

    fn with_child_batch(&self, q: &mut Commands, bundles: Vec<Bundle>) {
        q.push_cmd(Command::SpawnChildBatch { parent: self.entity, bundles });
    }
}

impl ChildPusher for ChildCommands {
    fn push_children(&self, q: &mut Commands, children: &[Entity]) {
        let owned = copy_entities(children);
        q.push_cmd(Command::PushChildren { parent: self.entity, children: owned });
    }
}

impl ChildCommands {
    /// Reserve an id for a new entity with the same parent as the current
    /// entity, enqueue spawning and linking it, and advance this cursor to
    /// it in place. `root` and `parent` are untouched, so a chain of sibling
    /// advancements enumerates children of one parent.
    pub fn with_sibling(&mut self, q: &mut Commands, bundle: Bundle)
        requires
            old(q).wf(),
            old(q)@.next_id < u64::MAX,
        ensures
            final(q).wf(),
            final(self).root == old(self).root,
            final(self).parent == old(self).parent,
            final(self).entity == (Entity { id: old(q)@.next_id }),
            final(q)@.next_id == old(q)@.next_id + 1,
            final(q)@.base == old(q)@.base,
            final(q)@.queue == old(q)@.queue.push(CommandV::InsertBundle {
                entity: final(self).entity,
                bundle: bundle@,
            }).push(CommandV::AddChild { parent: old(self).parent, child: final(self).entity }),
    {
        let child = q.reserve_id();
        q.push_cmd(Command::InsertBundle { entity: child, bundle });
        q.push_cmd(Command::AddChild { parent: self.parent, child });
        self.entity = child;
    }

    /// Like [`ChildCommands::with_sibling`], but the new entity carries no
    /// component payload.
    pub fn with_empty_sibling(&mut self, q: &mut Commands)
        requires
            old(q).wf(),
            old(q)@.next_id < u64::MAX,
        ensures
            final(q).wf(),
            final(self).root == old(self).root,
            final(self).parent == old(self).parent,
            final(self).entity == (Entity { id: old(q)@.next_id }),
            final(q)@.next_id == old(q)@.next_id + 1,
            final(q)@.base == old(q)@.base,
            final(q)@.queue == old(q)@.queue.push(CommandV::InsertBundle {
                entity: final(self).entity,
                bundle: Seq::<crate::types::Component>::empty(),
            }).push(CommandV::AddChild { parent: old(self).parent, child: final(self).entity }),
    {
        let child = q.reserve_id();
        q.push_cmd(Command::InsertBundle { entity: child, bundle: Bundle::empty() });
        q.push_cmd(Command::AddChild { parent: self.parent, child });
        self.entity = child;
    }

    /// Returns the id of the current entity's parent.
    pub fn parent_id(&self) -> (r: Entity)
        ensures
            r == self.parent,
    {
        self.parent
    }
}

impl Commands {
    /// Position a root cursor at an already-existing entity, making it the
    /// root of the current hierarchy scope. Nothing is reserved or enqueued.
    pub fn root(&self, entity: Entity) -> (r: RootCommands)
        ensures
            r.entity == entity,
    {
        RootCommands { entity }
    }

    /// Reserve an id for a new entity, enqueue spawning it with the
    /// components of `bundle`, and return a root cursor positioned at it.
    pub fn spawn_root(&mut self, bundle: Bundle) -> (r: RootCommands)
        requires
            old(self).wf(),
            old(self)@.next_id < u64::MAX,
        ensures
            final(self).wf(),
            r.entity == (Entity { id: old(self)@.next_id }),
            final(self)@.next_id == old(self)@.next_id + 1,
            final(self)@.base == old(self)@.base,
            final(self)@.queue == old(self)@.queue.push(CommandV::InsertBundle {
                entity: r.entity,
                bundle: bundle@,
            }),
    {
        let entity = self.reserve_id();
        self.push_cmd(Command::InsertBundle { entity, bundle });
        RootCommands { entity }
    }

    /// Like [`Commands::spawn_root`], but the new entity carries no
    /// component payload.
    pub fn spawn_empty_root(&mut self) -> (r: RootCommands)
        requires
            old(self).wf(),
            old(self)@.next_id < u64::MAX,
        ensures
            final(self).wf(),
            r.entity == (Entity { id: old(self)@.next_id }),
            final(self)@.next_id == old(self)@.next_id + 1,
            final(self)@.base == old(self)@.base,
            final(self)@.queue == old(self)@.queue.push(CommandV::InsertBundle {
                entity: r.entity,
                bundle: Seq::<crate::types::Component>::empty(),
            }),
    {
        let entity = self.reserve_id();
        self.push_cmd(Command::InsertBundle { entity, bundle: Bundle::empty() });
        RootCommands { entity }
    }

    /// Enqueue one batch command that will, at flush time, spawn one entity
    /// per bundle and attach all of them to `parent` in one pass.
    pub fn with_child_batch(&mut self, parent: Entity, bundles: Vec<Bundle>)
        requires
            old(self).wf(),
        ensures
            final(self).wf(),
            final(self)@.queue == old(self)@.queue.push(CommandV::SpawnChildBatch {
                parent,
                bundles: bundles@.map_values(|b: Bundle| b@),
            }),
            final(self)@.next_id == old(self)@.next_id,
            final(self)@.base == old(self)@.base,
    {
        self.push_cmd(Command::SpawnChildBatch { parent, bundles });
    }
}

} // verus!
