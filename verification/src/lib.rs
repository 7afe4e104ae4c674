//! A builder layer for constructing tree-shaped groups of entities in an
//! entity-component store, deferring every mutation to a flush point.
//!
//! A caller obtains a [`Commands`] queue from a [`World`] and positions a
//! [`RootCommands`] cursor at a freshly reserved or existing entity. Cursor
//! operations ([`ParentCommands`], [`ChildCommands`]) reserve new entity ids
//! immediately but only append inert [`Command`] values to the queue; the
//! store is untouched until [`Commands::flush`] applies the whole queue in
//! enqueue order. The flush validates every entity reference first and
//! reports a [`StaleEntityReference`] without applying anything if a command
//! mentions an entity that is neither live nor reserved by the queue.
//!
//! The store keeps parent/child relations mutually consistent at all times:
//! an entity appears in a parent's children exactly once, exactly when its
//! recorded parent is that entity. The laws module states this and the other
//! whole-library guarantees — entity counts after a flush, batch spawning
//! order, sibling chains keeping their parent, and flush being equivalent to
//! eager application — as proved theorems over the store model.

use vstd::prelude::*;

pub mod anti_features;
pub mod apply;
pub mod command;
pub mod consistency;
pub mod cursor;
pub mod laws;
pub mod types;
pub mod world;

pub use apply::StaleEntityReference;
pub use command::Command;
pub use command::CommandV;
pub use command::Commands;
pub use cursor::ChildCommands;
pub use cursor::ChildPusher;
pub use cursor::ParentCommands;
pub use cursor::RootCommands;
pub use types::Bundle;
pub use types::Component;
pub use types::Entity;
pub use world::World;
pub use world::WorldV;

verus! {

} // verus!
