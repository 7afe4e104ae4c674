//! Conveniences that cut across the cursor kinds.

use vstd::prelude::*;

use crate::cursor::ChildCommands;
use crate::cursor::ParentCommands;
use crate::cursor::RootCommands;
use crate::types::Entity;

verus! {

/// Access to the current entity id through a callback, so a fluent chain
/// can capture the id mid-expression without breaking the chain.
pub trait WithId: ParentCommands {
    /// Hand the current entity id to `f`.
    fn with_id<F: Fn(Entity)>(&self, f: F)
        requires
            f.requires((self.id_spec(),)),
    ;
}

impl WithId for RootCommands {
    fn with_id<F: Fn(Entity)>(&self, f: F) {
        f(self.entity);
    }
}

impl WithId for ChildCommands {
    fn with_id<F: Fn(Entity)>(&self, f: F) {
        f(self.entity);
    }
}

} // verus!
