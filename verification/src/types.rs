//! The plain values the builder works with: entity handles, components and
//! bundles.

use vstd::prelude::*;

verus! {

/// An opaque, unique, copyable handle denoting one object in the store.
///
/// A handle carries no data of its own; it is allocated by a [`crate::World`]
/// or reserved by a [`crate::Commands`] and compared only for equality.
#[derive(Clone, Copy, PartialEq, Eq, Structural, Debug, Hash)]
pub struct Entity {
    pub id: u64,
}

/// A single typed data value attachable to an entity.
///
/// `kind` plays the role of the component's type: an entity holds at most one
/// component of each kind, and attaching another of the same kind replaces
/// the stored value.
#[derive(Clone, Copy, PartialEq, Eq, Structural, Debug)]
pub struct Component {
    pub kind: u64,
    pub value: u64,
}

/// A fixed set of components attached together in one spawn operation.
#[derive(Debug)]
pub struct Bundle {
    pub components: Vec<Component>,
}

impl View for Bundle {
    type V = Seq<Component>;

    open spec fn view(&self) -> Seq<Component> {
        self.components@
    }
}

impl Bundle {
    /// A bundle holding no components at all.
    pub fn empty() -> (b: Bundle)
        ensures
            b@ == Seq::<Component>::empty(),
    {
        let components: Vec<Component> = Vec::new();
        assert(components@ =~= Seq::<Component>::empty());
        Bundle { components }
    }

    /// A bundle holding exactly one component.
    pub fn single(component: Component) -> (b: Bundle)
        ensures
            b@ =~= seq![component],
    {
        let mut components: Vec<Component> = Vec::new();
        components.push(component);
        Bundle { components }
    }
}

/// Copy a borrowed list of entity handles into an owned one.
pub(crate) fn copy_entities(src: &[Entity]) -> (r: Vec<Entity>)
    ensures
        r@ == src@,
{
    let mut r: Vec<Entity> = Vec::new();
    let mut i: usize = 0;
    while i < src.len()
        invariant
            i <= src.len(),
            r@ == src@.take(i as int),
        decreases src.len() - i,
    {
        r.push(src[i]);
        proof {
            assert(src@.take(i + 1 as int) =~= src@.take(i as int).push(src@[i as int]));
        }
        i = i + 1;
    }
    proof {
        assert(src@.take(src@.len() as int) =~= src@);
    }
    r
}

} // verus!
