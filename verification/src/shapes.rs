//! Plain rectangular shapes. The geometric transforms of the consuming
//! layer are opaque collaborators with no invariants of their own; the
//! record set carries them as an opaque bound type.

use vstd::prelude::*;

verus! {

/// A rectangle described by its extent.
#[derive(Copy, Clone, Debug)]
pub struct Cuboid<T> {
    pub width: T,
    pub height: T,
}

impl<T> Cuboid<T> {
    /// A rectangle of the given extent.
    pub fn new(width: T, height: T) -> (r: Cuboid<T>)
        ensures
            r == (Cuboid { width, height }),
    {
        Cuboid { width, height }
    }
}

/// An axis-aligned box: a rectangle and its translation.
#[derive(Copy, Clone, Debug)]
pub struct AABB<T> {
    pub rect: Cuboid<T>,
    pub translation: [T; 2],
}

} // verus!
