//! Borrow handles for one column of one row.
//!
//! A handle carries the borrowed component's bytes together with the row
//! and column it was taken from. While a handle is out, the slab keeps the
//! column's borrow byte raised; handing the handle back to the slab
//! (`Archetype::release_shared` / `Archetype::release_exclusive`) is what
//! lowers the byte again, so every exit path must return its handle.

use vstd::prelude::*;

verus! {

/// A shared borrow of one component value. The slab's borrow byte for this
/// row and column counts this handle until it is released.
pub struct ComponentRef {
    /// The borrowed component's bytes, as they stood when the borrow was
    /// taken.
    pub value: Vec<u8>,
    /// Row the borrow was taken from.
    pub entity_index: u32,
    /// Column the borrow was taken from.
    pub column: u32,
}

impl ComponentRef {
    pub fn as_ref(&self) -> (r: &Vec<u8>)
        ensures
            r == &self.value,
    {
        &self.value
    }
}

/// An exclusive borrow of one component value. Edits are made on the
/// handle's bytes; releasing the handle writes them back into the row and
/// clears the borrow byte.
pub struct MutComponentRef {
    /// Working copy of the component's bytes; written back on release.
    pub value: Vec<u8>,
    /// Row the borrow was taken from.
    pub entity_index: u32,
    /// Column the borrow was taken from.
    pub column: u32,
}

impl MutComponentRef {
    pub fn as_ref(&self) -> (r: &Vec<u8>)
        ensures
            r == &self.value,
    {
        &self.value
    }

    pub fn as_mut(&mut self) -> (r: &mut Vec<u8>)
        ensures
            *r == old(self).value,
            *final(self) == (MutComponentRef {
                value: *final(r),
                entity_index: old(self).entity_index,
                column: old(self).column,
            }),
    {
        &mut self.value
    }
}

} // verus!
