use vstd::prelude::*;

verus! {

/// The largest index that the narrow index type can hold.
pub const IDX_MAX: usize = 0xffff_ffff;

/// Widens a stored index to a native array index; a `u32` always fits in `usize`.
fn load(x: u32) -> (r: usize)
    ensures
        r == x,
{
    x as usize
}

/// Narrows a native array index into the stored index type.
fn store(x: usize) -> (r: u32)
    requires
        x <= IDX_MAX,
    ensures
        r == x,
{
    x as u32
}

/// An array of indices kept in a narrow unsigned type and read and written as `usize`.
#[derive(Debug, Clone, PartialEq, Eq)]
pub struct IdxStorage {
    pub values: Vec<u32>,
}

impl IdxStorage {
    pub fn from(vec: Vec<u32>) -> (r: Self)
        ensures
            r.values@ == vec@,
    {
        IdxStorage { values: vec }
    }

    pub fn get(&self, i: usize) -> (r: usize)
        requires
            i < self.values@.len(),
        ensures
            r == self.values@[i as int],
    {
        load(self.values[i])
    }

    /// Stores `val` at position `i`; `val` must fit in the narrow type.
    pub fn set(&mut self, i: usize, val: usize)
        requires
            i < old(self).values@.len(),
            val <= IDX_MAX,
        ensures
            final(self).values@ == old(self).values@.update(i as int, val as u32),
    {
        self.values.set(i, store(val));
    }
}

} // verus!
