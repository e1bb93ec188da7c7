//! Small handle types used at the binding boundary: an owning pointer
//! wrapper handed across the boundary as an opaque value, and the pair of
//! sandbox-width words some guest calls return.
use vstd::prelude::*;

verus! {

/// An owned, heap-allocated value handed across the binding boundary.
#[derive(Debug)]
pub struct Pointer<Kind> {
    pub value: Box<Kind>,
}

impl<Kind> Pointer<Kind> {
    pub fn new(value: Kind) -> (r: Self)
        ensures
            *r.value == value,
    {
        Pointer { value: Box::new(value) }
    }

    /// Read access to the held value.
    pub fn borrow(&self) -> (r: &Kind)
        ensures
            *r == *self.value,
    {
        &self.value
    }

    /// Give the held value back to the caller.
    pub fn take(self) -> (r: Kind)
        ensures
            r == *self.value,
    {
        *self.value
    }
}

/// A pair of sandbox-width words (an address and a length, typically).
#[derive(Debug, Clone, Copy, PartialEq, Eq, Structural)]
pub struct Tuple(pub u32, pub u32);

/// Build the word pair a guest transform returns.
pub fn create_tuple_ptr(elem1: u32, elem2: u32) -> (r: Tuple)
    ensures
        r.0 == elem1,
        r.1 == elem2,
{
    Tuple(elem1, elem2)
}

pub fn get_first_of_tuple(t: &Tuple) -> (r: u32)
    ensures
        r == t.0,
{
    t.0
}

pub fn get_second_of_tuple(t: &Tuple) -> (r: u32)
    ensures
        r == t.1,
{
    t.1
}

/// Retire a word pair.
pub fn drop_tuple(t: Tuple) {
    let _ = t;
}

} // verus!
