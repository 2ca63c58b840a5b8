//! Compile time optional field implementation.

use vstd::prelude::*;

verus! {

#[derive(Clone, Debug, PartialEq, Eq, Hash)]
/// Compile time optional field.
///
/// This is used to represent fields that may or may not be present in a
/// struct, based on a compile time constant.
///
/// Note that `B` is a `usize` constant because of implementation limitations
/// in Rust. It should, however, be a `bool` and only the values `0` and `1`
/// should be used.
pub struct OptField<const B: usize, T> {
    /// Content of the field, if any.
    value: [T; B],
}

impl<const B: usize, T> OptField<B, T> {
    /// The contents of the field as a sequence of length `B`.
    pub closed spec fn view_spec(self) -> Seq<T> {
        self.value@
    }
}

impl<T> OptField<1, T> {
    /// Creates a new `OptField` with the given value.
    pub fn new(value: T) -> (r: Self)
        ensures
            r.view_spec() =~= seq![value],
    {
        Self { value: [value] }
    }
}

impl<const B: usize, T> OptField<B, T> {
    /// Return the value of the `OptField`, if it exists.
    pub fn get(&self) -> (r: Option<&T>)
        ensures
            self.view_spec().len() == B,
            match r {
                Some(v) => B >= 1 && *v == self.view_spec()[0],
                None => B == 0,
            },
    {
        if B >= 1 {
            Some(&self.value[0])
        } else {
            None
        }
    }
}

} // verus!
