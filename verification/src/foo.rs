//! A plain pair of coordinates.

use vstd::prelude::*;

verus! {

/// A point on the integer grid; both fields can be read and written freely.
#[derive(Clone, Copy, Debug, PartialEq, Eq)]
pub struct Foo {
    pub x: i32,
    pub y: i32,
}

} // verus!
