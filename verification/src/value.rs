//! Values: what resolving a getter against a live instance yields.

use vstd::prelude::*;
use crate::leaf::LeafVal;

verus! {

/// The result of a successful `get`: the addressed scalar leaf, or, when
/// the getter ends at a union's tag, the index of the live variant.
#[derive(Clone, Copy, PartialEq, Eq, Structural, Debug)]
pub enum Value {
    Leaf(LeafVal),
    Tag(usize),
}

} // verus!
