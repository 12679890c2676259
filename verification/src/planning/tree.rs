//! The search tree's storage: an arena of nodes addressed by index, each
//! holding only a parent index, so that many frontier nodes may share one
//! ancestor chain and a plan is read off by walking parent indices.

use vstd::prelude::*;

verus! {

/// One node of an append-only tree held in an arena. `parent` is the arena
/// index of the parent node, or nothing for a root.
#[derive(Debug)]
pub struct Node<T> {
    pub value: T,
    pub parent: Option<usize>,
}

} // verus!
