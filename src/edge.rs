use vstd::prelude::*;

verus! {

/// An edge of a graph: its position in the edge collection, the payload it
/// carries, and the indices of its two endpoint vertices.
pub struct Edge<T> {
    pub index: usize,
    pub element: T,
    pub tail: usize,
    pub head: usize,
}

} // verus!
