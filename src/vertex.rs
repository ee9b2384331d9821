use vstd::prelude::*;

verus! {

/// A vertex of a graph: its position in the vertex collection, the payload it
/// carries, and the indices of the edges that touch it, in the order they were
/// added.
pub struct Vertex<T> {
    pub index: usize,
    pub element: T,
    pub incident_edges: Vec<usize>,
}

} // verus!
