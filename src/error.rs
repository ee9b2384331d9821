use vstd::prelude::*;

verus! {

/// Why a graph operation was refused.
#[derive(Debug, PartialEq, Eq)]
pub enum GraphError {
    /// The listed indices address no vertex of the graph.
    VertexNotFound(Vec<usize>),
}

/// The indices among `head` and `tail` that address no vertex of a graph with
/// `n` vertices, head first, each named once.
pub open spec fn missing_vertices(n: nat, head: usize, tail: usize) -> Seq<usize> {
    let h: Seq<usize> = if head >= n { seq![head] } else { seq![] };
    let t: Seq<usize> = if tail >= n && tail != head { seq![tail] } else { seq![] };
    h + t
}

} // verus!
