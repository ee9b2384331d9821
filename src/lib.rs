use vstd::prelude::*;

mod edge;
mod error;
mod vertex;

pub use edge::Edge;
pub use error::{missing_vertices, GraphError};
pub use vertex::Vertex;

verus! {

/// The indices of the edges among `edges` that touch vertex `v`, in the order
/// the edges were added. An edge whose head and tail are both `v` is listed
/// twice.
pub open spec fn incidence<E>(edges: Seq<Edge<E>>, v: usize) -> Seq<usize>
    decreases edges.len(),
{
    if edges.len() == 0 {
        seq![]
    } else {
        let k = (edges.len() - 1) as int;
        record_incidence(incidence(edges.drop_last(), v), k as usize, edges[k].head, edges[k].tail, v)
    }
}

/// `s` with `e` appended once for each of `head` and `tail` that is `v`, head
/// first.
pub open spec fn record_incidence(s: Seq<usize>, e: usize, head: usize, tail: usize, v: usize) -> Seq<
    usize,
> {
    let with_head = if head == v { s.push(e) } else { s };
    if tail == v { with_head.push(e) } else { with_head }
}

/// Every index that `incidence` lists addresses one of the edges.
proof fn lemma_incidence_bounded<E>(edges: Seq<Edge<E>>, v: usize)
    requires
        edges.len() <= usize::MAX,
    ensures
        forall|i: int|
            0 <= i < incidence(edges, v).len() ==> #[trigger] incidence(edges, v)[i] < edges.len(),
    decreases edges.len(),
{
    if edges.len() > 0 {
        let k = (edges.len() - 1) as int;
        let before = incidence(edges.drop_last(), v);
        let with_head = if edges[k].head == v { before.push(k as usize) } else { before };
        assert(incidence(edges, v) == record_incidence(before, k as usize, edges[k].head, edges[k].tail, v));
        lemma_incidence_bounded(edges.drop_last(), v);
        assert(forall|i: int| 0 <= i < with_head.len() ==> #[trigger] with_head[i] < edges.len());
    }
}

/// No edge touches a vertex that none of the edges names.
proof fn lemma_incidence_none<E>(edges: Seq<Edge<E>>, v: usize)
    requires
        forall|j: int| 0 <= j < edges.len() ==> #[trigger] edges[j].head != v && edges[j].tail != v,
    ensures
        incidence(edges, v) == Seq::<usize>::empty(),
    decreases edges.len(),
{
    if edges.len() > 0 {
        lemma_incidence_none(edges.drop_last(), v);
    }
}

/// `incidence` lists edge `j` once for each of its endpoints that is `v`.
proof fn lemma_incidence_count<E>(edges: Seq<Edge<E>>, v: usize, j: usize)
    requires
        edges.len() <= usize::MAX,
        j < edges.len(),
    ensures
        incidence(edges, v).to_multiset().count(j) == (if edges[j as int].head == v { 1nat } else {
            0nat
        }) + (if edges[j as int].tail == v { 1nat } else { 0nat }),
    decreases edges.len(),
{
    broadcast use vstd::seq_lib::group_to_multiset_ensures;

    let k = (edges.len() - 1) as int;
    let before = incidence(edges.drop_last(), v);
    if j as int == k {
        lemma_incidence_bounded(edges.drop_last(), v);
        assert(!before.contains(j));
    } else {
        lemma_incidence_count(edges.drop_last(), v, j);
    }
}

/// A graph whose vertices and edges live in two vectors and refer to each
/// other by index.
pub struct Graph<V, E> {
    vertices: Vec<Vertex<V>>,
    edges: Vec<Edge<E>>,
}

impl<V, E> Graph<V, E> {
    /// The vertices, in insertion order.
    pub closed spec fn vertex_seq(&self) -> Seq<Vertex<V>> {
        self.vertices@
    }

    /// The edges, in insertion order.
    pub closed spec fn edge_seq(&self) -> Seq<Edge<E>> {
        self.edges@
    }

    /// Each vertex and each edge knows its own position, each edge joins
    /// existing vertices, and each vertex lists exactly the edges that touch it.
    pub closed spec fn wf(&self) -> bool {
        &&& self.edges@.len() <= usize::MAX
        &&& forall|i: int| 0 <= i < self.vertices@.len() ==> #[trigger] self.vertices@[i].index == i
        &&& forall|j: int|
            0 <= j < self.edges@.len() ==> {
                &&& #[trigger] self.edges@[j].index == j
                &&& self.edges@[j].head < self.vertices@.len()
                &&& self.edges@[j].tail < self.vertices@.len()
            }
        &&& forall|i: int|
            0 <= i < self.vertices@.len() ==> #[trigger] self.vertices@[i].incident_edges@
                == incidence(self.edges@, i as usize)
    }

    /// The incident-edge list of vertex `v`.
    pub open spec fn incident_of(&self, v: usize) -> Seq<usize> {
        self.vertex_seq()[v as int].incident_edges@
    }

    /// The (head, tail) pair of edge `e`, if there is such an edge.
    pub open spec fn end_vertices_of(&self, e: usize) -> Option<(usize, usize)> {
        if e < self.edge_seq().len() {
            Some((self.edge_seq()[e as int].head, self.edge_seq()[e as int].tail))
        } else {
            None
        }
    }

    /// The endpoint of edge `e` other than `v`, if `v` is an endpoint of `e`.
    pub open spec fn opposite_of(&self, v: usize, e: usize) -> Option<usize> {
        match self.end_vertices_of(e) {
            Some((head, tail)) => if v == head {
                Some(tail)
            } else if v == tail {
                Some(head)
            } else {
                None
            },
            None => None,
        }
    }

    /// Some edge has `a` and `b` as its two endpoints, in either order.
    pub open spec fn adjacent(&self, a: usize, b: usize) -> bool {
        exists|e: usize|
            #![trigger self.end_vertices_of(e)]
            self.end_vertices_of(e) == Some((a, b)) || self.end_vertices_of(e) == Some((b, a))
    }

    /// The test, on edge indices, that the edge's tail is `v`.
    pub open spec fn has_tail(&self, v: usize) -> spec_fn(usize) -> bool {
        |e: usize| self.edge_seq()[e as int].tail == v
    }

    /// The incident edges of `v` whose tail is `v`, in the same order.
    pub open spec fn outgoing_of(&self, v: usize) -> Seq<usize> {
        self.incident_of(v).filter(self.has_tail(v))
    }

    /// The (head, tail) pair of an edge; nothing for an index past the last
    /// edge.
    pub fn end_vertices(&self, edge_index: usize) -> (r: Option<(usize, usize)>)
        ensures
            r == self.end_vertices_of(edge_index),
    {
        if edge_index < self.edges.len() {
            let edge = &self.edges[edge_index];
            Some((edge.head, edge.tail))
        } else {
            None
        }
    }

    /// The other endpoint of an edge, seen from one of its endpoints; nothing
    /// when the edge does not exist or `vertex_index` is not one of its ends.
    pub fn opposite(&self, vertex_index: usize, edge_index: usize) -> (r: Option<usize>)
        ensures
            r == self.opposite_of(vertex_index, edge_index),
    {
        let (head, tail) = match self.end_vertices(edge_index) {
            Some((a, b)) => (a, b),
            None => return None,
        };
        if vertex_index == head {
            Some(tail)
        } else if vertex_index == tail {
            Some(head)
        } else {
            None
        }
    }

    /// Scans the shorter of the two incident-edge lists, looking for an edge
    /// whose other endpoint is the other vertex.
    pub fn are_adjacent(&self, vertex_index1: usize, vertex_index2: usize) -> (r: bool)
        requires
            self.wf(),
        ensures
            r == self.adjacent(vertex_index1, vertex_index2),
    {
        let n = self.vertices.len();
        if vertex_index1 >= n || vertex_index2 >= n {
            proof {
                self.lemma_not_adjacent_to_missing(vertex_index1, vertex_index2);
            }
            return false;
        }
        let (scanned, other) = if self.vertices[vertex_index1].incident_edges.len()
            <= self.vertices[vertex_index2].incident_edges.len() {
            (vertex_index1, vertex_index2)
        } else {
            (vertex_index2, vertex_index1)
        };
        assert(scanned == vertex_index1 && other == vertex_index2 || scanned == vertex_index2 && other
            == vertex_index1);
        proof {
            self.lemma_adjacent_symmetric(vertex_index1, vertex_index2);
        }
        let list = &self.vertices[scanned].incident_edges;
        proof {
            assert(self.vertices@[scanned as int].index == scanned);
            lemma_incidence_bounded(self.edges@, scanned);
        }
        let mut k: usize = 0;
        while k < list.len()
            invariant
                0 <= k <= list@.len(),
                list@ == incidence(self.edges@, scanned),
                forall|i: int| 0 <= i < list@.len() ==> #[trigger] list@[i] < self.edges@.len(),
                self.adjacent(scanned, other) == self.adjacent(vertex_index1, vertex_index2),
                forall|i: int|
                    0 <= i < k ==> self.opposite_of(scanned, #[trigger] list@[i]) != Some(other),
            decreases list@.len() - k,
        {
            match self.opposite(scanned, list[k]) {
                Some(found) => {
                    if found == other {
                        proof {
                            let e = list@[k as int];
                            assert(self.end_vertices_of(e) == Some((scanned, other))
                                || self.end_vertices_of(e) == Some((other, scanned)));
                            assert(self.adjacent(scanned, other));
                        }
                        return true;
                    }
                },
                None => {},
            }
            k = k + 1;
        }
        proof {
            assert forall|e: usize|
                !(#[trigger] self.end_vertices_of(e) == Some((scanned, other))
                    || self.end_vertices_of(e) == Some((other, scanned))) by {
                if self.end_vertices_of(e) == Some((scanned, other)) || self.end_vertices_of(e)
                    == Some((other, scanned)) {
                    lemma_incidence_count(self.edges@, scanned, e);
                    broadcast use vstd::seq_lib::group_to_multiset_ensures;

                    assert(list@.contains(e));
                    let i = choose|i: int| 0 <= i < list@.len() && list@[i] == e;
                    assert(self.opposite_of(scanned, list@[i]) == Some(other));
                }
            }
        }
        false
    }

    /// Two vertices of which one does not exist are not adjacent.
    proof fn lemma_not_adjacent_to_missing(&self, a: usize, b: usize)
        requires
            self.wf(),
            a >= self.vertex_seq().len() || b >= self.vertex_seq().len(),
        ensures
            !self.adjacent(a, b),
    {
        assert forall|e: usize| !(#[trigger] self.end_vertices_of(e) == Some((a, b))
            || self.end_vertices_of(e) == Some((b, a))) by {
            if e < self.edges@.len() {
                assert(self.edges@[e as int].index == e);
            }
        }
    }

    /// Adjacency does not depend on the order of the two vertices.
    pub proof fn lemma_adjacent_symmetric(&self, a: usize, b: usize)
        ensures
            self.adjacent(a, b) == self.adjacent(b, a),
    {
    }

    /// Overwrites the payload of a vertex, leaving its index and incident
    /// edges as they were.
    pub fn replace(&mut self, vertex_index: usize, element: V) -> (r: Result<(), GraphError>)
        requires
            old(self).wf(),
        ensures
            final(self).wf(),
            r is Ok <==> vertex_index < old(self).vertex_seq().len(),
            match r {
                Ok(_) => {
                    &&& final(self).edge_seq() == old(self).edge_seq()
                    &&& final(self).vertex_seq().len() == old(self).vertex_seq().len()
                    &&& forall|v: int|
                        0 <= v < old(self).vertex_seq().len() && v != vertex_index
                            ==> #[trigger] final(self).vertex_seq()[v] == old(self).vertex_seq()[v]
                    &&& final(self).vertex_seq()[vertex_index as int].index == vertex_index
                    &&& final(self).vertex_seq()[vertex_index as int].element == element
                    &&& final(self).incident_of(vertex_index) == old(self).incident_of(vertex_index)
                },
                Err(err) => {
                    &&& *final(self) == *old(self)
                    &&& err->VertexNotFound_0@ == seq![vertex_index]
                },
            },
    {
        if vertex_index >= self.vertices.len() {
            let mut missing: Vec<usize> = Vec::new();
            missing.push(vertex_index);
            proof {
                assert(missing@ =~= seq![vertex_index]);
            }
            return Err(GraphError::VertexNotFound(missing));
        }
        self.vertices[vertex_index].element = element;
        proof {
            assert forall|i: int| 0 <= i < self.vertices@.len() implies #[trigger] self.vertices@[i].index
                == i && self.vertices@[i].incident_edges@ == incidence(self.edges@, i as usize) by {
                assert(old(self).vertices@[i].index == i);
            }
        }
        Ok(())
    }

    /// The payload of a vertex, if it exists.
    pub fn get_vertex_element(&self, vertex_index: usize) -> (r: Option<&V>)
        ensures
            match r {
                Some(element) => vertex_index < self.vertex_seq().len() && *element == self.vertex_seq()[vertex_index as int].element,
                None => vertex_index >= self.vertex_seq().len(),
            },
    {
        if vertex_index < self.vertices.len() {
            Some(&self.vertices[vertex_index].element)
        } else {
            None
        }
    }

    /// The payload of an edge, if it exists.
    pub fn get_edge_element(&self, edge_index: usize) -> (r: Option<&E>)
        ensures
            match r {
                Some(element) => edge_index < self.edge_seq().len() && *element == self.edge_seq()[edge_index as int].element,
                None => edge_index >= self.edge_seq().len(),
            },
    {
        if edge_index < self.edges.len() {
            Some(&self.edges[edge_index].element)
        } else {
            None
        }
    }

    /// All vertices, in insertion order.
    pub fn vertices(&self) -> (r: &Vec<Vertex<V>>)
        ensures
            r@ == self.vertex_seq(),
    {
        &self.vertices
    }

    /// All edges, in insertion order.
    pub fn edges(&self) -> (r: &Vec<Edge<E>>)
        ensures
            r@ == self.edge_seq(),
    {
        &self.edges
    }

    /// The edges touching a vertex, in the order they were added; nothing for
    /// a missing vertex.
    pub fn incident_edges(&self, vertex_index: usize) -> (r: Option<&Vec<usize>>)
        requires
            self.wf(),
        ensures
            match r {
                Some(list) => {
                    &&& vertex_index < self.vertex_seq().len()
                    &&& list@ == self.incident_of(vertex_index)
                    &&& list@ == incidence(self.edge_seq(), vertex_index)
                },
                None => vertex_index >= self.vertex_seq().len(),
            },
    {
        if vertex_index < self.vertices.len() {
            proof {
                assert(self.vertices@[vertex_index as int].index == vertex_index);
            }
            Some(&self.vertices[vertex_index].incident_edges)
        } else {
            None
        }
    }

    /// The incident edges of a vertex whose tail is that vertex, in the same
    /// order; nothing for a missing vertex.
    pub fn outgoing_edges(&self, vertex_index: usize) -> (r: Option<Vec<usize>>)
        requires
            self.wf(),
        ensures
            match r {
                Some(list) => vertex_index < self.vertex_seq().len() && list@ == self.outgoing_of(
                    vertex_index,
                ),
                None => vertex_index >= self.vertex_seq().len(),
            },
    {
        if vertex_index >= self.vertices.len() {
            return None;
        }
        let incident = &self.vertices[vertex_index].incident_edges;
        proof {
            assert(self.vertices@[vertex_index as int].index == vertex_index);
            lemma_incidence_bounded(self.edges@, vertex_index);
        }
        let mut outgoing: Vec<usize> = Vec::new();
        let mut k: usize = 0;
        while k < incident.len()
            invariant
                0 <= k <= incident@.len(),
                incident@ == self.incident_of(vertex_index),
                forall|i: int| 0 <= i < incident@.len() ==> #[trigger] incident@[i] < self.edges@.len(),
                outgoing@ == incident@.take(k as int).filter(self.has_tail(vertex_index)),
            decreases incident@.len() - k,
        {
            let e = incident[k];
            if self.edges[e].tail == vertex_index {
                outgoing.push(e);
            }
            proof {
                assert(incident@.take(k + 1) == incident@.take(k as int).push(e));
                incident@.take(k as int).lemma_filter_push(e, self.has_tail(vertex_index));
            }
            k = k + 1;
        }
        proof {
            assert(incident@.take(k as int) == incident@);
        }
        Some(outgoing)
    }

    /// An edge reports its head and tail as its end vertices; from either
    /// endpoint `opposite` gives the other one, and from any other vertex it
    /// gives nothing.
    pub proof fn lemma_edge_endpoints(&self, e: usize)
        requires
            self.wf(),
            e < self.edge_seq().len(),
        ensures
            ({
                let head = self.edge_seq()[e as int].head;
                let tail = self.edge_seq()[e as int].tail;
                &&& self.end_vertices_of(e) == Some((head, tail))
                &&& self.opposite_of(head, e) == Some(tail)
                &&& self.opposite_of(tail, e) == Some(head)
                &&& forall|x: usize| x != head && x != tail ==> #[trigger] self.opposite_of(x, e) is None
            }),
    {
    }

    /// Edge `e` appears in the incident-edge list of its head and of its tail
    /// exactly once each, so twice in that of a vertex that is both, and in
    /// no other vertex's list.
    pub proof fn lemma_incident_once(&self, e: usize)
        requires
            self.wf(),
            e < self.edge_seq().len(),
        ensures
            ({
                let head = self.edge_seq()[e as int].head;
                let tail = self.edge_seq()[e as int].tail;
                &&& head != tail ==> self.incident_of(head).to_multiset().count(e) == 1
                &&& head != tail ==> self.incident_of(tail).to_multiset().count(e) == 1
                &&& head == tail ==> self.incident_of(head).to_multiset().count(e) == 2
                &&& forall|v: usize|
                    v < self.vertex_seq().len() && v != head && v != tail
                        ==> #[trigger] self.incident_of(v).to_multiset().count(e) == 0
            }),
    {
        let head = self.edges@[e as int].head;
        let tail = self.edges@[e as int].tail;
        assert(self.edges@[e as int].index == e);
        assert(self.vertices@[head as int].index == head);
        assert(self.vertices@[tail as int].index == tail);
        lemma_incidence_count(self.edges@, head, e);
        lemma_incidence_count(self.edges@, tail, e);
        assert forall|v: usize|
            v < self.vertex_seq().len() && v != head && v != tail implies #[trigger] self.incident_of(
            v,
        ).to_multiset().count(e) == 0 by {
            assert(self.vertices@[v as int].index == v);
            lemma_incidence_count(self.edges@, v, e);
        }
    }

    /// The outgoing edges of a vertex are among its incident edges, and each
    /// has that vertex as its tail.
    pub proof fn lemma_outgoing_within_incident(&self, v: usize)
        requires
            self.wf(),
            v < self.vertex_seq().len(),
        ensures
            forall|i: int|
                0 <= i < self.outgoing_of(v).len() ==> {
                    &&& self.incident_of(v).contains(#[trigger] self.outgoing_of(v)[i])
                    &&& self.edge_seq()[self.outgoing_of(v)[i] as int].tail == v
                },
    {
        assert forall|i: int| 0 <= i < self.outgoing_of(v).len() implies {
            &&& self.incident_of(v).contains(#[trigger] self.outgoing_of(v)[i])
            &&& self.edge_seq()[self.outgoing_of(v)[i] as int].tail == v
        } by {
            let e = self.outgoing_of(v)[i];
            self.incident_of(v).lemma_filter_pred(self.has_tail(v), i);
            assert(self.outgoing_of(v).contains(e));
            self.incident_of(v).lemma_filter_contains_rev(self.has_tail(v), e);
        }
    }

    /// Appends a vertex with no incident edges and returns its index, the
    /// number of vertices before the call.
    pub fn insert_vertex(&mut self, element: V) -> (r: usize)
        requires
            old(self).wf(),
            old(self).vertex_seq().len() < usize::MAX,
        ensures
            final(self).wf(),
            r == old(self).vertex_seq().len(),
            final(self).vertex_seq().len() == old(self).vertex_seq().len() + 1,
            final(self).vertex_seq().drop_last() == old(self).vertex_seq(),
            final(self).vertex_seq()[r as int].index == r,
            final(self).vertex_seq()[r as int].element == element,
            final(self).incident_of(r) == Seq::<usize>::empty(),
            final(self).edge_seq() == old(self).edge_seq(),
    {
        let next_index = self.vertices.len();
        self.vertices.push(Vertex { index: next_index, element: element, incident_edges: Vec::new() });
        proof {
            assert(self.vertices@.drop_last() =~= old(self).vertices@);
            assert(incidence(self.edges@, next_index) == Seq::<usize>::empty()) by {
                assert forall|j: int| 0 <= j < self.edges@.len() implies #[trigger] self.edges@[j].head
                    != next_index && self.edges@[j].tail != next_index by {
                    assert(old(self).edges@[j].index == j);
                }
                lemma_incidence_none(self.edges@, next_index);
            }
            assert forall|j: int| 0 <= j < self.edges@.len() implies #[trigger] self.edges@[j].index == j
                && self.edges@[j].head < self.vertices@.len() && self.edges@[j].tail
                < self.vertices@.len() by {
                assert(old(self).edges@[j].index == j);
            }
            assert forall|i: int| 0 <= i < self.vertices@.len() implies #[trigger] self.vertices@[i].index
                == i && self.vertices@[i].incident_edges@ == incidence(self.edges@, i as usize) by {
                if i < next_index {
                    assert(old(self).vertices@[i].index == i);
                }
            }
            assert(self.wf());
        }
        next_index
    }

    /// Appends an edge from `head_index` to `tail_index` and records it in the
    /// incident-edge lists of both endpoints. When either endpoint is missing
    /// the graph is left as it was and the missing indices are reported.
    pub fn insert_edge(&mut self, element: E, head_index: usize, tail_index: usize) -> (r: Result<
        usize,
        GraphError,
    >)
        requires
            old(self).wf(),
            old(self).edge_seq().len() < usize::MAX,
        ensures
            final(self).wf(),
            r is Ok <==> head_index < old(self).vertex_seq().len() && tail_index < old(
                self,
            ).vertex_seq().len(),
            match r {
                Ok(e) => {
                    &&& e == old(self).edge_seq().len()
                    &&& final(self).edge_seq() == old(self).edge_seq().push(
                        (Edge { index: e, element, tail: tail_index, head: head_index }),
                    )
                    &&& final(self).vertex_seq().len() == old(self).vertex_seq().len()
                    &&& forall|v: usize|
                        v < old(self).vertex_seq().len() ==> {
                            &&& #[trigger] final(self).vertex_seq()[v as int].index == old(
                                self,
                            ).vertex_seq()[v as int].index
                            &&& final(self).vertex_seq()[v as int].element == old(
                                self,
                            ).vertex_seq()[v as int].element
                            &&& final(self).incident_of(v) == record_incidence(
                                old(self).incident_of(v),
                                e,
                                head_index,
                                tail_index,
                                v,
                            )
                        }
                },
                Err(err) => {
                    &&& *final(self) == *old(self)
                    &&& err->VertexNotFound_0@ == missing_vertices(
                        old(self).vertex_seq().len(),
                        head_index,
                        tail_index,
                    )
                },
            },
    {
        let n = self.vertices.len();
        let next_index = self.edges.len();
        if head_index >= n || tail_index >= n {
            let mut missing: Vec<usize> = Vec::new();
            if head_index >= n {
                missing.push(head_index);
            }
            if tail_index >= n && tail_index != head_index {
                missing.push(tail_index);
            }
            proof {
                assert(missing@ =~= missing_vertices(n as nat, head_index, tail_index));
            }
            return Err(GraphError::VertexNotFound(missing));
        }
        self.edges.push(Edge { index: next_index, element: element, tail: tail_index, head: head_index });
        self.vertices[head_index].incident_edges.push(next_index);
        self.vertices[tail_index].incident_edges.push(next_index);
        proof {
            assert(self.edges@.drop_last() =~= old(self).edges@);
            assert forall|j: int| 0 <= j < self.edges@.len() implies #[trigger] self.edges@[j].index == j
                && self.edges@[j].head < self.vertices@.len() && self.edges@[j].tail
                < self.vertices@.len() by {
                if j < next_index {
                    assert(old(self).edges@[j].index == j);
                }
            }
            assert forall|i: int| 0 <= i < self.vertices@.len() implies #[trigger] self.vertices@[i].index
                == i && self.vertices@[i].incident_edges@ == incidence(self.edges@, i as usize) by {
                assert(old(self).vertices@[i].index == i);
                assert(incidence(self.edges@, i as usize) == record_incidence(
                    incidence(old(self).edges@, i as usize),
                    next_index,
                    head_index,
                    tail_index,
                    i as usize,
                ));
            }
            assert(self.wf());
        }
        Ok(next_index)
    }
}

impl<V, E> Default for Graph<V, E> {
    fn default() -> (g: Self)
        ensures
            g.wf(),
            g.vertex_seq().len() == 0,
            g.edge_seq().len() == 0,
    {
        Graph { vertices: Vec::new(), edges: Vec::new() }
    }
}

} // verus!
