use index_graph::{Graph, GraphError};

#[test]
fn test_all() {
    let mut graph: Graph<usize, usize> = Graph::default();
    let vertex0 = graph.insert_vertex(5);
    let vertex1 = graph.insert_vertex(10);
    let vertex2 = graph.insert_vertex(15);
    let vertex3 = graph.insert_vertex(9);
    let edge0 = graph.insert_edge(1, vertex0, vertex1).unwrap();
    let edge1 = graph.insert_edge(1, vertex0, vertex2).unwrap();
    let edge2 = graph.insert_edge(1, vertex1, vertex3).unwrap();
    assert!(graph.end_vertices(edge0) == Some((vertex0, vertex1)));
    assert!(graph.end_vertices(edge1) != Some((vertex0, vertex1)));
    assert!(graph.opposite(vertex3, edge2) == Some(vertex1));
    assert!(graph.opposite(vertex3, edge0) == None);
    assert!(graph.are_adjacent(vertex0, vertex1));
    assert!(graph.are_adjacent(vertex1, vertex0));
    assert!(!graph.are_adjacent(vertex0, vertex0));
    assert!(!graph.are_adjacent(vertex0, vertex3));
}

fn sample() -> Graph<usize, usize> {
    let mut graph: Graph<usize, usize> = Graph::default();
    for payload in [5, 10, 15, 9] {
        graph.insert_vertex(payload);
    }
    graph.insert_edge(1, 0, 1).unwrap();
    graph.insert_edge(1, 0, 2).unwrap();
    graph.insert_edge(1, 1, 3).unwrap();
    graph
}

#[test]
fn vertex_indices_are_consecutive() {
    let mut graph: Graph<&str, u8> = Graph::default();
    assert_eq!(graph.insert_vertex("a"), 0);
    assert_eq!(graph.insert_vertex("b"), 1);
    assert_eq!(graph.insert_vertex("c"), 2);
    assert_eq!(graph.vertices().len(), 3);
    for (i, v) in graph.vertices().iter().enumerate() {
        assert_eq!(v.index, i);
        assert!(v.incident_edges.is_empty());
    }
}

#[test]
fn scenario_indices_and_queries() {
    let graph = sample();
    assert_eq!(graph.edges().len(), 3);
    assert_eq!(graph.end_vertices(0), Some((0, 1)));
    assert_eq!(graph.end_vertices(1), Some((0, 2)));
    assert_eq!(graph.end_vertices(2), Some((1, 3)));
    assert_eq!(graph.end_vertices(3), None);
    assert_eq!(graph.opposite(3, 2), Some(1));
    assert_eq!(graph.opposite(3, 0), None);
    assert!(graph.are_adjacent(0, 1));
    assert!(!graph.are_adjacent(0, 0));
    assert!(!graph.are_adjacent(0, 3));
}

#[test]
fn insert_edge_with_missing_head_changes_nothing() {
    let mut graph: Graph<u8, u8> = Graph::default();
    graph.insert_vertex(0);
    let result = graph.insert_edge(7, 99, 0);
    assert_eq!(result, Err(GraphError::VertexNotFound(vec![99])));
    assert_eq!(graph.edges().len(), 0);
    assert_eq!(graph.incident_edges(0), Some(&vec![]));
}

#[test]
fn insert_edge_names_each_missing_index() {
    let mut graph: Graph<u8, u8> = Graph::default();
    graph.insert_vertex(0);
    assert_eq!(graph.insert_edge(1, 0, 5), Err(GraphError::VertexNotFound(vec![5])));
    assert_eq!(graph.insert_edge(1, 4, 5), Err(GraphError::VertexNotFound(vec![4, 5])));
    assert_eq!(graph.insert_edge(1, 4, 4), Err(GraphError::VertexNotFound(vec![4])));
    assert_eq!(graph.insert_edge(1, 1, 0), Err(GraphError::VertexNotFound(vec![1])));
    assert_eq!(graph.edges().len(), 0);
    assert_eq!(graph.insert_edge(1, 0, 0), Ok(0));
}

#[test]
fn endpoints_and_opposites_of_an_edge() {
    let mut graph: Graph<u8, char> = Graph::default();
    for _ in 0..4 {
        graph.insert_vertex(0);
    }
    let e = graph.insert_edge('x', 2, 3).unwrap();
    assert_eq!(graph.end_vertices(e), Some((2, 3)));
    assert_eq!(graph.opposite(2, e), Some(3));
    assert_eq!(graph.opposite(3, e), Some(2));
    assert_eq!(graph.opposite(0, e), None);
    assert_eq!(graph.opposite(1, e), None);
    assert_eq!(graph.opposite(17, e), None);
    assert_eq!(graph.opposite(2, e + 1), None);
}

#[test]
fn incident_lists_record_each_endpoint() {
    let mut graph = sample();
    assert_eq!(graph.incident_edges(0), Some(&vec![0, 1]));
    assert_eq!(graph.incident_edges(1), Some(&vec![0, 2]));
    assert_eq!(graph.incident_edges(2), Some(&vec![1]));
    assert_eq!(graph.incident_edges(3), Some(&vec![2]));
    assert_eq!(graph.incident_edges(4), None);
    let self_loop = graph.insert_edge(2, 2, 2).unwrap();
    assert_eq!(self_loop, 3);
    assert_eq!(graph.incident_edges(2), Some(&vec![1, 3, 3]));
    assert_eq!(graph.incident_edges(0), Some(&vec![0, 1]));
}

#[test]
fn adjacency_is_symmetric() {
    let graph = sample();
    for a in 0..6 {
        for b in 0..6 {
            assert_eq!(graph.are_adjacent(a, b), graph.are_adjacent(b, a));
        }
    }
    assert!(graph.are_adjacent(3, 1));
    assert!(graph.are_adjacent(2, 0));
    assert!(!graph.are_adjacent(2, 3));
    assert!(!graph.are_adjacent(0, 9));
}

#[test]
fn adjacency_scans_the_shorter_list_either_way() {
    let mut graph: Graph<u8, u8> = Graph::default();
    for _ in 0..5 {
        graph.insert_vertex(0);
    }
    graph.insert_edge(0, 0, 2).unwrap();
    graph.insert_edge(0, 0, 3).unwrap();
    graph.insert_edge(0, 4, 0).unwrap();
    graph.insert_edge(0, 1, 0).unwrap();
    assert!(graph.are_adjacent(0, 1));
    assert!(graph.are_adjacent(1, 0));
    assert!(graph.are_adjacent(0, 4));
    assert!(graph.are_adjacent(4, 0));
    assert!(!graph.are_adjacent(1, 2));
}

#[test]
fn self_loop_makes_a_vertex_adjacent_to_itself() {
    let mut graph: Graph<u8, u8> = Graph::default();
    graph.insert_vertex(0);
    graph.insert_vertex(0);
    graph.insert_edge(0, 0, 1).unwrap();
    assert!(!graph.are_adjacent(1, 1));
    graph.insert_edge(0, 1, 1).unwrap();
    assert!(graph.are_adjacent(1, 1));
    assert!(!graph.are_adjacent(0, 0));
}

#[test]
fn outgoing_edges_are_those_with_the_vertex_as_tail() {
    let mut graph = sample();
    graph.insert_edge(1, 3, 0).unwrap();
    graph.insert_edge(1, 2, 2).unwrap();
    assert_eq!(graph.outgoing_edges(0), Some(vec![3]));
    assert_eq!(graph.outgoing_edges(1), Some(vec![0]));
    assert_eq!(graph.outgoing_edges(2), Some(vec![1, 4, 4]));
    assert_eq!(graph.outgoing_edges(3), Some(vec![2]));
    assert_eq!(graph.outgoing_edges(4), None);
    for v in 0..4 {
        let incident = graph.incident_edges(v).unwrap().clone();
        for e in graph.outgoing_edges(v).unwrap() {
            assert!(incident.contains(&e));
            assert_eq!(graph.edges()[e].tail, v);
        }
    }
}

#[test]
fn replace_overwrites_a_payload() {
    let mut graph = sample();
    assert_eq!(graph.replace(2, 42), Ok(()));
    assert_eq!(graph.get_vertex_element(2), Some(&42));
    assert_eq!(graph.get_vertex_element(1), Some(&10));
    assert_eq!(graph.incident_edges(2), Some(&vec![1]));
    assert_eq!(graph.vertices()[2].index, 2);
}

#[test]
fn replace_on_missing_vertex_fails() {
    let mut graph = sample();
    assert_eq!(graph.replace(4, 42), Err(GraphError::VertexNotFound(vec![4])));
    assert_eq!(graph.get_vertex_element(3), Some(&9));
    assert_eq!(graph.vertices().len(), 4);
}

#[test]
fn element_accessors() {
    let mut graph: Graph<String, String> = Graph::default();
    graph.insert_vertex("a".to_string());
    graph.insert_vertex("b".to_string());
    graph.insert_edge("ab".to_string(), 0, 1).unwrap();
    assert_eq!(graph.get_vertex_element(0).map(|s| s.as_str()), Some("a"));
    assert_eq!(graph.get_vertex_element(1).map(|s| s.as_str()), Some("b"));
    assert_eq!(graph.get_vertex_element(2), None);
    assert_eq!(graph.get_edge_element(0).map(|s| s.as_str()), Some("ab"));
    assert_eq!(graph.get_edge_element(1), None);
    let edge = &graph.edges()[0];
    assert_eq!((edge.index, edge.head, edge.tail), (0, 0, 1));
    assert_eq!(edge.element, "ab");
}

#[test]
fn empty_graph_answers_nothing() {
    let graph: Graph<u8, u8> = Graph::default();
    assert!(graph.vertices().is_empty());
    assert!(graph.edges().is_empty());
    assert_eq!(graph.end_vertices(0), None);
    assert_eq!(graph.opposite(0, 0), None);
    assert!(!graph.are_adjacent(0, 0));
    assert_eq!(graph.incident_edges(0), None);
    assert_eq!(graph.outgoing_edges(0), None);
    assert_eq!(graph.get_vertex_element(0), None);
    assert_eq!(graph.get_edge_element(0), None);
}
