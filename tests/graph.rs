use fluent_data::graph::{Graph, Vertex};

#[test]
fn test_build_node() {
    let mut graph = Graph::new();
    let n1 = Vertex::new(&mut graph, 1);
    let n2 = Vertex::new(&mut graph, 2);
    let n3 = Vertex::new(&mut graph, 3);
    n2.set_neighbors(&mut graph, vec![n1.as_neighbor()]);
    n3.set_neighbors(&mut graph, vec![n1.as_neighbor(), n2.as_neighbor()]);
    let e3 = n3.iter_neighbors(&graph);
    assert_eq!(n1, e3[0]);
    assert_eq!(n2, e3[1]);
}

#[test]
fn test_update_node_neighbors() {
    let mut graph = Graph::new();
    let n1 = Vertex::new(&mut graph, 1);
    let n2 = Vertex::new(&mut graph, 2);
    let n3 = Vertex::new(&mut graph, 3);
    n2.set_neighbors(&mut graph, vec![n1.as_neighbor()]);
    n3.set_neighbors(&mut graph, vec![n1.as_neighbor(), n2.as_neighbor()]);
    let n1_from_n2 = n2.iter_neighbors(&graph)[0];
    n2.set_neighbors(&mut graph, vec![n1_from_n2.as_neighbor(), n3.as_neighbor()]);
    n1.set_neighbors(&mut graph, vec![n2.as_neighbor(), n3.as_neighbor()]);
    let e1 = n1.iter_neighbors(&graph);
    assert_eq!(n2, e1[0]);
    assert_eq!(n3, e1[1]);
    let e2 = n2.iter_neighbors(&graph);
    assert_eq!(n1, e2[0]);
    assert_eq!(n3, e2[1]);
    let e3 = n3.iter_neighbors(&graph);
    assert_eq!(n1, e3[0]);
    assert_eq!(n2, e3[1]);
}

#[test]
fn test_graph_mutation() {
    let mut graph = Graph::new();
    let n1 = Vertex::new(&mut graph, 1);
    let n2 = Vertex::new(&mut graph, 2);
    n2.set_neighbors(&mut graph, vec![n1.as_neighbor()]);
    let n1_from_n2 = n2.iter_neighbors(&graph)[0];
    n1_from_n2.deref_data_mut(&mut graph, 3);
    assert_eq!(3, *n1.deref_data(&graph));
}

#[test]
fn test_vertex_suppression() {
    let mut graph = Graph::new();
    let n1 = Vertex::new(&mut graph, 1);
    let n2 = Vertex::new(&mut graph, 2);
    let n3 = Vertex::new(&mut graph, 3);
    n2.set_neighbors(&mut graph, vec![n1.as_neighbor()]);
    n3.set_neighbors(&mut graph, vec![n1.as_neighbor(), n2.as_neighbor()]);
    graph.retain(&vec![false, true, true]);
    let e2 = graph.vertex(0).iter_neighbors(&graph);
    assert!(e2.is_empty());
    let e3 = graph.vertex(1).iter_neighbors(&graph);
    assert_eq!(graph.vertex(0), e3[0]);
    assert_eq!(1, e3.len());
    assert_eq!(2, *graph.vertex(0).deref_data(&graph));
    assert_eq!(3, *graph.vertex(1).deref_data(&graph));
}

#[test]
fn retain_renumbers_surviving_references() {
    let mut graph = Graph::new();
    let a = Vertex::new(&mut graph, 'a');
    let b = Vertex::new(&mut graph, 'b');
    let c = Vertex::new(&mut graph, 'c');
    let d = Vertex::new(&mut graph, 'd');
    a.set_neighbors(&mut graph, vec![d.as_neighbor(), b.as_neighbor()]);
    d.set_neighbors(&mut graph, vec![c.as_neighbor(), a.as_neighbor()]);
    graph.retain(&vec![true, false, true, true]);
    assert_eq!(3, graph.len());
    let from_a = graph.vertex(0).iter_neighbors(&graph);
    assert_eq!(vec![graph.vertex(2)], from_a);
    let from_d = graph.vertex(2).iter_neighbors(&graph);
    assert_eq!(vec![graph.vertex(1), graph.vertex(0)], from_d);
    assert_eq!('d', *graph.vertex(2).deref_data(&graph));
}
