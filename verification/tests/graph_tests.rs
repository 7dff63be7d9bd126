use k2_tree::graph::Graph;

fn triple(s: &str, p: &str, o: &str) -> [String; 3] {
    [s.to_string(), p.to_string(), o.to_string()]
}

#[test]
fn new_graph_has_no_slices() {
    let graph = Graph::new();
    assert_eq!(graph.slice_count(), 0);
}

#[test]
fn insert_of_unknown_names_is_refused() {
    let mut graph = Graph::new();
    assert_eq!(graph.insert(&triple("alice", "knows", "bob")), Err(()));
    assert_eq!(graph.slice_count(), 0);
}

#[test]
fn insert_located_refuses_a_missing_part() {
    let mut graph = Graph::new();
    assert_eq!(graph.insert_located(None, Some(0), Some(1)), Err(()));
    assert_eq!(graph.insert_located(Some(1), None, Some(1)), Err(()));
    assert_eq!(graph.insert_located(Some(1), Some(0), None), Err(()));
    assert_eq!(graph.insert_located(None, None, Some(1)), Err(()));
    assert_eq!(graph.insert_located(None, Some(0), None), Err(()));
    assert_eq!(graph.insert_located(Some(1), None, None), Err(()));
    assert_eq!(graph.insert_located(None, None, None), Err(()));
    assert_eq!(graph.slice_count(), 0);
}

#[test]
fn insert_located_refuses_a_slice_that_is_not_there() {
    let mut graph = Graph::new();
    assert_eq!(graph.insert_located(Some(1), Some(0), Some(2)), Err(()));
    assert_eq!(graph.slice_count(), 0);
}
