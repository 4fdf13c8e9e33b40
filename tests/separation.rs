use hero_graph::error::GraphError;
use hero_graph::store::GraphStore;

fn store_of(pairs: &[(&str, &str)]) -> GraphStore {
    let edges: Vec<(String, String)> = pairs.iter().map(|(a, b)| (a.to_string(), b.to_string())).collect();
    GraphStore::from_edges(&edges)
}

fn hops(store: &GraphStore, a: &str, b: &str) -> Result<usize, GraphError> {
    store.degrees_of_separation(&a.to_string(), &b.to_string())
}

#[test]
fn chain_distance_and_reverse_unreachable() {
    let store = store_of(&[("A", "B"), ("B", "C"), ("C", "D")]);
    assert_eq!(store.entity_count(), 4);
    assert!(matches!(hops(&store, "A", "D"), Ok(3)));
    assert!(matches!(hops(&store, "D", "A"), Err(GraphError::Unreachable)));
    assert!(matches!(hops(&store, "B", "C"), Ok(1)));
}

#[test]
fn entity_against_itself_is_zero() {
    let store = store_of(&[("A", "B"), ("B", "A"), ("C", "D")]);
    for name in ["A", "B", "C", "D"] {
        assert!(matches!(hops(&store, name, name), Ok(0)));
    }
}

#[test]
fn reachable_one_way_only() {
    let store = store_of(&[("A", "B")]);
    assert!(matches!(hops(&store, "A", "B"), Ok(1)));
    assert!(matches!(hops(&store, "B", "A"), Err(GraphError::Unreachable)));
}

#[test]
fn unknown_source_is_reported_by_name() {
    let store = store_of(&[("A", "B")]);
    match hops(&store, "Z", "B") {
        Err(GraphError::UnknownEntity(name)) => assert_eq!(name, "Z"),
        _ => panic!("expected an unknown entity"),
    }
}

#[test]
fn unknown_target_is_reported_by_name() {
    let store = store_of(&[("A", "B")]);
    match hops(&store, "A", "Q") {
        Err(GraphError::UnknownEntity(name)) => assert_eq!(name, "Q"),
        _ => panic!("expected an unknown entity"),
    }
}

#[test]
fn unknown_source_named_before_unknown_target() {
    let store = store_of(&[("A", "B")]);
    match hops(&store, "P", "Q") {
        Err(GraphError::UnknownEntity(name)) => assert_eq!(name, "P"),
        _ => panic!("expected an unknown entity"),
    }
}

#[test]
fn shortest_of_several_paths() {
    let store = store_of(&[("A", "B"), ("B", "C"), ("C", "D"), ("D", "E"), ("A", "X"), ("X", "E")]);
    assert!(matches!(hops(&store, "A", "E"), Ok(2)));
    assert!(matches!(hops(&store, "B", "E"), Ok(3)));
    assert!(matches!(hops(&store, "E", "B"), Err(GraphError::Unreachable)));
}

#[test]
fn cycle_distances() {
    let store = store_of(&[("A", "B"), ("B", "C"), ("C", "A")]);
    assert!(matches!(hops(&store, "B", "A"), Ok(2)));
    assert!(matches!(hops(&store, "C", "B"), Ok(2)));
}

#[test]
fn disconnected_components_are_unreachable() {
    let store = store_of(&[("A", "B"), ("C", "D")]);
    assert!(matches!(hops(&store, "A", "D"), Err(GraphError::Unreachable)));
}
