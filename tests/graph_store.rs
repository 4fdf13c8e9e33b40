use hero_graph::store::GraphStore;

fn edges(pairs: &[(&str, &str)]) -> Vec<(String, String)> {
    pairs.iter().map(|(a, b)| (a.to_string(), b.to_string())).collect()
}

fn index(store: &GraphStore, name: &str) -> usize {
    store.index_of(&name.to_string()).expect("entity is held")
}

#[test]
fn repeated_edge_makes_parallel_relationships() {
    let store = GraphStore::from_edges(&edges(&[("X", "Y"), ("X", "Y"), ("X", "Y")]));
    assert_eq!(store.entity_count(), 2);
    let x = index(&store, "X");
    let y = index(&store, "Y");
    assert_eq!(store.appearance_count(x), 3);
    assert_eq!(store.appearance_count(y), 3);
    assert_eq!(store.relationship_count(), 3);
    for e in 0..3 {
        assert_eq!(store.relationship(e), (x, y));
    }
}

#[test]
fn entities_enumerated_in_order_of_first_appearance() {
    let store = GraphStore::from_edges(&edges(&[("B", "A"), ("C", "B"), ("A", "D")]));
    let names: Vec<&str> = (0..store.entity_count()).map(|i| store.entity_name(i).as_str()).collect();
    assert_eq!(names, vec!["B", "A", "C", "D"]);
}

#[test]
fn appearance_counts_every_edge_naming_the_entity() {
    let store = GraphStore::from_edges(&edges(&[("A", "B"), ("B", "C"), ("C", "A"), ("B", "D")]));
    assert_eq!(store.appearance_count(index(&store, "A")), 2);
    assert_eq!(store.appearance_count(index(&store, "B")), 3);
    assert_eq!(store.appearance_count(index(&store, "C")), 2);
    assert_eq!(store.appearance_count(index(&store, "D")), 1);
}

#[test]
fn self_loop_counts_once() {
    let store = GraphStore::from_edges(&edges(&[("A", "A"), ("A", "B")]));
    assert_eq!(store.entity_count(), 2);
    assert_eq!(store.appearance_count(index(&store, "A")), 2);
    assert_eq!(store.relationship(0), (0, 0));
}

#[test]
fn every_relationship_end_is_an_entity() {
    let store = GraphStore::from_edges(&edges(&[("A", "B"), ("B", "C"), ("C", "D"), ("D", "B")]));
    assert_eq!(store.entity_count(), 4);
    for e in 0..store.relationship_count() {
        let (a, b) = store.relationship(e);
        assert!(a < store.entity_count());
        assert!(b < store.entity_count());
    }
    assert_eq!(store.relationship(3), (index(&store, "D"), index(&store, "B")));
}

#[test]
fn empty_edge_list_builds_empty_store() {
    let store = GraphStore::from_edges(&Vec::new());
    assert_eq!(store.entity_count(), 0);
    assert_eq!(store.relationship_count(), 0);
    assert!(store.index_of(&"A".to_string()).is_none());
}

#[test]
fn digraph_mirrors_the_store() {
    let store = GraphStore::from_edges(&edges(&[("A", "B"), ("B", "C"), ("A", "B")]));
    let g = store.to_digraph();
    assert_eq!(g.node_count(), 3);
    assert_eq!(g.edge_count(), 3);
    let ends: Vec<(usize, usize)> = g
        .raw_edges()
        .iter()
        .map(|e| (e.source().index(), e.target().index()))
        .collect();
    assert_eq!(ends, vec![(0, 1), (1, 2), (0, 1)]);
}
