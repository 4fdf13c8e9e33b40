use hero_graph::ranking::{most_connected_entity, top_entities};
use hero_graph::store::GraphStore;
use rustworkx_core::centrality::betweenness_centrality;

fn store_of(pairs: &[(&str, &str)]) -> GraphStore {
    let edges: Vec<(String, String)> = pairs.iter().map(|(a, b)| (a.to_string(), b.to_string())).collect();
    GraphStore::from_edges(&edges)
}

fn scores(store: &GraphStore) -> Vec<f64> {
    let g = store.to_digraph();
    betweenness_centrality(&g, false, true, 100).into_iter().map(|s| s.unwrap_or(0.0)).collect()
}

#[test]
fn bidirectional_chain_matches_path_graph_values() {
    let store = store_of(&[
        ("A", "B"), ("B", "A"), ("B", "C"), ("C", "B"), ("C", "D"), ("D", "C"), ("D", "E"), ("E", "D"),
    ]);
    let s = scores(&store);
    let n = 5.0;
    for (i, score) in s.iter().enumerate() {
        let i = i as f64;
        let expected = 2.0 * i * (n - 1.0 - i) / ((n - 1.0) * (n - 2.0));
        assert!(*score >= 0.0);
        assert!((score - expected).abs() < 1e-9);
    }
    assert!(matches!(most_connected_entity(&s.iter().map(|x| x.to_bits()).collect()), Ok(2)));
}

#[test]
fn directed_chain_inner_entities_rank_higher() {
    let store = store_of(&[("A", "B"), ("B", "C"), ("C", "D")]);
    let s = scores(&store);
    let keys: Vec<u64> = s.iter().map(|x| x.to_bits()).collect();
    assert!(s[1] > s[0] && s[1] > s[3]);
    assert!(s[2] > s[0] && s[2] > s[3]);
    let top = top_entities(&keys, 2);
    assert_eq!(top, vec![1, 2]);
    assert!(matches!(most_connected_entity(&keys), Ok(1)));
}

#[test]
fn parallel_relationships_weigh_on_betweenness() {
    let store = store_of(&[("A", "B"), ("A", "B"), ("B", "C"), ("A", "D"), ("D", "C")]);
    let s = scores(&store);
    let b = store.index_of(&"B".to_string()).unwrap();
    let d = store.index_of(&"D".to_string()).unwrap();
    assert!(s.iter().all(|x| *x >= 0.0));
    assert!((s[b] - 1.0 / 9.0).abs() < 1e-9);
    assert!((s[d] - 1.0 / 18.0).abs() < 1e-9);
}
