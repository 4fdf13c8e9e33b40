use hero_graph::error::GraphError;
use hero_graph::ranking::{most_connected_entity, top_entities};

#[test]
fn most_connected_takes_highest_score() {
    assert!(matches!(most_connected_entity(&vec![1, 5, 3, 2]), Ok(1)));
}

#[test]
fn most_connected_tie_goes_to_first() {
    assert!(matches!(most_connected_entity(&vec![2, 7, 4, 7]), Ok(1)));
    assert!(matches!(most_connected_entity(&vec![0, 0, 0]), Ok(0)));
}

#[test]
fn most_connected_on_empty_is_an_error() {
    assert!(matches!(most_connected_entity(&Vec::new()), Err(GraphError::EmptyGraph)));
}

#[test]
fn most_connected_repeats() {
    let scores = vec![3, 9, 1, 9, 4];
    let first = most_connected_entity(&scores);
    let second = most_connected_entity(&scores);
    assert!(matches!((first, second), (Ok(1), Ok(1))));
}

#[test]
fn top_entities_descending_with_stable_ties() {
    assert_eq!(top_entities(&vec![3, 9, 9, 1, 7], 3), vec![1, 2, 4]);
    assert_eq!(top_entities(&vec![5, 5, 5], 2), vec![0, 1]);
}

#[test]
fn top_entities_with_k_beyond_length() {
    assert_eq!(top_entities(&vec![1, 4, 2], 5), vec![1, 2, 0]);
}

#[test]
fn top_entities_with_zero_k_or_no_scores() {
    assert_eq!(top_entities(&vec![1, 4, 2], 0), Vec::<usize>::new());
    assert_eq!(top_entities(&Vec::new(), 5), Vec::<usize>::new());
}
