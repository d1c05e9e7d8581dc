use pearl::utils::testing::{generate_random_prufer_sequence, prufer_to_tree, random_tree};
use petgraph::graph::EdgeIndex;
use rand::rngs::StdRng;
use rand::SeedableRng;

fn edges(g: &petgraph::graph::UnGraph<(), ()>) -> Vec<(usize, usize)> {
    (0..g.edge_count())
        .map(|e| {
            let (a, b) = g.edge_endpoints(EdgeIndex::new(e)).unwrap();
            (a.index(), b.index())
        })
        .collect()
}

#[test]
fn empty_sequence_gives_one_edge() {
    let g = prufer_to_tree(&[]);
    assert_eq!(g.node_count(), 2);
    assert_eq!(edges(&g), vec![(0, 1)]);
}

#[test]
fn known_sequence_decodes() {
    let g = prufer_to_tree(&[3, 3, 3, 4]);
    assert_eq!(g.node_count(), 6);
    assert_eq!(edges(&g), vec![(3, 0), (3, 1), (3, 2), (4, 3), (4, 5)]);
}

#[test]
fn star_sequence_decodes() {
    let g = prufer_to_tree(&[0, 0]);
    assert_eq!(edges(&g), vec![(0, 1), (0, 2), (0, 3)]);
}

#[test]
fn random_sequence_is_in_range() {
    let mut rng = StdRng::seed_from_u64(12345);
    let s = generate_random_prufer_sequence(&mut rng, 10);
    assert_eq!(s.len(), 8);
    assert!(s.iter().all(|&x| x < 10));
}

#[test]
fn random_tree_is_connected() {
    let mut rng = StdRng::seed_from_u64(7);
    let g = random_tree(20, &mut rng);
    assert_eq!(g.node_count(), 20);
    assert_eq!(g.edge_count(), 19);
    assert_eq!(petgraph::algo::connected_components(&g), 1);
}
