use pearl::alphabets::binary::BinaryAlphabet;
use pearl::error::InferenceError;
use pearl::markov::decoding::{spanning_tree, trace_back};
use pearl::markov::MarkovRandomField;

type Field = MarkovRandomField<BinaryAlphabet, u32, char>;

fn path(n: usize) -> Field {
    let mut mrf = Field::new();
    for i in 0..n {
        assert_eq!(mrf.add_node(i as u32 * 10), i);
    }
    for i in 1..n {
        assert_eq!(mrf.add_edge(i - 1, i, (b'a' + i as u8) as char), Ok(i - 1));
    }
    mrf
}

#[test]
fn field_counts_and_potentials() {
    let mrf = path(3);
    assert_eq!(mrf.node_count(), 3);
    assert_eq!(mrf.edge_count(), 2);
    assert_eq!(mrf.node_potential(2), Ok(&20));
    assert_eq!(mrf.node_potential(3), Err(InferenceError::InvalidNodeIndex));
    assert_eq!(mrf.edge_potential(0, 1), Ok(&'b'));
    assert_eq!(mrf.edge_potential(2, 1), Ok(&'c'));
    assert_eq!(mrf.edge_potential(0, 2), Err(InferenceError::MissingEdge));
    assert_eq!(mrf.edge_potential(0, 9), Err(InferenceError::InvalidNodeIndex));
}

#[test]
fn add_edge_rejects_unknown_nodes() {
    let mut mrf = path(2);
    assert_eq!(mrf.add_edge(0, 2, 'z'), Err(InferenceError::InvalidNodeIndex));
    assert_eq!(mrf.edge_count(), 1);
}

#[test]
fn empty_state_space_is_refused() {
    let mrf = path(2);
    let bank = pearl::markov::message_bank::MessageBank::new(0, mrf.graph(), 0.0f64);
    assert!(matches!(bank, Err(InferenceError::EmptyStateSpace)));
}

#[test]
fn slots_are_laid_out_per_edge_orientation() {
    let mrf = path(3);
    let bank = mrf.message_bank(0.0f64).unwrap();
    assert_eq!(bank.num_states(), 2);
    assert_eq!(bank.num_pairs(), 4);
    assert_eq!(bank.slot(0, 1), Ok(0));
    assert_eq!(bank.slot(1, 0), Ok(1));
    assert_eq!(bank.slot(1, 2), Ok(2));
    assert_eq!(bank.slot(2, 1), Ok(3));
    assert_eq!(bank.pair(3), (2, 1));
    assert_eq!(bank.slot(0, 2), Err(InferenceError::MissingEdge));
    assert_eq!(bank.slot(0, 3), Err(InferenceError::InvalidNodeIndex));
    assert_eq!(bank.as_slice().len(), 8);
}

#[test]
fn messages_are_read_and_written_by_pair() {
    let mrf = path(3);
    let mut bank = mrf.message_bank(0.0f64).unwrap();
    assert_eq!(bank.eval_state(1, 2, 1), Ok(0.0));
    assert_eq!(bank.set_state(1, 2, 1, 2.5), Ok(()));
    assert_eq!(bank.eval_state(1, 2, 1), Ok(2.5));
    assert_eq!(bank.eval_state(2, 1, 1), Ok(0.0));
    assert_eq!(bank.message(1, 2), Ok(vec![0.0, 2.5]));
    assert_eq!(bank.as_slice()[5], 2.5);
    assert_eq!(bank.set_state(0, 2, 0, 1.0), Err(InferenceError::MissingEdge));
    assert_eq!(bank.set_state(4, 2, 0, 1.0), Err(InferenceError::InvalidNodeIndex));
    assert_eq!(bank.eval_state(7, 0, 0), Err(InferenceError::InvalidNodeIndex));
    assert_eq!(bank.message(0, 2), Err(InferenceError::MissingEdge));
}

#[test]
fn incoming_lists_every_message_into_a_node() {
    let mrf = path(3);
    let bank = mrf.message_bank(0u8).unwrap();
    assert_eq!(bank.incoming(1), Ok(vec![0, 3]));
    assert_eq!(bank.incoming(0), Ok(vec![1]));
    assert_eq!(bank.incoming(3), Err(InferenceError::InvalidNodeIndex));
}

#[test]
fn schedule_leaves_out_the_receiver() {
    let mrf = path(3);
    let bank = mrf.message_bank(0u8).unwrap();
    let plan = bank.schedule();
    assert_eq!(plan.len(), 4);
    // 0 -> 1: node 0 hears from nobody else
    assert_eq!((plan[0].slot, plan[0].sender, plan[0].receiver), (0, 0, 1));
    assert!(plan[0].sources.is_empty());
    // 1 -> 2: node 1 hears from 0 (slot 0), not from 2
    assert_eq!((plan[2].sender, plan[2].receiver), (1, 2));
    assert_eq!(plan[2].sources, vec![0]);
    // 1 -> 0: node 1 hears from 2 (slot 3)
    assert_eq!(plan[1].sources, vec![3]);
    assert!(plan[3].sources.is_empty());
}

#[test]
fn star_schedule_sources() {
    let mut mrf = Field::new();
    for _ in 0..4 {
        mrf.add_node(0);
    }
    for leaf in 1..4 {
        mrf.add_edge(0, leaf, 'x').unwrap();
    }
    let bank = mrf.message_bank(0u8).unwrap();
    let plan = bank.schedule();
    // 0 -> 2 uses the messages from 1 and 3 into 0
    let s = bank.slot(0, 2).unwrap();
    assert_eq!(plan[s].sources, vec![bank.slot(1, 0).unwrap(), bank.slot(3, 0).unwrap()]);
}

#[test]
fn spanning_tree_reaches_the_root_component() {
    let mut mrf = path(3);
    mrf.add_node(0);
    let bank = mrf.message_bank(0usize).unwrap();
    let tree = spanning_tree(&mrf, 0).unwrap();
    assert_eq!(tree.root, 0);
    assert_eq!(tree.order, vec![0, 1, 2]);
    assert_eq!(tree.parent, vec![None, Some(0), Some(1), None]);
    assert_eq!(tree.visited, vec![true, true, true, false]);
    assert!(spanning_tree(&mrf, 4).is_err());
}

#[test]
fn spanning_tree_from_middle() {
    let mrf = path(3);
    let bank = mrf.message_bank(0usize).unwrap();
    let tree = spanning_tree(&mrf, 1).unwrap();
    // depth first, visiting 1's neighbours in petgraph's order: newest edge first
    assert_eq!(tree.order, vec![1, 2, 0]);
    assert_eq!(tree.parent, vec![Some(1), None, Some(1)]);
}

#[test]
fn trace_back_follows_backpointers() {
    let mut mrf = path(3);
    mrf.add_node(0);
    let mut bp = mrf.message_bank(0usize).unwrap();
    // child 1 -> parent 0: if 0 is in state 1, 1 is best in state 0
    bp.set_state(1, 0, 1, 0).unwrap();
    // child 2 -> parent 1: if 1 is in state 0, 2 is best in state 1
    bp.set_state(2, 1, 0, 1).unwrap();
    let tree = spanning_tree(&mrf, 0).unwrap();
    let assignment = trace_back(&tree, &bp, 1);
    assert_eq!(assignment, vec![Some(1), Some(0), Some(1), None]);
}

#[test]
fn edge_potential_succeeds_on_joined_nodes() {
    let mrf = path(4);
    for i in 1..4 {
        assert!(mrf.edge_potential(i - 1, i).is_ok());
        assert_eq!(mrf.edge_potential(i - 1, i), mrf.edge_potential(i, i - 1));
    }
}

#[test]
fn fresh_messages_hold_the_initial_value() {
    let mrf = path(3);
    let mut bank = mrf.message_bank(7i32).unwrap();
    for (a, b) in [(0, 1), (1, 0), (1, 2), (2, 1)] {
        assert_eq!(bank.message(a, b), Ok(vec![7, 7]));
    }
    bank.set_state(2, 1, 0, -3).unwrap();
    assert_eq!(bank.message(2, 1), Ok(vec![-3, 7]));
    assert_eq!(bank.message(1, 2), Ok(vec![7, 7]));
}

#[test]
fn spanning_tree_of_a_cycle_has_every_node() {
    let mut mrf = path(4);
    mrf.add_edge(3, 0, 'z').unwrap();
    let tree = spanning_tree(&mrf, 2).unwrap();
    assert_eq!(tree.order.len(), 4);
    assert_eq!(tree.order[0], 2);
    assert_eq!(tree.visited, vec![true; 4]);
    assert_eq!(tree.parent.iter().filter(|p| p.is_none()).count(), 1);
}
