use pearl::alphabets::binary::BinaryAlphabet;
use pearl::markov::decoding::{spanning_tree, trace_back};
use pearl::markov::message_bank::MessageBank;
use pearl::markov::MarkovRandomField;
use pearl::utils::testing::prufer_to_tree;
use petgraph::graph::EdgeIndex;

type Field = MarkovRandomField<BinaryAlphabet, [f64; 2], f64>;

fn psi(alpha: f64, i: usize, j: usize) -> f64 {
    if i == j {
        alpha
    } else {
        1.0 - alpha
    }
}

fn build(phi: &[[f64; 2]], edges: &[(usize, usize)], alpha: f64) -> Field {
    let mut mrf = Field::new();
    for p in phi {
        mrf.add_node(*p);
    }
    for &(a, b) in edges {
        mrf.add_edge(a, b, alpha).unwrap();
    }
    mrf
}

fn lse(v: &[f64]) -> f64 {
    let m = v.iter().cloned().fold(f64::NEG_INFINITY, f64::max);
    if m == f64::NEG_INFINITY {
        return m;
    }
    m + v.iter().map(|x| (x - m).exp()).sum::<f64>().ln()
}

/// Log-domain message passing over the library's schedule, reading only the previous round.
fn run(mrf: &Field, rounds: usize, max_product: bool) -> (MessageBank<f64>, MessageBank<usize>) {
    let mut bank = mrf.message_bank(0.0f64).unwrap();
    let mut bp = mrf.message_bank(0usize).unwrap();
    let plan = bank.schedule();
    for _ in 0..rounds {
        let prev = bank.clone();
        for step in &plan {
            let phi = mrf.node_potential(step.sender).unwrap();
            let alpha = *mrf.edge_potential(step.sender, step.receiver).unwrap();
            for j in 0..2 {
                let vals: Vec<f64> = (0..2)
                    .map(|i| {
                        phi[i].ln()
                            + psi(alpha, i, j).ln()
                            + step.sources.iter().map(|&s| prev.as_slice()[s * 2 + i]).sum::<f64>()
                    })
                    .collect();
                let v = if max_product {
                    let best = if vals[1] > vals[0] { 1 } else { 0 };
                    bp.set_state(step.sender, step.receiver, j, best).unwrap();
                    vals[best]
                } else {
                    lse(&vals)
                };
                bank.set_state(step.sender, step.receiver, j, v).unwrap();
            }
        }
    }
    (bank, bp)
}

fn beliefs(mrf: &Field, bank: &MessageBank<f64>, normalise: bool) -> Vec<[f64; 2]> {
    (0..mrf.node_count())
        .map(|n| {
            let phi = mrf.node_potential(n).unwrap();
            let into = bank.incoming(n).unwrap();
            let mut row = [0.0; 2];
            for i in 0..2 {
                row[i] = phi[i].ln() + into.iter().map(|&s| bank.as_slice()[s * 2 + i]).sum::<f64>();
            }
            if normalise {
                let z = lse(&row);
                for x in row.iter_mut() {
                    *x = (*x - z).exp();
                }
            }
            row
        })
        .collect()
}

fn brute_force(phi: &[[f64; 2]], edges: &[(usize, usize)], alpha: f64) -> Vec<[f64; 2]> {
    let n = phi.len();
    let mut m = vec![[0.0; 2]; n];
    let mut z = 0.0;
    for x in 0..(1usize << n) {
        let s = |k: usize| (x >> k) & 1;
        let mut w: f64 = (0..n).map(|k| phi[k][s(k)]).product();
        for &(a, b) in edges {
            w *= psi(alpha, s(a), s(b));
        }
        z += w;
        for k in 0..n {
            m[k][s(k)] += w;
        }
    }
    for row in m.iter_mut() {
        row[0] /= z;
        row[1] /= z;
    }
    m
}

#[test]
fn two_node_marginals_match_enumeration() {
    let phi = [[0.3, 0.7], [1.0, 1.0]];
    let edges = [(0, 1)];
    let mrf = build(&phi, &edges, 0.9);
    let (bank, _) = run(&mrf, 1, false);
    let got = beliefs(&mrf, &bank, true);
    let want = brute_force(&phi, &edges, 0.9);
    for k in 0..2 {
        for i in 0..2 {
            assert!((got[k][i] - want[k][i]).abs() < 1e-9);
        }
    }
}

#[test]
fn tree_marginals_match_enumeration() {
    let g = prufer_to_tree(&[3, 3, 6, 4, 0, 6]);
    let edges: Vec<(usize, usize)> = (0..g.edge_count())
        .map(|e| {
            let (a, b) = g.edge_endpoints(EdgeIndex::new(e)).unwrap();
            (a.index(), b.index())
        })
        .collect();
    let phi: Vec<[f64; 2]> = (0..8).map(|k| if k % 3 == 0 { [0.8, 0.2] } else { [1.0, 1.0] }).collect();
    let mrf = build(&phi, &edges, 0.7);
    let want = brute_force(&phi, &edges, 0.7);
    for rounds in [8, 12] {
        let (bank, _) = run(&mrf, rounds, false);
        let got = beliefs(&mrf, &bank, true);
        for k in 0..8 {
            assert!((got[k][0] + got[k][1] - 1.0).abs() < 1e-9);
            for i in 0..2 {
                assert!((got[k][i] - want[k][i]).abs() < 1e-6);
            }
        }
    }
}

#[test]
fn path_with_observed_middle() {
    let phi = [[1.0, 1.0], [0.2, 0.8], [1.0, 1.0]];
    let edges = [(0, 1), (1, 2)];
    let mrf = build(&phi, &edges, 0.9);
    let (bank, _) = run(&mrf, 3, false);
    let m = beliefs(&mrf, &bank, true);
    assert!((m[1][0] - 0.2).abs() < 1e-9);
    assert!((m[1][1] - 0.8).abs() < 1e-9);
    assert!(m[0][1] > 0.5);
    assert!(m[2][1] > 0.5);

    let (maxbank, bp) = run(&mrf, 3, true);
    let root = beliefs(&mrf, &maxbank, false)[0];
    let root_state = if root[1] > root[0] { 1 } else { 0 };
    let tree = spanning_tree(&mrf, 0).unwrap();
    let map = trace_back(&tree, &bp, root_state);
    assert_eq!(map, vec![Some(1), Some(1), Some(1)]);
}

#[test]
fn step_order_within_a_round_does_not_matter() {
    let g = prufer_to_tree(&[2, 2, 5, 1]);
    let edges: Vec<(usize, usize)> = (0..g.edge_count())
        .map(|e| {
            let (a, b) = g.edge_endpoints(EdgeIndex::new(e)).unwrap();
            (a.index(), b.index())
        })
        .collect();
    let phi: Vec<[f64; 2]> = (0..6).map(|k| if k == 4 { [0.1, 0.9] } else { [1.0, 1.0] }).collect();
    let mrf = build(&phi, &edges, 0.8);
    let mut forward = mrf.message_bank(0.0f64).unwrap();
    let mut backward = mrf.message_bank(0.0f64).unwrap();
    let plan = forward.schedule();
    for _ in 0..4 {
        for (bank, reversed) in [(&mut forward, false), (&mut backward, true)] {
            let prev = bank.clone();
            let mut order: Vec<&pearl::markov::message_bank::MessageUpdate> = plan.iter().collect();
            if reversed {
                order.reverse();
            }
            for step in order {
                let p = mrf.node_potential(step.sender).unwrap();
                for j in 0..2 {
                    let vals: Vec<f64> = (0..2)
                        .map(|i| {
                            p[i].ln()
                                + psi(0.8, i, j).ln()
                                + step.sources.iter().map(|&s| prev.as_slice()[s * 2 + i]).sum::<f64>()
                        })
                        .collect();
                    bank.set_state(step.sender, step.receiver, j, lse(&vals)).unwrap();
                }
            }
        }
    }
    assert_eq!(forward.as_slice(), backward.as_slice());
}
