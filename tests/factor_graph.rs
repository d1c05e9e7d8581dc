use pearl::bayes::BayesNetwork;
use pearl::factor_graph::{Key, Variable};

#[test]
fn key_packs_symbol_and_number() {
    let k = Key::symbol('x', 0);
    assert_eq!(k.0, ('x' as u64) << 32);
    let k1 = Key::symbol('x', 1);
    assert_eq!(k1.0, (120u64 << 32) | 1);
    assert_eq!(k1.symbol_char(), 120);
    assert_eq!(k1.index(), 1);
    assert_eq!(Key::symbol('a', 0x12345).index(), 0x2345);
}

#[test]
fn variables_with_equal_fields_are_equal() {
    let x0 = Variable::new(Key::symbol('x', 0), 2);
    let x1 = Variable::new(Key::symbol('x', 1), 2);
    assert_eq!(x0.cardinality, 2);
    assert_eq!(x0.key, Key::symbol('x', 0));
    assert_ne!(x0, x1);
    assert_eq!(x0, Variable::new(Key::symbol('x', 0), 2));
}

#[test]
fn empty_bayes_network() {
    let _net: BayesNetwork<u8> = BayesNetwork::new();
}
