use pearl::alphabets::binary::{BinaryAlphabet, BinaryIter};
use pearl::alphabets::pollen_allergy::{GeneAlphabet, GeneIter};
use pearl::alphabets::{Alphabet, Observation};

#[test]
fn binary_size_is_two() {
    assert_eq!(<BinaryAlphabet as Alphabet>::size(), 2);
    assert_eq!(<GeneAlphabet as Alphabet>::size(), 2);
}

#[test]
fn binary_index_round_trip() {
    for i in 0..2usize {
        let s = <BinaryAlphabet as Alphabet>::try_from_index(i).unwrap();
        assert_eq!(<BinaryAlphabet as Alphabet>::to_index(s), i);
    }
    assert_eq!(<BinaryAlphabet as Alphabet>::to_index(BinaryAlphabet::One), 1);
    assert_eq!(<BinaryAlphabet as Alphabet>::try_from_index(0), Some(BinaryAlphabet::Zero));
    assert_eq!(<BinaryAlphabet as Alphabet>::try_from_index(2), None);
}

#[test]
fn gene_index_round_trip() {
    assert_eq!(<GeneAlphabet as Alphabet>::try_from_index(1), Some(GeneAlphabet::B));
    assert_eq!(<GeneAlphabet as Alphabet>::to_index(GeneAlphabet::A), 0);
    assert_eq!(<GeneAlphabet as Alphabet>::try_from_index(7), None);
}

#[test]
fn binary_iter_walks_states_in_order() {
    let mut it: BinaryIter = <BinaryAlphabet as Alphabet>::states();
    assert_eq!(it.next(), Some(BinaryAlphabet::Zero));
    assert_eq!(it.next(), Some(BinaryAlphabet::One));
    assert_eq!(it.next(), None);
    assert_eq!(it.next(), None);
}

#[test]
fn gene_iter_walks_states_in_order() {
    let mut it = GeneIter::new();
    assert_eq!(it.next(), Some(GeneAlphabet::A));
    assert_eq!(it.next(), Some(GeneAlphabet::B));
    assert_eq!(it.next(), None);
}

#[test]
fn state_symbols() {
    assert_eq!(BinaryAlphabet::Zero.symbol(), '0');
    assert_eq!(BinaryAlphabet::One.symbol(), '1');
    assert_eq!(GeneAlphabet::A.symbol(), 'A');
    assert_eq!(GeneAlphabet::B.symbol(), 'B');
}

#[test]
fn observation_compares_by_value() {
    let a = Observation::Observed(BinaryAlphabet::One);
    assert_eq!(a.clone(), Observation::Observed(BinaryAlphabet::One));
    assert_ne!(a, Observation::Unobserved);
}

#[test]
fn enumeration_matches_indices() {
    let mut it = <BinaryAlphabet as Alphabet>::states();
    let mut i = 0usize;
    while let Some(s) = it.next() {
        assert_eq!(<BinaryAlphabet as Alphabet>::try_from_index(i), Some(s));
        assert_eq!(<BinaryAlphabet as Alphabet>::to_index(s), i);
        i += 1;
    }
    assert_eq!(i, <BinaryAlphabet as Alphabet>::size());
    let mut it = <GeneAlphabet as Alphabet>::states();
    let mut i = 0usize;
    while let Some(s) = it.next() {
        assert_eq!(<GeneAlphabet as Alphabet>::try_from_index(i), Some(s));
        i += 1;
    }
    assert_eq!(i, <GeneAlphabet as Alphabet>::size());
}
