use pearl::alphabets::pollen_allergy::{parse_gene_graph, GeneAlphabet, GraphFileError};
use pearl::alphabets::Observation;
use pearl::text::{line_spans, parse_number};

#[test]
fn lines_drop_line_feeds_and_carriage_returns() {
    assert_eq!(line_spans(b"ab\r\ncd\n\nx"), vec![(0, 2), (4, 6), (7, 7), (8, 9)]);
    assert_eq!(line_spans(b"ab\n"), vec![(0, 2)]);
    assert!(line_spans(b"").is_empty());
}

#[test]
fn numbers_parse_like_std() {
    let t = b"123 +7 4294967296 12a";
    assert_eq!(parse_number(t, 0, 3, u32::MAX as u64), Some(123));
    assert_eq!(parse_number(t, 4, 6, u32::MAX as u64), Some(7));
    assert_eq!(parse_number(t, 7, 17, u32::MAX as u64), None);
    assert_eq!(parse_number(t, 7, 17, u64::MAX), Some(4294967296));
    assert_eq!(parse_number(t, 18, 21, u64::MAX), None);
    assert_eq!(parse_number(t, 3, 3, u64::MAX), None);
    assert_eq!(parse_number(b"+", 0, 1, u64::MAX), None);
    assert_eq!(parse_number(b"5", 0, 1, 5), Some(5));
    assert_eq!(parse_number(b"6", 0, 1, 5), None);
    assert_eq!(parse_number(b"0", 0, 1, 0), Some(0));
}

#[test]
fn family_file_parses() {
    let text = b"3\n0 1\n1 2\nalice A\nbob ?\ncarol B\nnobody x\n";
    let g = parse_gene_graph(text).unwrap();
    assert_eq!(g.edges, vec![(0, 1), (1, 2)]);
    assert_eq!(
        g.nodes,
        vec![
            Observation::Observed(GeneAlphabet::A),
            Observation::Unobserved,
            Observation::Observed(GeneAlphabet::B),
        ]
    );
}

#[test]
fn count_of_one_gives_no_edges() {
    // lines from index n on are node lines, so with n = 1 every line after the first is one
    let g = parse_gene_graph(b"1\nA\n").unwrap();
    assert!(g.edges.is_empty());
    assert_eq!(g.nodes, vec![Observation::Observed(GeneAlphabet::A)]);
}

#[test]
fn graph_file_errors() {
    assert!(matches!(parse_gene_graph(b""), Err(GraphFileError::MissingHeader)));
    assert!(matches!(parse_gene_graph(b"x\n"), Err(GraphFileError::BadHeader)));
    assert!(matches!(parse_gene_graph(b"0\n"), Err(GraphFileError::HeaderOutOfRange)));
    assert!(matches!(parse_gene_graph(b"5\n0 1\n"), Err(GraphFileError::HeaderOutOfRange)));
    assert!(matches!(parse_gene_graph(b"2\n0\nA\n"), Err(GraphFileError::BadEdge)));
    assert!(matches!(parse_gene_graph(b"2\n0 x\nA\n"), Err(GraphFileError::BadEdge)));
    assert!(matches!(parse_gene_graph(b"2\n0 1\nA \n"), Err(GraphFileError::BadNode)));
}
