use pea_genetic::graph::{Graph, MatrixGraph};
use pea_genetic::graph_parser::{chars_of, graph_from_text, graph_from_words, is_space_char, parse_count, parse_graph, parse_weight, tokenize, word_spans, ParseError};

fn chars(text: &str) -> Vec<char> {
    text.chars().collect()
}

fn weights(graph: &MatrixGraph) -> Vec<Vec<isize>> {
    let n = graph.size();
    (0..n).map(|i| (0..n).map(|j| graph.get_weight(i, j)).collect()).collect()
}

#[test]
fn white_space_is_what_unicode_calls_white_space() {
    for c in [' ', '\t', '\n', '\r', '\u{b}', '\u{c}', '\u{85}', '\u{a0}', '\u{1680}', '\u{2000}', '\u{2005}', '\u{200a}', '\u{2028}', '\u{2029}', '\u{202f}', '\u{205f}', '\u{3000}'] {
        assert!(is_space_char(c));
    }
    for c in ['a', '0', '\0', '\u{8}', '\u{e}', '\u{1f}', '!', '\u{200b}', '\u{feff}', '\u{180e}'] {
        assert!(!is_space_char(c));
    }
    for code in 0..=0x10ffffu32 {
        if let Some(c) = char::from_u32(code) {
            assert_eq!(is_space_char(c), c.is_whitespace());
        }
    }
}

#[test]
fn chars_of_gives_the_characters_in_order() {
    assert_eq!(chars_of(""), Vec::<char>::new());
    assert_eq!(chars_of("a\u{e9}\u{3000}b"), vec!['a', '\u{e9}', '\u{3000}', 'b']);
    assert_eq!(chars_of("DIMENSION: 4"), chars("DIMENSION: 4"));
}

#[test]
fn words_are_split_at_unicode_white_space() {
    assert_eq!(tokenize(&chars("a\u{a0}b\u{2003}\u{3000}c\u{85}")), vec![chars("a"), chars("b"), chars("c")]);
    assert_eq!(tokenize(&chars("a\u{200b}b")), vec![chars("a\u{200b}b")]);
    let graph = parse_graph("DIMENSION:\u{a0}1\u{a0}EDGE_WEIGHT_SECTION\u{a0}0").unwrap();
    assert_eq!(weights(&graph), vec![vec![0]]);
    let graph = parse_graph("DIMENSION:\u{2028}2\u{3000}EDGE_WEIGHT_SECTION\u{1680}0 5\u{202f}6\u{205f}0").unwrap();
    assert_eq!(weights(&graph), vec![vec![0, 5], vec![6, 0]]);
    let graph = graph_from_text(&chars("DIMENSION:\u{85}1\u{2000}EDGE_WEIGHT_SECTION")).unwrap();
    assert_eq!(weights(&graph), vec![vec![0]]);
}

#[test]
fn words_are_split_at_white_space() {
    assert_eq!(word_spans(&chars("  ab \n c\t")), vec![(2, 4), (7, 8)]);
    assert_eq!(tokenize(&chars("  ab \n c\t")), vec![chars("ab"), chars("c")]);
    assert_eq!(tokenize(&chars("")), Vec::<Vec<char>>::new());
    assert_eq!(tokenize(&chars(" \n\t ")), Vec::<Vec<char>>::new());
    assert_eq!(tokenize(&chars("one")), vec![chars("one")]);
    assert_eq!(tokenize(&chars("a b")), vec![chars("a"), chars("b")]);
}

#[test]
fn counts_are_read() {
    assert_eq!(parse_count(&chars("0")), Some(0));
    assert_eq!(parse_count(&chars("17")), Some(17));
    assert_eq!(parse_count(&chars("+17")), Some(17));
    assert_eq!(parse_count(&chars("007")), Some(7));
    assert_eq!(parse_count(&chars(&usize::MAX.to_string())), Some(usize::MAX));
    assert_eq!(parse_count(&chars("18446744073709551616")), None);
    assert_eq!(parse_count(&chars("99999999999999999999999999999999999999999999")), None);
    assert_eq!(parse_count(&chars("")), None);
    assert_eq!(parse_count(&chars("+")), None);
    assert_eq!(parse_count(&chars("-1")), None);
    assert_eq!(parse_count(&chars("1a")), None);
    assert_eq!(parse_count(&chars("++1")), None);
}

#[test]
fn weights_are_read() {
    assert_eq!(parse_weight(&chars("0")), Some(0));
    assert_eq!(parse_weight(&chars("-0")), Some(0));
    assert_eq!(parse_weight(&chars("42")), Some(42));
    assert_eq!(parse_weight(&chars("+42")), Some(42));
    assert_eq!(parse_weight(&chars("-42")), Some(-42));
    assert_eq!(parse_weight(&chars(&isize::MAX.to_string())), Some(isize::MAX));
    assert_eq!(parse_weight(&chars(&isize::MIN.to_string())), Some(isize::MIN));
    assert_eq!(parse_weight(&chars("9223372036854775808")), None);
    assert_eq!(parse_weight(&chars("-9223372036854775809")), None);
    assert_eq!(parse_weight(&chars("-")), None);
    assert_eq!(parse_weight(&chars("")), None);
    assert_eq!(parse_weight(&chars("-+1")), None);
    assert_eq!(parse_weight(&chars("+-1")), None);
    assert_eq!(parse_weight(&chars("1.5")), None);
}

#[test]
fn a_graph_is_read_from_its_text() {
    let text = "NAME: four\nTYPE: TSP\nDIMENSION: 4\nEDGE_WEIGHT_TYPE: EXPLICIT\nEDGE_WEIGHT_SECTION\n0 10 15 20\n10 0 35 25\n15 35 0 30\n20 25 30 0\nEOF\n";
    let graph = parse_graph(text).unwrap();
    assert_eq!(graph.size(), 4);
    assert_eq!(weights(&graph), vec![vec![0, 10, 15, 20], vec![10, 0, 35, 25], vec![15, 35, 0, 30], vec![20, 25, 30, 0]]);
    assert_eq!(graph.calculate_path_length(&vec![0, 1, 3, 2]), 80);
}

#[test]
fn the_diagonal_is_zeroed() {
    let graph = parse_graph("DIMENSION: 2 EDGE_WEIGHT_SECTION 9999 -3 4 x").unwrap();
    assert_eq!(weights(&graph), vec![vec![0, -3], vec![4, 0]]);
    let graph = parse_graph("DIMENSION: 2 EDGE_WEIGHT_SECTION 1 2 3").unwrap();
    assert_eq!(weights(&graph), vec![vec![0, 2], vec![3, 0]]);
    let graph = parse_graph("EDGE_WEIGHT_SECTION DIMENSION: 1").unwrap();
    assert_eq!(weights(&graph), vec![vec![0]]);
}

#[test]
fn the_first_key_counts() {
    let graph = parse_graph("DIMENSION: 1 DIMENSION: 2 EDGE_WEIGHT_SECTION 5 EDGE_WEIGHT_SECTION 1 2 3 4").unwrap();
    assert_eq!(graph.size(), 1);
}

#[test]
fn a_text_without_dimension_is_refused() {
    assert_eq!(parse_graph("").err(), Some(ParseError::Dimension));
    assert_eq!(parse_graph("EDGE_WEIGHT_SECTION 0 1 1 0").err(), Some(ParseError::Dimension));
    assert_eq!(parse_graph("DIMENSION:").err(), Some(ParseError::Dimension));
    assert_eq!(parse_graph("DIMENSION: four EDGE_WEIGHT_SECTION").err(), Some(ParseError::Dimension));
    assert_eq!(parse_graph("DIMENSION: 0 EDGE_WEIGHT_SECTION").err(), Some(ParseError::Dimension));
    assert_eq!(parse_graph("DIMENSION:4 EDGE_WEIGHT_SECTION").err(), Some(ParseError::Dimension));
    assert_eq!(parse_graph("DIMENSION : 4 EDGE_WEIGHT_SECTION").err(), Some(ParseError::Dimension));
}

#[test]
fn a_text_without_weight_section_is_refused() {
    assert_eq!(parse_graph("DIMENSION: 2 0 1 1 0").err(), Some(ParseError::WeightSection));
    assert_eq!(parse_graph("DIMENSION: 2 EDGE_WEIGHT_SECTION: 0 1 1 0").err(), Some(ParseError::WeightSection));
}

#[test]
fn a_text_with_bad_weights_is_refused() {
    assert_eq!(parse_graph("DIMENSION: 2 EDGE_WEIGHT_SECTION 0 1").err(), Some(ParseError::Weight));
    assert_eq!(parse_graph("DIMENSION: 2 EDGE_WEIGHT_SECTION 0 one 1 0").err(), Some(ParseError::Weight));
    assert_eq!(parse_graph("DIMENSION: 3 EDGE_WEIGHT_SECTION 0 1 2 3 0 4 5 6.5 0").err(), Some(ParseError::Weight));
    assert_eq!(parse_graph("DIMENSION: 18446744073709551615 EDGE_WEIGHT_SECTION 0 1 1 0").err(), Some(ParseError::Weight));
    assert_eq!(parse_graph("DIMENSION: 2 EDGE_WEIGHT_SECTION").err(), Some(ParseError::Weight));
}

#[test]
fn words_make_a_graph() {
    let words = vec![chars("DIMENSION:"), chars("2"), chars("EDGE_WEIGHT_SECTION"), chars("0"), chars("7"), chars("8"), chars("0")];
    let graph = graph_from_words(&words).unwrap();
    assert_eq!(weights(&graph), vec![vec![0, 7], vec![8, 0]]);
    assert_eq!(graph_from_words(&vec![]).err(), Some(ParseError::Dimension));
}
