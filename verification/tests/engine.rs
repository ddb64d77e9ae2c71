use nlprule::composition::{
    AndAtom, Atom, AttributeMatcher, Composition, MatchAtom, MatchGraph, Matcher, MatcherKind,
    NotAtom, OffsetAtom, OrAtom, Part, Quantifier, StringOrId, TrueAtom, WordDataMatcher,
};
use nlprule::types::{Token, Word, WordData};

fn tok(full: &str, start: usize, end: usize, word: &str, tags: &[(&str, &str)]) -> Token {
    Token {
        text: full.to_string(),
        char_span: (start, end),
        word: Word {
            text: word.to_string(),
            tags: tags
                .iter()
                .map(|(p, i)| WordData { pos: p.to_string(), inflection: i.to_string() })
                .collect(),
        },
    }
}

fn empty_graph() -> MatchGraph {
    MatchGraph { groups: Vec::new(), id_to_idx: Vec::new() }
}

fn literal(s: &str, case_sensitive: bool) -> Matcher {
    Matcher::new_string(StringOrId::Literal(s.to_string()), false, case_sensitive, false)
}

fn word_atom(m: Matcher) -> Atom {
    Atom::Match(MatchAtom::new(AttributeMatcher::WordText(m)))
}

#[test]
fn case_insensitive_literal_matches_both_cases() {
    let m = Matcher::new_string(StringOrId::Literal("The".to_string()), false, false, false);
    let toks: Vec<Token> = Vec::new();
    let g = empty_graph();
    assert!(m.is_match("the", &toks, &g));
    assert!(m.is_match("THE", &toks, &g));
    assert!(!m.is_match("cat", &toks, &g));
}

#[test]
fn case_sensitive_literal_is_exact() {
    let m = literal("The", true);
    let toks: Vec<Token> = Vec::new();
    let g = empty_graph();
    assert!(m.is_match("The", &toks, &g));
    assert!(!m.is_match("the", &toks, &g));
}

#[test]
fn empty_input_policy() {
    let toks: Vec<Token> = Vec::new();
    let g = empty_graph();
    for negate in [false, true] {
        let hard = Matcher::new_string(
            StringOrId::Literal("x".to_string()),
            negate,
            true,
            true,
        );
        assert!(!hard.is_match("", &toks, &g));
        let soft = Matcher::new_string(
            StringOrId::Literal("x".to_string()),
            negate,
            true,
            false,
        );
        assert_eq!(soft.is_match("", &toks, &g), negate);
    }
}

#[test]
fn negated_matcher_flips_outcome() {
    let m = Matcher::new_string(StringOrId::Literal("cat".to_string()), true, true, false);
    let toks: Vec<Token> = Vec::new();
    let g = empty_graph();
    assert!(!m.is_match("cat", &toks, &g));
    assert!(m.is_match("dog", &toks, &g));
}

#[test]
fn regex_matcher_matches_whole_input() {
    let m = Matcher::new_regex("ca+t".to_string(), false, false);
    let toks: Vec<Token> = Vec::new();
    let g = empty_graph();
    assert!(m.is_match("cat", &toks, &g));
    assert!(m.is_match("caaat", &toks, &g));
    assert!(!m.is_match("dog", &toks, &g));
}

#[test]
fn word_data_matcher_needs_one_common_reading() {
    let m = WordDataMatcher::new(Some(literal("NN", true)), Some(literal("dog", true)));
    let toks: Vec<Token> = Vec::new();
    let g = empty_graph();
    let readings = vec![
        WordData { pos: "VB".to_string(), inflection: "dog".to_string() },
        WordData { pos: "NN".to_string(), inflection: "dog".to_string() },
    ];
    assert!(m.is_match(&readings, &toks, &g));
    let split = vec![
        WordData { pos: "NN".to_string(), inflection: "cat".to_string() },
        WordData { pos: "VB".to_string(), inflection: "dog".to_string() },
    ];
    assert!(!m.is_match(&split, &toks, &g));
}

#[test]
fn generic_matcher_tests_equality() {
    let m = nlprule::composition::GenericMatcher::new(7u32);
    assert!(m.is_match(&7));
    assert!(!m.is_match(&8));
}

#[test]
fn boolean_atoms_combine() {
    let text = "ab";
    let toks = vec![tok(text, 0, 1, "a", &[]), tok(text, 1, 2, "b", &[])];
    let g = empty_graph();
    let a = word_atom(literal("a", true));
    let b = word_atom(literal("b", true));
    let and = Atom::And(AndAtom::new(vec![
        word_atom(literal("a", true)),
        Atom::True(TrueAtom::new()),
    ]));
    assert!(and.is_match(&toks, &g, 0));
    let or = Atom::Or(OrAtom::new(vec![word_atom(literal("b", true)), a]));
    assert!(or.is_match(&toks, &g, 0));
    let not = Atom::Not(NotAtom::new(Box::new(word_atom(literal("b", true)))));
    assert!(not.is_match(&toks, &g, 0));
    // the offset atom looks at a neighbour without consuming it
    let next_is_b = Atom::Offset(OffsetAtom::new(Box::new(b), 1));
    assert!(next_is_b.is_match(&toks, &g, 0));
    assert!(!next_is_b.is_match(&toks, &g, 1)); // shifted outside the slice
}

#[test]
fn greedy_quantifier_captures_max_when_enough_tokens() {
    let text = "aaaaa";
    let toks: Vec<Token> = (0..5).map(|i| tok(text, i, i + 1, "a", &[])).collect();
    let comp = Composition::new(vec![Part::new(
        Atom::True(TrueAtom::new()),
        Quantifier::new(1, 3),
        true,
    )]);
    let graph = comp.apply(&toks, 0).expect("must match");
    assert_eq!(graph.by_index(0).tokens.len(), 3);
}

#[test]
fn greedy_quantifier_bounded_by_input_when_optional() {
    let text = "aa";
    let toks: Vec<Token> = (0..2).map(|i| tok(text, i, i + 1, "a", &[])).collect();
    let comp = Composition::new(vec![
        Part::new(word_atom(literal("a", true)), Quantifier::new(1, 1), true),
        Part::new(Atom::True(TrueAtom::new()), Quantifier::new(0, 5), true),
    ]);
    let graph = comp.apply(&toks, 0).expect("must match");
    assert_eq!(graph.by_index(0).tokens.len(), 1);
    assert_eq!(graph.by_index(1).tokens.len(), 1);
}

#[test]
fn capture_ids_go_to_visible_parts_in_order() {
    let text = "abc";
    let toks = vec![
        tok(text, 0, 1, "a", &[]),
        tok(text, 1, 2, "b", &[]),
        tok(text, 2, 3, "c", &[]),
    ];
    let comp = Composition::new(vec![
        Part::new(word_atom(literal("a", true)), Quantifier::new(1, 1), true),
        Part::new(word_atom(literal("b", true)), Quantifier::new(1, 1), false),
        Part::new(word_atom(literal("c", true)), Quantifier::new(1, 1), true),
    ]);
    let graph = comp.apply(&toks, 0).expect("must match");
    // id 0 is the first visible part, id 1 the next visible one (index 2)
    assert_eq!(graph.get_index(0), Some(0));
    assert_eq!(graph.get_index(1), Some(2));
    assert_eq!(graph.get_index(2), None);
    assert!(graph.by_id(2).is_none());
    assert_eq!(graph.by_id(1).unwrap().tokens, vec![2]);
    assert_eq!(graph.len(), 3);
    assert!(!graph.is_empty());
    assert_eq!(graph.groups().len(), 3);
}

#[test]
fn back_reference_compares_first_captured_token() {
    let text = "the the";
    let toks = vec![tok(text, 0, 3, "the", &[]), tok(text, 4, 7, "the", &[])];
    let backref = Matcher::new_string(StringOrId::Id(0), false, true, false);
    let comp = Composition::new(vec![
        Part::new(Atom::True(TrueAtom::new()), Quantifier::new(1, 1), true),
        Part::new(word_atom(backref), Quantifier::new(1, 1), true),
    ]);
    assert!(comp.apply(&toks, 0).is_some());

    let text2 = "the cat";
    let toks2 = vec![tok(text2, 0, 3, "the", &[]), tok(text2, 4, 7, "cat", &[])];
    let backref2 = Matcher::new_string(StringOrId::Id(0), false, true, false);
    let comp2 = Composition::new(vec![
        Part::new(Atom::True(TrueAtom::new()), Quantifier::new(1, 1), true),
        Part::new(word_atom(backref2), Quantifier::new(1, 1), true),
    ]);
    assert!(comp2.apply(&toks2, 0).is_none());
}

#[test]
fn empty_group_spans_are_reconciled() {
    let text = "a b";
    let toks = vec![tok(text, 0, 1, "a", &[]), tok(text, 2, 3, "b", &[])];
    let comp = Composition::new(vec![
        Part::new(word_atom(literal("a", true)), Quantifier::new(1, 1), true),
        Part::new(word_atom(literal("zzz", true)), Quantifier::new(0, 1), true),
        Part::new(word_atom(literal("b", true)), Quantifier::new(1, 1), true),
    ]);
    let graph = comp.apply(&toks, 0).expect("must match");
    assert_eq!(graph.by_index(0).tokens, vec![0]);
    assert_eq!(graph.by_index(1).tokens, Vec::<usize>::new());
    assert_eq!(graph.by_index(2).tokens, vec![1]);
    assert_eq!((graph.by_index(0).char_start, graph.by_index(0).char_end), (0, 1));
    // the empty middle group sits between its neighbours
    assert_eq!(graph.by_index(1).char_end, 1);
    assert_eq!(graph.by_index(1).char_start, 2);
    assert_eq!((graph.by_index(2).char_start, graph.by_index(2).char_end), (2, 3));
}

#[test]
fn match_fails_when_mandatory_part_unmatched() {
    let text = "a";
    let toks = vec![tok(text, 0, 1, "a", &[])];
    let comp = Composition::new(vec![Part::new(
        word_atom(literal("b", true)),
        Quantifier::new(1, 1),
        true,
    )]);
    assert!(comp.apply(&toks, 0).is_none());
}

#[test]
fn slice_match_accepts_any_element() {
    let m = literal("cat", true);
    let toks: Vec<Token> = Vec::new();
    let g = empty_graph();
    let values = vec!["dog".to_string(), "cat".to_string()];
    assert!(m.is_slice_match(&values, &toks, &g));
    let misses = vec!["dog".to_string(), "bird".to_string()];
    assert!(!m.is_slice_match(&misses, &toks, &g));
}

#[test]
fn regex_matcher_survives_catastrophic_backtracking() {
    // a pattern whose backtracking blows onig's default retry budget: the
    // aborted match counts as no match instead of bringing the process down
    let m = Matcher::new_regex("(a|a)*b".to_string(), false, false);
    let toks: Vec<Token> = Vec::new();
    let g = empty_graph();
    let input = "a".repeat(35);
    assert!(!m.is_match(&input, &toks, &g));
    assert!(m.is_match("aab", &toks, &g));
}
