use nlprule::composition::{
    Atom, AttributeMatcher, Composition, MatchAtom, Matcher, Part, Quantifier, StringOrId,
    TrueAtom,
};
use nlprule::rules::{correct, Cache, Rule, RuleLoad, Rules, RulesOptions};
use nlprule::types::{Suggestion, Token, Word};

fn tok(full: &str, start: usize, end: usize, word: &str) -> Token {
    Token {
        text: full.to_string(),
        char_span: (start, end),
        word: Word { text: word.to_string(), tags: Vec::new() },
    }
}

fn sug(start: usize, end: usize, texts: &[&str]) -> Suggestion {
    Suggestion { start, end, text: texts.iter().map(|t| t.to_string()).collect() }
}

fn literal_atom(s: &str) -> Atom {
    Atom::Match(MatchAtom::new(AttributeMatcher::WordText(Matcher::new_string(
        StringOrId::Literal(s.to_string()),
        false,
        true,
        false,
    ))))
}

/// A rule whose pattern is `count` consecutive tokens starting with `first`.
fn rule_for(id: &str, first: &str, count: usize, replacement: &str) -> Rule {
    let mut parts = vec![Part::new(literal_atom(first), Quantifier::new(1, 1), true)];
    for _ in 1..count {
        parts.push(Part::new(Atom::True(TrueAtom::new()), Quantifier::new(1, 1), true));
    }
    Rule::new(
        id.to_string(),
        true,
        Composition::new(parts),
        vec![replacement.to_string()],
    )
}

#[test]
fn correct_replaces_one_span() {
    let fixed = correct("Teh cat sat.", &[sug(0, 3, &["The"])]);
    assert_eq!(fixed, "The cat sat.");
}

#[test]
fn correct_without_suggestions_keeps_text() {
    let fixed = correct("The cat sat.", &[]);
    assert_eq!(fixed, "The cat sat.");
}

#[test]
fn correct_compounds_offsets() {
    // the first replacement is one character shorter than its span, so the
    // second is applied one position further left
    let fixed = correct(
        "aaaaaaa bbbb",
        &[sug(0, 7, &["aaaaaa"]), sug(8, 12, &["cccc"])],
    );
    assert_eq!(fixed, "aaaaaa cccc");
}

#[test]
fn correct_growing_replacement_shifts_right() {
    let fixed = correct("a b", &[sug(0, 1, &["aaa"]), sug(2, 3, &["c"])]);
    assert_eq!(fixed, "aaa c");
}

#[test]
fn correct_picks_first_replacement() {
    let fixed = correct("x", &[sug(0, 1, &["y", "z"])]);
    assert_eq!(fixed, "y");
}

#[test]
fn overlapping_suggestions_keep_smaller_start() {
    let text = "aa bb cc";
    let toks = vec![tok(text, 0, 2, "aa"), tok(text, 3, 5, "bb"), tok(text, 6, 8, "cc")];
    // the first rule covers tokens 0-1 ([0,5)), the second tokens 1-2 ([3,8))
    let rules = Rules {
        rules: vec![rule_for("r1", "aa", 2, "X"), rule_for("r2", "bb", 2, "Y")],
        cache: Cache {},
    };
    let sugs = rules.suggest(&toks);
    assert_eq!(sugs.len(), 1);
    assert_eq!((sugs[0].start, sugs[0].end), (0, 5));
    assert_eq!(sugs[0].text, vec!["X".to_string()]);
}

#[test]
fn disjoint_suggestions_both_survive() {
    let text = "aa bb cc";
    let toks = vec![tok(text, 0, 2, "aa"), tok(text, 3, 5, "bb"), tok(text, 6, 8, "cc")];
    let rules = Rules {
        rules: vec![rule_for("r1", "aa", 1, "X"), rule_for("r2", "cc", 1, "Y")],
        cache: Cache {},
    };
    let sugs = rules.suggest(&toks);
    assert_eq!(sugs.len(), 2);
    assert_eq!((sugs[0].start, sugs[0].end), (0, 2));
    assert_eq!((sugs[1].start, sugs[1].end), (6, 8));
}

#[test]
fn disabled_rule_yields_nothing() {
    let text = "aa";
    let toks = vec![tok(text, 0, 2, "aa")];
    let mut r = rule_for("r1", "aa", 1, "X");
    r.set_on(false);
    assert!(!r.on());
    let rules = Rules { rules: vec![r], cache: Cache {} };
    assert!(rules.suggest(&toks).is_empty());
}

#[test]
fn suggest_on_empty_tokens_is_empty() {
    let rules = Rules { rules: vec![rule_for("r1", "aa", 1, "X")], cache: Cache {} };
    assert!(rules.suggest(&[]).is_empty());
}

#[test]
fn suggest_then_correct_roundtrip_and_idempotence() {
    let text = "Teh cat sat.";
    let toks = vec![
        tok(text, 0, 3, "Teh"),
        tok(text, 4, 7, "cat"),
        tok(text, 8, 11, "sat"),
        tok(text, 11, 12, "."),
    ];
    let rules = Rules { rules: vec![rule_for("typo", "Teh", 1, "The")], cache: Cache {} };
    let sugs = rules.suggest(&toks);
    let fixed = correct(text, &sugs);
    assert_eq!(fixed, "The cat sat.");

    // re-tokenized, the corrected text matches no rule any more, and a second
    // run leaves it unchanged
    let toks2 = vec![
        tok(&fixed, 0, 3, "The"),
        tok(&fixed, 4, 7, "cat"),
        tok(&fixed, 8, 11, "sat"),
        tok(&fixed, 11, 12, "."),
    ];
    let sugs2 = rules.suggest(&toks2);
    assert!(sugs2.is_empty());
    assert_eq!(correct(&fixed, &sugs2), fixed);
}

#[test]
fn rule_fires_at_every_position() {
    let text = "aa aa";
    let toks = vec![tok(text, 0, 2, "aa"), tok(text, 3, 5, "aa")];
    let rules = Rules { rules: vec![rule_for("r1", "aa", 1, "X")], cache: Cache {} };
    let sugs = rules.suggest(&toks);
    assert_eq!(sugs.len(), 2);
    assert_eq!((sugs[0].start, sugs[0].end), (0, 2));
    assert_eq!((sugs[1].start, sugs[1].end), (3, 5));
}

#[test]
fn from_xml_filters_by_id() {
    let loads = vec![
        RuleLoad::Compiled(rule_for("", "aa", 1, "X"), "keep".to_string(), true),
        RuleLoad::Compiled(rule_for("", "bb", 1, "Y"), "drop".to_string(), false),
    ];
    let mut options = RulesOptions::default();
    options.ignore_ids.push("drop".to_string());
    let (rules, errors) = Rules::from_xml(loads, options);
    assert_eq!(rules.rules().len(), 1);
    assert_eq!(rules.rules()[0].id, "keep");
    assert!(rules.rules()[0].on);
    assert!(errors.is_empty());
}

#[test]
fn from_xml_use_list_restricts() {
    let loads = vec![
        RuleLoad::Compiled(rule_for("", "aa", 1, "X"), "a".to_string(), true),
        RuleLoad::Compiled(rule_for("", "bb", 1, "Y"), "b".to_string(), true),
    ];
    let mut options = RulesOptions::default();
    options.ids.push("b".to_string());
    let (rules, _) = Rules::from_xml(loads, options);
    assert_eq!(rules.rules().len(), 1);
    assert_eq!(rules.rules()[0].id, "b");
}

#[test]
fn from_xml_groups_error_counts() {
    let loads = vec![
        RuleLoad::StructureError("bad tag".to_string()),
        RuleLoad::RuleError("bad rule".to_string()),
        RuleLoad::StructureError("bad tag".to_string()),
    ];
    let (rules, errors) = Rules::from_xml(loads, RulesOptions::default());
    assert!(rules.rules().is_empty());
    assert_eq!(errors.len(), 2);
    assert_eq!(errors[0], ("[Structure] bad tag".to_string(), 2));
    assert_eq!(errors[1], ("[Rule] bad rule".to_string(), 1));
}

#[test]
fn populate_cache_keeps_conservative_mask() {
    let text = "aa";
    let toks = vec![tok(text, 0, 2, "aa")];
    let mut rules = Rules { rules: vec![rule_for("r1", "aa", 1, "X")], cache: Cache {} };
    rules.populate_cache(&vec!["aa".to_string()]);
    let mask = rules.cache.get_skip_mask(&toks, 0);
    assert_eq!(mask, vec![false]);
    // the hint never suppresses a match
    assert_eq!(rules.suggest(&toks).len(), 1);
}
