use regex_tokenizer::regex::automata::Node;
use regex_tokenizer::tokenization::matcher::Matcher;
use regex_tokenizer::tokenization::matcher::ValidToken;
use regex_tokenizer::Tokenizer;

#[derive(Debug, PartialEq, Clone, Copy)]
enum Kind {
    KwIf,
    Identifier,
    Number,
}

#[test]
fn greedy_quantifier_takes_longest_run() {
    let automata = Node::<u32>::new_automata("a+", 1).unwrap();
    assert_eq!(automata.try_match("aaab"), Some(("aaa", 1)));
}

#[test]
fn greedy_quantifier_through_scan() {
    let matcher = Matcher::build(vec![("a+".to_string(), 7u32)], vec![]).unwrap();
    let mut tokens = matcher.tokenize("aaab");
    let token = tokens.next().unwrap().unwrap();
    assert_eq!(token.value, "aaa");
    assert_eq!(token.position, 0);
    assert_eq!(token.type_, 7);
}

#[test]
fn character_class_membership() {
    let lower = Node::<u32>::new_automata("[a-z]", 1).unwrap();
    assert_eq!(lower.try_match("m"), Some(("m", 1)));
    assert_eq!(lower.try_match("M"), None);
    assert_eq!(lower.try_match("5"), None);

    let mixed = Node::<u32>::new_automata("[Xa-z]", 2).unwrap();
    assert_eq!(mixed.try_match("X"), Some(("X", 2)));
    assert_eq!(mixed.try_match("c"), Some(("c", 2)));
}

#[test]
fn prefix_sharing_first_terminal_wins() {
    let matcher = Matcher::build(
        vec![
            ("if".to_string(), Kind::KwIf),
            (r"[a-zA-Z]\w*".to_string(), Kind::Identifier),
        ],
        vec![],
    )
    .unwrap();
    let mut tokens = matcher.tokenize("if3");
    let token = tokens.next().unwrap().unwrap();
    assert_eq!(token.value, "if");
    assert_eq!(token.position, 0);
    assert_eq!(token.type_, Kind::KwIf);
}

#[test]
fn shorter_rule_shadows_longer_one() {
    let mut automata = Node::<u32>::new_automata("a", 1).unwrap();
    automata.add_matcher("ab", 2).expect("");
    assert_eq!(automata.try_match("ab"), Some(("a", 1)));
}

#[test]
fn separator_skipping() {
    let matcher = Matcher::build(
        vec![
            (r"[a-zA-Z]\w*".to_string(), Kind::Identifier),
            (r"\d+".to_string(), Kind::Number),
        ],
        vec![r"\s+".to_string()],
    )
    .unwrap();
    let mut tokens = matcher.tokenize("Identifier  11");

    let token = tokens.next().unwrap().unwrap();
    assert_eq!(token.value, "Identifier");
    assert_eq!(token.position, 0);
    assert_eq!(token.type_, Kind::Identifier);
    assert_eq!(token.position(), (0, 10));

    let token = tokens.next().unwrap().unwrap();
    assert_eq!(token.value, "11");
    assert_eq!(token.position, 12);
    assert_eq!(token.type_, Kind::Number);

    assert!(tokens.next().is_none());
}

#[test]
fn unrecognized_input_fails_at_offset_zero() {
    let matcher = Matcher::build(
        vec![
            (r"[a-zA-Z]\w*".to_string(), Kind::Identifier),
            (r"\d+".to_string(), Kind::Number),
        ],
        vec![r"\s+".to_string()],
    )
    .unwrap();
    let mut tokens = matcher.tokenize("@@@");

    let err = tokens.next().unwrap().unwrap_err();
    assert_eq!(err.position, 0);
    assert_eq!(err.remainder, "@@@");
    assert!(tokens.next().is_none());
}

#[test]
fn error_after_valid_tokens_keeps_them() {
    let matcher = Matcher::build(
        vec![(r"\d+".to_string(), Kind::Number)],
        vec![r"\s+".to_string()],
    )
    .unwrap();
    let mut tokens = matcher.tokenize("12 x");

    let token = tokens.next().unwrap().unwrap();
    assert_eq!(token.value, "12");
    let err = tokens.next().unwrap().unwrap_err();
    assert_eq!(err.position, 3);
    assert_eq!(err.remainder, "x");
    assert!(tokens.next().is_none());
}

#[test]
fn zero_width_separator_reports_stuck_input() {
    let matcher = Matcher::build(vec![("a".to_string(), 1u32)], vec!["b*".to_string()]).unwrap();
    let mut tokens = matcher.tokenize("ca");
    let err = tokens.next().unwrap().unwrap_err();
    assert_eq!(err.position, 0);
}

#[test]
fn token_to_string_copies_the_value() {
    let matcher = Matcher::build(vec![("a+".to_string(), 1u32)], vec![]).unwrap();
    let token = matcher.try_match("aa", 0).unwrap();
    assert_eq!(token.to_string(), "aa");
}

#[test]
fn sibling_order_follows_declaration_order() {
    let matcher = Matcher::build(
        vec![("[ab]".to_string(), 1u32), ("a".to_string(), 2u32)],
        vec![],
    )
    .unwrap();
    let token = matcher.try_match("a", 0).unwrap();
    assert_eq!(token.type_, 1);
}

#[test]
fn separator_only_input_ends_cleanly() {
    let matcher = Matcher::build(
        vec![(r"\d+".to_string(), Kind::Number)],
        vec![r"\s+".to_string()],
    )
    .unwrap();
    let mut tokens = matcher.tokenize("   ");
    assert!(tokens.next().is_none());
}
