use regex_tokenizer::regex::automata::pattern::ErrorCause;
use regex_tokenizer::regex::automata::Node;
use regex_tokenizer::tokenization::matcher::Matcher;
use regex_tokenizer::tokenization::matcher::PatternError;

#[test]
fn range_out_of_order_is_rejected_at_compile_time() {
    let result = Matcher::build(vec![("[z-a]".to_string(), 1u32)], vec![]);
    assert_eq!(
        result.unwrap_err(),
        PatternError {
            rule_index: 0,
            cause: ErrorCause::RangeOrder
        }
    );
}

#[test]
fn second_rule_reports_its_own_index() {
    let result = Matcher::build(
        vec![("a".to_string(), 1u32)],
        vec!["[0-]".to_string()],
    );
    assert_eq!(
        result.unwrap_err(),
        PatternError {
            rule_index: 1,
            cause: ErrorCause::RangeFormat
        }
    );
}

#[test]
fn dangling_quantifier_is_rejected() {
    let err = Node::<u32>::new_automata("+ab", 1).unwrap_err();
    assert_eq!(err.cause, ErrorCause::WrongSyntax);
}

#[test]
fn unterminated_bracket_is_rejected() {
    let err = Node::<u32>::new_automata("[ab", 1).unwrap_err();
    assert_eq!(err.cause, ErrorCause::UnterminatedBracket);
}

#[test]
fn empty_pattern_is_rejected() {
    let err = Node::<u32>::new_automata("", 1).unwrap_err();
    assert_eq!(err.cause, ErrorCause::EmptyPattern);
}

#[test]
fn dash_with_nothing_after_it_is_rejected() {
    let err = Node::<u32>::new_automata("[a-]", 1).unwrap_err();
    assert_eq!(err.cause, ErrorCause::RangeFormat);
}

#[test]
fn optional_and_star_quantifiers() {
    let automata = Node::<u32>::new_automata("ab?c*", 1).unwrap();
    assert_eq!(automata.try_match("a"), Some(("a", 1)));
    assert_eq!(automata.try_match("abccc"), Some(("abccc", 1)));
    assert_eq!(automata.try_match("accb"), Some(("acc", 1)));
    assert_eq!(automata.try_match("b"), None);
}

#[test]
fn escaped_classes_match_their_sets() {
    let automata = Node::<u32>::new_automata(r"\w\d\s", 1).unwrap();
    assert_eq!(automata.try_match("a1 x"), Some(("a1 ", 1)));
    assert_eq!(automata.try_match("a1x"), None);
}
