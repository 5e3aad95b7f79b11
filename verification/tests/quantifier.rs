use regex_tokenizer::regex::automata::element::Element;
use regex_tokenizer::regex::automata::quantifier::Quantifier;

#[test]
fn test() {
    let q = Quantifier {
        elements: vec![Element::RANGE('a', 'z'), Element::RANGE('0', '9')],
        min_repetitions: 2,
        max_repetitions: None,
    };

    assert_eq!(q.try_match("a1z9cc"), (true, 4));
    assert_eq!(q.try_match("a1cc"), (false, 2));
    assert_eq!(q.try_match("cc"), (false, 0));
}

#[test]
fn zero_width_atom_always_matches_nothing() {
    let q = Quantifier::empty();

    assert_eq!(q.try_match("xyz"), (true, 0));
    assert_eq!(q.try_match(""), (true, 0));
}

#[test]
fn single_predicate_atom() {
    let q = Quantifier::one(Element::EXACT('a'));

    assert_eq!(q.try_match("ab"), (true, 1));
    assert_eq!(q.try_match("ba"), (false, 0));
    assert_eq!(q.try_match(""), (false, 0));
}
