use regex_tokenizer::regex::automata::element::Element;

#[test]
fn range() {
    let m = Element::RANGE('a', 'z');

    assert!(m.check('b'));
    assert!(!m.check('0'));
}

#[test]
fn any() {
    let m = Element::ANY;

    assert!(m.check('b'));
    assert!(m.check('0'));
}

#[test]
fn exact() {
    let m = Element::EXACT('b');

    assert!(m.check('b'));
    assert!(!m.check('0'));
}

#[test]
fn whitespace_members() {
    let m = Element::WHITESPACE;

    assert!(m.check(' '));
    assert!(m.check('\t'));
    assert!(m.check('\n'));
    assert!(m.check('\r'));
    assert!(!m.check('x'));
}

#[test]
fn digit_and_word_members() {
    assert!(Element::DIGIT.check('7'));
    assert!(!Element::DIGIT.check('a'));
    assert!(Element::WORD.check('a'));
    assert!(Element::WORD.check('Z'));
    assert!(Element::WORD.check('0'));
    assert!(!Element::WORD.check('_'));
}

#[test]
fn mixed_takes_any_member() {
    let m = Element::MIXED(vec![Element::EXACT('X'), Element::RANGE('a', 'z')]);

    assert!(m.check('X'));
    assert!(m.check('q'));
    assert!(!m.check('Y'));
}
