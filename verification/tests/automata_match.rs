use regex_tokenizer::regex::automata::Node;

#[derive(Debug, PartialEq, Clone, Copy)]
enum A {
    T,
}

#[test]
fn automata_matching() {
    let automata = Node::<A>::new_automata(r"a\d[a-z]", A::T).unwrap();

    assert_eq!(automata.try_match("a1zaaaa"), Some(("a1z", A::T)));
}
