use regex_tokenizer::regex::automata::element::Element;
use regex_tokenizer::regex::automata::quantifier::Quantifier;
use regex_tokenizer::regex::automata::Node;
use regex_tokenizer::regex::automata::NodeKind;

#[derive(Debug, PartialEq, Clone, Copy)]
enum A {
    T,
    U,
}

#[test]
fn automata_expansion() {
    let mut automata = Node::<A>::new_automata(r"a[Xa-z]", A::T).unwrap();
    automata.add_matcher("a", A::U).expect("");

    assert_eq!(
        automata,
        Node::<A> {
            current: Quantifier {
                elements: vec![],
                min_repetitions: 0,
                max_repetitions: Some(0)
            },
            kind: NodeKind::SKIP,
            children: vec![Node {
                current: Quantifier {
                    elements: vec![Element::EXACT('a')],
                    min_repetitions: 1,
                    max_repetitions: Some(1)
                },
                kind: NodeKind::FINAL(A::U),
                children: vec![Node {
                    current: Quantifier {
                        elements: vec![Element::MIXED(vec![
                            Element::EXACT('X'),
                            Element::RANGE('a', 'z')
                        ])],
                        min_repetitions: 1,
                        max_repetitions: Some(1)
                    },
                    kind: NodeKind::FINAL(A::T),
                    children: vec![]
                }]
            },]
        }
    )
}
