use regex_tokenizer::regex::automata::token_generator::Token;
use regex_tokenizer::regex::automata::token_generator::TokenGenerator;

#[test]
fn tokenization() {
    let mut generator = TokenGenerator {
        current: r"abc\d[1]",
        position: 0,
    };
    let mut tokens: Vec<Token> = Vec::new();
    while let Some(token) = generator.next() {
        tokens.push(token);
    }

    assert_eq!(
        tokens,
        vec![
            Token {
                value: "a",
                span: (0..1)
            },
            Token {
                value: "b",
                span: (1..2)
            },
            Token {
                value: "c",
                span: (2..3)
            },
            Token {
                value: r"\d",
                span: (3..5)
            },
            Token {
                value: "[",
                span: (5..6)
            },
            Token {
                value: "1",
                span: (6..7)
            },
            Token {
                value: "]",
                span: (7..8)
            }
        ]
    );
}
