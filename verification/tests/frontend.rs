use nfa::dfa::Dfa;
use nfa::error::ParseErrorKind;
use nfa::lexer::{Lexer, Token};
use nfa::parser::Parser;

#[test]
fn lexer_classifies_each_character() {
    let tokens = Lexer::new("a|b(c)*").lex();
    assert_eq!(
        tokens,
        vec![
            Token::Char('a'),
            Token::Or,
            Token::Char('b'),
            Token::ParOpen,
            Token::Char('c'),
            Token::ParClose,
            Token::Kleene,
        ]
    );
}

#[test]
fn lexer_of_empty_input_is_empty() {
    assert_eq!(Lexer::new("").lex(), Vec::<Token>::new());
}

#[test]
fn parser_builds_literal_nfa() {
    let tokens = Lexer::new("a").lex();
    let mut parser = Parser::new(&tokens);
    let n = parser.parse().unwrap();
    assert_eq!(n.vertexes, vec![0, 1]);
    assert_eq!(n.transitions()[0].get_char(), 'a');
}

#[test]
fn parser_handles_precedence_and_groups() {
    // `(ab)*|c` : alternation of a starred group with a literal.
    let tokens = Lexer::new("(ab)*|c").lex();
    let mut parser = Parser::new(&tokens);
    let n = parser.parse().unwrap();
    let d = Dfa::from_nfa(&n);
    // the empty word is accepted (zero repetitions of `ab`)
    assert!(d.final_states.contains(&d.start_state));
}

#[test]
fn parser_rejects_empty_input() {
    let tokens: Vec<Token> = Vec::new();
    let mut parser = Parser::new(&tokens);
    let e = parser.parse().unwrap_err();
    assert_eq!(e.kind, ParseErrorKind::UnexpectedToken);
    assert_eq!(e.index, 0);
}

#[test]
fn parser_rejects_leftover_close_paren() {
    let tokens = Lexer::new("a)b").lex();
    let mut parser = Parser::new(&tokens);
    let e = parser.parse().unwrap_err();
    assert_eq!(e.kind, ParseErrorKind::UnbalancedClose);
    assert_eq!(e.index, 1);
}

#[test]
fn parser_rejects_double_star() {
    let tokens = Lexer::new("a**").lex();
    let mut parser = Parser::new(&tokens);
    let e = parser.parse().unwrap_err();
    assert_eq!(e.kind, ParseErrorKind::DoubleStar);
    assert_eq!(e.index, 2);
}

#[test]
fn parser_rejects_unterminated_group() {
    let tokens = Lexer::new("(ab").lex();
    let mut parser = Parser::new(&tokens);
    let e = parser.parse().unwrap_err();
    assert_eq!(e.kind, ParseErrorKind::UnterminatedGroup);
    assert_eq!(e.index, 3);
}

#[test]
fn parser_rejects_operator_without_atom() {
    let tokens = Lexer::new("*a").lex();
    let mut parser = Parser::new(&tokens);
    let e = parser.parse().unwrap_err();
    assert_eq!(e.kind, ParseErrorKind::UnexpectedToken);
    assert_eq!(e.index, 0);
}

#[test]
fn lone_close_paren_is_unbalanced_close() {
    let tokens = vec![Token::ParClose];
    let mut parser = Parser::new(&tokens);
    let e = parser.parse().unwrap_err();
    assert_eq!(e.kind, ParseErrorKind::UnbalancedClose);
    assert_eq!(e.index, 0);
}

#[test]
fn parser_rejects_double_bar() {
    let tokens = Lexer::new("a||b").lex();
    let mut parser = Parser::new(&tokens);
    let e = parser.parse().unwrap_err();
    assert_eq!(e.kind, ParseErrorKind::DoubleBar);
    assert_eq!(e.index, 2);
}

#[test]
fn parser_and_dfa_agree_on_alternation() {
    let tokens = Lexer::new("a|b").lex();
    let mut parser = Parser::new(&tokens);
    let d = Dfa::from_nfa(&parser.parse().unwrap());
    assert_eq!(d.vertexes.len(), 3);
    assert_eq!(d.final_states.len(), 2);
}
