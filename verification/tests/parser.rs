use cfront::ast::{
    expect, parse_constant, parse_identifier, parse_program, Node, NodeType, ParseError,
    TokenStream,
};
use cfront::token::{Token, TokenType};
use cfront::tokenizer::{strip_comments, Tokenizer};

fn tok(ttype: TokenType, value: &str) -> Token {
    Token { ttype, value: String::from(value) }
}

fn stream_of(source: &str) -> TokenStream {
    let mut buf = String::from(source);
    let tokens = Tokenizer::new().tokenize(&mut buf).unwrap();
    TokenStream::new(strip_comments(tokens))
}

fn assert_program_shape(root: &Node, name: &str, value: i32) {
    assert_eq!(root.ntype, NodeType::Program);
    assert_eq!(root.children.len(), 1);

    let function = &root.children[0];
    assert_eq!(function.ntype, NodeType::Function);
    assert_eq!(function.children.len(), 2);

    let identifier = &function.children[0];
    assert_eq!(identifier.ntype, NodeType::Identifier(String::from(name)));
    assert_eq!(identifier.children.len(), 0);

    let statement = &function.children[1];
    assert_eq!(statement.ntype, NodeType::Statement);
    assert_eq!(statement.children.len(), 1);

    let expression = &statement.children[0];
    assert_eq!(expression.ntype, NodeType::Expression);
    assert_eq!(expression.children.len(), 1);

    let constant = &expression.children[0];
    assert_eq!(constant.ntype, NodeType::Constant(value));
    assert_eq!(constant.children.len(), 0);
}

#[test]
fn round_trip_program_tree() {
    let mut tokens = stream_of("int main(void){return 2;}");
    let root = parse_program(&mut tokens).unwrap();
    assert_program_shape(&root, "main", 2);
}

#[test]
fn valid_programs_share_the_fixed_shape() {
    for (source, name, value) in [
        ("int f(void){return 0;}", "f", 0),
        ("int answer_42 (void) { return 42 ; }", "answer_42", 42),
        ("int max(void){return 2147483647;}", "max", 2147483647),
    ] {
        let mut tokens = stream_of(source);
        let root = parse_program(&mut tokens).unwrap();
        assert_program_shape(&root, name, value);
    }
}

#[test]
fn trailing_input_is_reported_with_its_text() {
    let mut tokens = stream_of("int main(void){return 2;} extra");
    let err = parse_program(&mut tokens).unwrap_err();
    assert_eq!(err, ParseError::TrailingInput { value: String::from("extra") });
}

#[test]
fn truncated_input_reports_exhaustion() {
    let mut tokens = stream_of("int main(void){return");
    let err = parse_program(&mut tokens).unwrap_err();
    assert_eq!(
        err,
        ParseError::Mismatch { expected: TokenType::Constant, got: TokenType::Empty }
    );
}

#[test]
fn truncation_before_semicolon_reports_missing_semicolon() {
    let mut tokens = stream_of("int main(void){return 2");
    let err = parse_program(&mut tokens).unwrap_err();
    assert_eq!(
        err,
        ParseError::Mismatch { expected: TokenType::Semicolon, got: TokenType::Empty }
    );
}

#[test]
fn wrong_token_reports_expected_and_got() {
    let mut tokens = stream_of("int main(void)(return 2;}");
    let err = parse_program(&mut tokens).unwrap_err();
    assert_eq!(
        err,
        ParseError::Mismatch { expected: TokenType::OpenBrace, got: TokenType::OpenParen }
    );
}

#[test]
fn missing_return_reports_expected_keyword() {
    let mut tokens = stream_of("int main(void){2;}");
    let err = parse_program(&mut tokens).unwrap_err();
    assert_eq!(
        err,
        ParseError::Mismatch { expected: TokenType::KWReturn, got: TokenType::Constant }
    );
}

#[test]
fn overflowing_constant_is_invalid() {
    let mut tokens = stream_of("int main(void){return 2147483648;}");
    let err = parse_program(&mut tokens).unwrap_err();
    assert_eq!(err, ParseError::InvalidConstant { value: String::from("2147483648") });
}

#[test]
fn hugely_overflowing_constant_is_invalid() {
    let mut tokens = stream_of("int main(void){return 99999999999999999999;}");
    let err = parse_program(&mut tokens).unwrap_err();
    assert_eq!(
        err,
        ParseError::InvalidConstant { value: String::from("99999999999999999999") }
    );
}

#[test]
fn expect_consumes_exactly_one_matching_token() {
    let mut tokens = TokenStream::new(vec![tok(TokenType::Semicolon, ";")]);
    assert_eq!(expect(TokenType::Semicolon, &mut tokens), Ok(()));
    assert_eq!(
        expect(TokenType::Semicolon, &mut tokens),
        Err(ParseError::Mismatch { expected: TokenType::Semicolon, got: TokenType::Empty })
    );
}

#[test]
fn expect_reports_the_mismatched_type() {
    let mut tokens = TokenStream::new(vec![tok(TokenType::OpenParen, "(")]);
    assert_eq!(
        expect(TokenType::CloseParen, &mut tokens),
        Err(ParseError::Mismatch { expected: TokenType::CloseParen, got: TokenType::OpenParen })
    );
}

#[test]
fn parse_identifier_builds_a_leaf() {
    let mut tokens = TokenStream::new(vec![tok(TokenType::Identifier, "main")]);
    let node = parse_identifier(&mut tokens).unwrap();
    assert_eq!(node.ntype, NodeType::Identifier(String::from("main")));
    assert_eq!(node.children.len(), 0);
}

#[test]
fn parse_identifier_on_exhausted_stream_reports_empty() {
    let mut tokens = TokenStream::new(Vec::new());
    let err = parse_identifier(&mut tokens).unwrap_err();
    assert_eq!(
        err,
        ParseError::Mismatch { expected: TokenType::Identifier, got: TokenType::Empty }
    );
}

#[test]
fn truncation_at_identifier_reports_missing_identifier() {
    let mut tokens = stream_of("int");
    let err = parse_program(&mut tokens).unwrap_err();
    assert_eq!(
        err,
        ParseError::Mismatch { expected: TokenType::Identifier, got: TokenType::Empty }
    );
}

#[test]
fn a_mismatched_token_is_still_consumed() {
    let mut tokens = TokenStream::new(vec![tok(TokenType::OpenParen, "(")]);
    assert!(expect(TokenType::CloseParen, &mut tokens).is_err());
    assert!(tokens.next().is_none());
}

#[test]
fn parse_constant_rejects_a_non_numeric_lexeme() {
    let mut tokens = TokenStream::new(vec![tok(TokenType::Constant, "12a")]);
    let err = parse_constant(&mut tokens).unwrap_err();
    assert_eq!(err, ParseError::InvalidConstant { value: String::from("12a") });
}

#[test]
fn parse_constant_accepts_leading_zeros() {
    let mut tokens = TokenStream::new(vec![tok(TokenType::Constant, "007")]);
    let node = parse_constant(&mut tokens).unwrap();
    assert_eq!(node.ntype, NodeType::Constant(7));
}

#[test]
fn comment_tokens_are_not_grammar() {
    // Without the pre-parse filter, a comment token violates the grammar.
    let mut buf = String::from("int main(void){/*c*/return 2;}");
    let tokens = Tokenizer::new().tokenize(&mut buf).unwrap();
    let mut unfiltered = TokenStream::new(tokens);
    let err = parse_program(&mut unfiltered).unwrap_err();
    assert_eq!(
        err,
        ParseError::Mismatch { expected: TokenType::KWReturn, got: TokenType::Comment }
    );
}
