use cfront::token::{Token, TokenType};
use cfront::tokenizer::{strip_comments, LexError, Tokenizer};

fn lex(source: &str) -> Result<Vec<Token>, LexError> {
    let mut buf = String::from(source);
    Tokenizer::new().tokenize(&mut buf)
}

fn kinds(tokens: &[Token]) -> Vec<TokenType> {
    tokens.iter().map(|t| t.ttype).collect()
}

fn values(tokens: &[Token]) -> Vec<String> {
    tokens.iter().map(|t| t.value.clone()).collect()
}

#[test]
fn empty_input_yields_no_tokens() {
    assert_eq!(lex("").unwrap(), Vec::new());
}

#[test]
fn whitespace_only_input_fails() {
    let err = lex("   ").unwrap_err();
    assert_eq!(err.remaining, "");
}

#[test]
fn round_trip_program_tokens() {
    let tokens = lex("int main(void){return 2;}").unwrap();
    assert_eq!(tokens.len(), 10);
    assert_eq!(
        kinds(&tokens),
        vec![
            TokenType::KWInt,
            TokenType::Identifier,
            TokenType::OpenParen,
            TokenType::KWVoid,
            TokenType::CloseParen,
            TokenType::OpenBrace,
            TokenType::KWReturn,
            TokenType::Constant,
            TokenType::Semicolon,
            TokenType::CloseBrace,
        ]
    );
    assert_eq!(
        values(&tokens),
        vec!["int", "main", "(", "void", ")", "{", "return", "2", ";", "}"]
    );
}

#[test]
fn tokenizing_twice_is_deterministic() {
    let first = lex("int main(void){return 2;}").unwrap();
    let second = lex("int main(void){return 2;}").unwrap();
    assert_eq!(first, second);
}

#[test]
fn keyword_with_identifier_continuation_is_one_identifier() {
    let tokens = lex("returning").unwrap();
    assert_eq!(tokens.len(), 1);
    assert_eq!(tokens[0].ttype, TokenType::Identifier);
    assert_eq!(tokens[0].value, "returning");
}

#[test]
fn embedded_keyword_never_splits_a_word() {
    for word in ["printint", "intx", "voided", "xreturn", "int_x", "returns"] {
        let tokens = lex(word).unwrap();
        assert_eq!(tokens.len(), 1, "{word}");
        assert_eq!(tokens[0].ttype, TokenType::Identifier, "{word}");
        assert_eq!(tokens[0].value, word, "{word}");
    }
}

#[test]
fn underscore_opens_an_identifier() {
    let tokens = lex("_tmp1").unwrap();
    assert_eq!(tokens.len(), 1);
    assert_eq!(tokens[0].ttype, TokenType::Identifier);
    assert_eq!(tokens[0].value, "_tmp1");
}

#[test]
fn one_tokenizer_instance_serves_repeated_calls() {
    let tokenizer = Tokenizer::new();
    let mut first = String::from("int x;");
    let mut second = String::from("int x;");
    assert_eq!(
        tokenizer.tokenize(&mut first).unwrap(),
        tokenizer.tokenize(&mut second).unwrap()
    );
}

#[test]
fn exact_keywords_are_keywords() {
    let tokens = lex("return void int").unwrap();
    assert_eq!(
        kinds(&tokens),
        vec![TokenType::KWReturn, TokenType::KWVoid, TokenType::KWInt]
    );
    assert_eq!(values(&tokens), vec!["return", "void", "int"]);
}

#[test]
fn whitespace_padding_never_changes_tokens() {
    let compact = lex("int main(void){return 2;}").unwrap();
    let padded = lex("  int   main ( void ) \t { return    2 ; }  ").unwrap();
    assert_eq!(kinds(&compact), kinds(&padded));
    assert_eq!(values(&compact), values(&padded));
}

#[test]
fn unrecognized_character_fails() {
    let err = lex("int main(void){return #;}").unwrap_err();
    assert_eq!(err.remaining, "#;}");
}

#[test]
fn buffer_is_consumed_on_success_and_holds_rest_on_failure() {
    let mut ok_buf = String::from("int x;");
    assert!(Tokenizer::new().tokenize(&mut ok_buf).is_ok());
    assert_eq!(ok_buf, "");

    let mut err_buf = String::from("int @ x;");
    assert!(Tokenizer::new().tokenize(&mut err_buf).is_err());
    assert_eq!(err_buf, "@ x;");
}

#[test]
fn constant_requires_word_boundary() {
    let err = lex("123abc").unwrap_err();
    assert_eq!(err.remaining, "123abc");
}

#[test]
fn constant_before_punctuation_matches() {
    let tokens = lex("2;").unwrap();
    assert_eq!(kinds(&tokens), vec![TokenType::Constant, TokenType::Semicolon]);
    assert_eq!(values(&tokens), vec!["2", ";"]);
}

#[test]
fn line_comment_is_one_token_up_to_newline() {
    let tokens = lex("a//c d\n;").unwrap();
    assert_eq!(
        kinds(&tokens),
        vec![TokenType::Identifier, TokenType::Comment, TokenType::Semicolon]
    );
    assert_eq!(values(&tokens), vec!["a", "//c d\n", ";"]);
}

#[test]
fn line_comment_without_newline_fails() {
    let err = lex("int //c").unwrap_err();
    assert_eq!(err.remaining, "//c");
}

#[test]
fn line_comment_at_end_loses_its_newline_to_trailing_trim() {
    // After the semicolon is consumed, the remainder "//done\n" is stripped
    // of trailing whitespace, which removes the newline the comment needs.
    let err = lex("int x; //done\n").unwrap_err();
    assert_eq!(err.remaining, "//done");
}

#[test]
fn block_comment_ends_at_first_close() {
    let tokens = lex("/*a*/ 2 /*b*/").unwrap();
    assert_eq!(
        kinds(&tokens),
        vec![TokenType::Comment, TokenType::Constant, TokenType::Comment]
    );
    assert_eq!(values(&tokens), vec!["/*a*/", "2", "/*b*/"]);
}

#[test]
fn unterminated_block_comment_fails() {
    let err = lex("/*a").unwrap_err();
    assert_eq!(err.remaining, "/*a");
}

#[test]
fn block_comment_must_close_before_a_newline() {
    let err = lex("/*a\nb*/").unwrap_err();
    assert_eq!(err.remaining, "/*a\nb*/");
}

#[test]
fn lone_slash_fails() {
    let err = lex("a / b").unwrap_err();
    assert_eq!(err.remaining, "/ b");
}

#[test]
fn strip_comments_drops_only_comment_tokens() {
    let tokens = lex("a/*x*/b//y\nc").unwrap();
    assert_eq!(tokens.len(), 5);
    let stripped = strip_comments(tokens);
    assert_eq!(
        kinds(&stripped),
        vec![TokenType::Identifier, TokenType::Identifier, TokenType::Identifier]
    );
    assert_eq!(values(&stripped), vec!["a", "b", "c"]);
}
