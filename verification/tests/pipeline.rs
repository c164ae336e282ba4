use cfront::ast::{NodeType, ParseError};
use cfront::generate_ast;
use cfront::tokenizer::LexError;
use cfront::FrontendError;

#[test]
fn full_pipeline_builds_the_tree() {
    let mut buf = String::from("int main(void){return 2;}");
    let root = generate_ast(&mut buf, false).unwrap().unwrap();
    assert_eq!(root.ntype, NodeType::Program);
    assert_eq!(root.children.len(), 1);
    assert_eq!(root.children[0].ntype, NodeType::Function);
    assert_eq!(buf, "");
}

#[test]
fn lex_only_stops_before_parsing() {
    // The trailing junk would fail parsing, but only tokenization runs.
    let mut buf = String::from("int main(void){return 2;} extra");
    assert_eq!(generate_ast(&mut buf, true).unwrap(), None);
}

#[test]
fn comments_are_filtered_before_parsing() {
    let mut buf = String::from("int main(void){/*why not*/return 2;//done\n}");
    let root = generate_ast(&mut buf, false).unwrap().unwrap();
    assert_eq!(root.ntype, NodeType::Program);
}

#[test]
fn lex_failure_prevents_parsing() {
    let mut buf = String::from("int main(void){return #;}");
    let err = generate_ast(&mut buf, false).unwrap_err();
    assert_eq!(
        err,
        FrontendError::Lex(LexError { remaining: String::from("#;}") })
    );
    assert_eq!(buf, "#;}");
}

#[test]
fn parse_failure_surfaces_the_violation() {
    let mut buf = String::from("int main(void){return 2;} extra");
    let err = generate_ast(&mut buf, false).unwrap_err();
    assert_eq!(
        err,
        FrontendError::Parse(ParseError::TrailingInput { value: String::from("extra") })
    );
}

#[test]
fn padded_source_parses_like_compact_source() {
    let mut compact = String::from("int main(void){return 2;}");
    let mut padded = String::from("\t int  main ( void ) {\n  return 2 ;\n} ");
    let a = generate_ast(&mut compact, false).unwrap().unwrap();
    let b = generate_ast(&mut padded, false).unwrap().unwrap();
    assert_eq!(a, b);
}
