//! Front end of a compiler for a minimal subset of C: a longest-match
//! tokenizer and a recursive-descent parser that together turn source text
//! into a typed abstract syntax tree.
//!
//! Data flows one way: raw text becomes a token sequence
//! ([`tokenizer::Tokenizer::tokenize`]), comment tokens are stripped
//! ([`tokenizer::strip_comments`]), and the remaining sequence is parsed
//! into a tree ([`ast::parse_program`]). Both stages are all or nothing:
//! the first violation aborts the whole attempt with a structured error.

pub mod ast;
pub mod lex;
pub mod token;
pub mod tokenizer;

use crate::ast::{is_program_node, parse_program, spec_parse_program, Node, ParseError,
    TokenStream};
use crate::lex::{spec_lex, SpecLexOutcome};
use crate::tokenizer::{spec_strip_comments, strip_comments, LexError, Tokenizer};
use vstd::prelude::*;

verus! {

/// The terminal failure of the pipeline: either no lexical pattern matched
/// (tokenization), or the token sequence violated the grammar (parsing).
/// Any tokenization failure prevents parsing from running at all.
#[derive(Debug, PartialEq, Eq)]
pub enum FrontendError {
    Lex(LexError),
    Parse(ParseError),
}

/// Run the front end on a source buffer: tokenize, and unless `lex_only` is
/// set, strip comment tokens and parse.
///
/// Returns the tree rooted at the program node, `None` when only
/// tokenization was requested, or the first error encountered. The buffer
/// is consumed as it is tokenized: it is left empty unless tokenization
/// failed, in which case it holds the text that could not be tokenized.
pub fn generate_ast(contents: &mut String, lex_only: bool) -> (r: Result<
    Option<Node>,
    FrontendError,
>)
    ensures
        match spec_lex(old(contents)@) {
            SpecLexOutcome::Rejected { start, end } => {
                &&& r matches Err(FrontendError::Lex(e)) && e.remaining@ == old(
                    contents,
                )@.subrange(start, end)
                &&& final(contents)@ == old(contents)@.subrange(start, end)
            },
            SpecLexOutcome::Accepted(ts) => {
                &&& final(contents)@ == Seq::<char>::empty()
                &&& if lex_only {
                    r == Ok::<Option<Node>, FrontendError>(None)
                } else {
                    match spec_parse_program(spec_strip_comments(ts)) {
                        Ok((name, value)) => r matches Ok(Some(n)) && is_program_node(
                            n,
                            name,
                            value,
                        ),
                        Err((pe, rest)) => r matches Err(FrontendError::Parse(e)) && e@ == pe,
                    }
                }
            },
        },
{
    let tokenizer = Tokenizer::new();
    let tokens = match tokenizer.tokenize(contents) {
        Ok(t) => t,
        Err(e) => return Err(FrontendError::Lex(e)),
    };
    if lex_only {
        return Ok(None);
    }
    let filtered = strip_comments(tokens);
    let mut stream = TokenStream::new(filtered);
    match parse_program(&mut stream) {
        Ok(n) => Ok(Some(n)),
        Err(e) => Err(FrontendError::Parse(e)),
    }
}

} // verus!
