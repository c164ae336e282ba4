//! The recursive-descent parser: consumes a token sequence through a
//! forward-only cursor and builds the abstract syntax tree of the grammar
//!
//! ```text
//! Program    := Function EOF
//! Function   := "int" Identifier "(" "void" ")" "{" Statement "}"
//! Statement  := "return" Expression ";"
//! Expression := Constant
//! ```
//!
//! or fails with the first violation encountered.

use crate::lex::is_digit_char;
use crate::token::{tokens_view, SpecToken, Token, TokenType};
use vstd::prelude::*;

verus! {

// ---------------------------------------------------------------------------
// The tree
// ---------------------------------------------------------------------------
/// The grammatical category of a node, with the payload of the leaves: the
/// identifier's name, or the constant's value parsed as a signed 32-bit
/// integer.
#[derive(Debug, PartialEq, Eq)]
pub enum NodeType {
    Program,
    Function,
    Statement,
    Expression,
    Identifier(String),
    Constant(i32),
}

/// A node of the abstract syntax tree: its category and its ordered
/// children (empty for the leaf categories). Each node exclusively owns its
/// children, so the tree is strict: no sharing, no cycles.
#[derive(Debug, PartialEq, Eq)]
pub struct Node {
    pub ntype: NodeType,
    pub children: Vec<Node>,
}

/// An identifier leaf carrying `name`.
pub open spec fn is_identifier_node(n: Node, name: Seq<char>) -> bool {
    &&& n.ntype matches NodeType::Identifier(s) && s@ == name
    &&& n.children@.len() == 0
}

/// A constant leaf carrying `value`.
pub open spec fn is_constant_node(n: Node, value: i32) -> bool {
    &&& n.ntype matches NodeType::Constant(v) && v == value
    &&& n.children@.len() == 0
}

/// An expression node wrapping one constant leaf.
pub open spec fn is_expression_node(n: Node, value: i32) -> bool {
    &&& n.ntype is Expression
    &&& n.children@.len() == 1
    &&& is_constant_node(n.children@[0], value)
}

/// A statement node wrapping one expression.
pub open spec fn is_statement_node(n: Node, value: i32) -> bool {
    &&& n.ntype is Statement
    &&& n.children@.len() == 1
    &&& is_expression_node(n.children@[0], value)
}

/// A function node: the function's name, then its body statement.
pub open spec fn is_function_node(n: Node, name: Seq<char>, value: i32) -> bool {
    &&& n.ntype is Function
    &&& n.children@.len() == 2
    &&& is_identifier_node(n.children@[0], name)
    &&& is_statement_node(n.children@[1], value)
}

/// A program node wrapping exactly one function.
pub open spec fn is_program_node(n: Node, name: Seq<char>, value: i32) -> bool {
    &&& n.ntype is Program
    &&& n.children@.len() == 1
    &&& is_function_node(n.children@[0], name, value)
}

// ---------------------------------------------------------------------------
// Parse errors
// ---------------------------------------------------------------------------
/// The mathematical image of a [`ParseError`].
pub ghost enum SpecParseError {
    Mismatch { expected: TokenType, got: TokenType },
    TrailingInput { value: Seq<char> },
    InvalidConstant { value: Seq<char> },
}

/// Failure of parsing, fail-fast at the first violation.
#[derive(Debug, PartialEq, Eq)]
pub enum ParseError {
    /// A consumed token's type did not match the grammar rule's expectation;
    /// `got` is `Empty` when the stream was exhausted before a required
    /// token appeared.
    Mismatch { expected: TokenType, got: TokenType },
    /// Input remained after a complete program was parsed; carries the
    /// offending token's text.
    TrailingInput { value: String },
    /// A constant token's lexeme did not parse as a signed 32-bit integer.
    InvalidConstant { value: String },
}

impl View for ParseError {
    type V = SpecParseError;

    open spec fn view(&self) -> SpecParseError {
        match self {
            ParseError::Mismatch { expected, got } => SpecParseError::Mismatch {
                expected: *expected,
                got: *got,
            },
            ParseError::TrailingInput { value } => SpecParseError::TrailingInput { value: value@ },
            ParseError::InvalidConstant { value } => SpecParseError::InvalidConstant {
                value: value@,
            },
        }
    }
}

// ---------------------------------------------------------------------------
// Decimal constants
// ---------------------------------------------------------------------------
/// The numeric value of a decimal digit.
pub open spec fn digit_val(c: char) -> int {
    c as u32 - '0' as u32
}

/// Whether every character of `s` is a decimal digit.
pub open spec fn is_digit_seq(s: Seq<char>) -> bool {
    forall|i: int| 0 <= i < s.len() ==> is_digit_char(s[i])
}

/// The value of `s` read as a decimal numeral.
pub open spec fn digits_val(s: Seq<char>) -> int
    decreases s.len(),
{
    if s.len() == 0 {
        0
    } else {
        digits_val(s.drop_last()) * 10 + digit_val(s.last())
    }
}

/// Reading one more digit multiplies the prefix value by ten and adds it.
proof fn lemma_digits_val_step(s: Seq<char>, i: int)
    requires
        0 <= i < s.len(),
    ensures
        digits_val(s.take(i + 1)) == 10 * digits_val(s.take(i)) + digit_val(s[i]),
{
    assert(s.take(i + 1).drop_last() =~= s.take(i));
    assert(s.take(i + 1).last() == s[i]);
}

/// A decimal numeral's value is never negative.
proof fn lemma_digits_val_nonneg(s: Seq<char>)
    requires
        is_digit_seq(s),
    ensures
        digits_val(s) >= 0,
    decreases s.len(),
{
    if s.len() > 0 {
        assert(is_digit_seq(s.drop_last())) by {
            assert(forall|i: int| 0 <= i < s.len() - 1 ==> s.drop_last()[i] == s[i]);
        }
        lemma_digits_val_nonneg(s.drop_last());
    }
}

/// A numeral's value is at least the value of any of its prefixes.
proof fn lemma_digits_val_prefix_le(s: Seq<char>, i: int)
    requires
        is_digit_seq(s),
        0 <= i <= s.len(),
    ensures
        digits_val(s.take(i)) <= digits_val(s),
    decreases s.len() - i,
{
    if i < s.len() {
        lemma_digits_val_step(s, i);
        assert(is_digit_seq(s.take(i))) by {
            assert(forall|k: int| 0 <= k < i ==> s.take(i)[k] == s[k]);
        }
        lemma_digits_val_nonneg(s.take(i));
        lemma_digits_val_prefix_le(s, i + 1);
    } else {
        assert(s.take(i) =~= s);
    }
}

/// Parse a decimal numeral into a signed 32-bit integer: succeeds exactly on
/// nonempty all-digit strings whose value fits, and never panics on any
/// other content.
fn parse_i32_digits(s: &str) -> (r: Option<i32>)
    ensures
        match r {
            Some(v) => s@.len() > 0 && is_digit_seq(s@) && digits_val(s@) <= i32::MAX && v
                == digits_val(s@),
            None => s@.len() == 0 || !is_digit_seq(s@) || digits_val(s@) > i32::MAX,
        },
{
    let n = s.unicode_len();
    if n == 0 {
        return None;
    }
    let mut acc: u32 = 0;
    let mut i: usize = 0;
    while i < n
        invariant
            i <= n,
            n == s@.len(),
            is_digit_seq(s@.take(i as int)),
            acc == digits_val(s@.take(i as int)),
            acc <= 0x7fff_ffff,
        decreases n - i,
    {
        let c = s.get_char(i);
        if !crate::tokenizer::digit_char(c) {
            proof {
                assert(s@[i as int] == c);
                assert(!is_digit_seq(s@));
            }
            return None;
        }
        let d: u32 = c as u32 - 48;
        proof {
            assert('0' as u32 == 48);
            assert(d == digit_val(c));
            assert(d <= 9);
            lemma_digits_val_step(s@, i as int);
            assert(is_digit_seq(s@.take(i as int + 1))) by {
                assert(forall|k: int| 0 <= k < i as int + 1 ==> s@.take(i as int + 1)[k] == s@[k]);
            }
        }
        if acc > (0x7fff_ffffu32 - d) / 10 {
            proof {
                let m: int = 0x7fff_ffff;
                let q: int = (m - d) / 10;
                vstd::arithmetic::div_mod::lemma_fundamental_div_mod(m - d, 10);
                assert((m - d) % 10 < 10) by {
                    vstd::arithmetic::div_mod::lemma_mod_bound(m - d, 10);
                }
                assert(10 * acc + d > m);
                assert(digits_val(s@.take(i as int + 1)) > m);
                if is_digit_seq(s@) {
                    lemma_digits_val_prefix_le(s@, i as int + 1);
                }
            }
            return None;
        }
        proof {
            let m: int = 0x7fff_ffff;
            vstd::arithmetic::div_mod::lemma_fundamental_div_mod(m - d, 10);
            assert((m - d) % 10 >= 0) by {
                vstd::arithmetic::div_mod::lemma_mod_bound(m - d, 10);
            }
            assert(10 * acc + d <= m);
        }
        acc = acc * 10 + d;
        i = i + 1;
    }
    proof {
        assert(s@.take(n as int) =~= s@);
    }
    Some(acc as i32)
}

// ---------------------------------------------------------------------------
// The grammar, stated over token sequences
// ---------------------------------------------------------------------------
/// Consume one token of type `ttype` from the front of `ts`: the remainder
/// on success, or the expected/got pair of the violation. An exhausted
/// stream is reported with `got` equal to `Empty`.
///
/// Parsing is fail-fast: an error also carries the tokens left once the
/// one offending token (if any) was consumed, and nothing past it is ever
/// read.
pub open spec fn spec_expect(ts: Seq<SpecToken>, ttype: TokenType) -> Result<
    Seq<SpecToken>,
    (SpecParseError, Seq<SpecToken>),
> {
    if ts.len() == 0 {
        Err((SpecParseError::Mismatch { expected: ttype, got: TokenType::Empty }, ts))
    } else if ts[0].ttype == ttype {
        Ok(ts.drop_first())
    } else {
        Err(
            (
                SpecParseError::Mismatch { expected: ttype, got: ts[0].ttype },
                ts.drop_first(),
            ),
        )
    }
}

/// Consume an identifier token, yielding its name and the remainder.
pub open spec fn spec_parse_identifier(ts: Seq<SpecToken>) -> Result<
    (Seq<char>, Seq<SpecToken>),
    (SpecParseError, Seq<SpecToken>),
> {
    if ts.len() == 0 {
        Err((SpecParseError::Mismatch { expected: TokenType::Identifier, got: TokenType::Empty },
        ts))
    } else if ts[0].ttype == TokenType::Identifier {
        Ok((ts[0].value, ts.drop_first()))
    } else {
        Err(
            (
                SpecParseError::Mismatch { expected: TokenType::Identifier, got: ts[0].ttype },
                ts.drop_first(),
            ),
        )
    }
}

/// Consume a constant token and read its lexeme as a signed 32-bit integer.
/// A lexeme that is not a nonempty digit string, or whose value overflows,
/// is an `InvalidConstant` error rather than a panic.
pub open spec fn spec_parse_constant(ts: Seq<SpecToken>) -> Result<
    (i32, Seq<SpecToken>),
    (SpecParseError, Seq<SpecToken>),
> {
    if ts.len() == 0 {
        Err((SpecParseError::Mismatch { expected: TokenType::Constant, got: TokenType::Empty },
        ts))
    } else if ts[0].ttype == TokenType::Constant {
        let v = ts[0].value;
        if v.len() > 0 && is_digit_seq(v) && digits_val(v) <= i32::MAX {
            Ok((digits_val(v) as i32, ts.drop_first()))
        } else {
            Err((SpecParseError::InvalidConstant { value: v }, ts.drop_first()))
        }
    } else {
        Err(
            (
                SpecParseError::Mismatch { expected: TokenType::Constant, got: ts[0].ttype },
                ts.drop_first(),
            ),
        )
    }
}

/// An expression is currently only a constant.
pub open spec fn spec_parse_expression(ts: Seq<SpecToken>) -> Result<
    (i32, Seq<SpecToken>),
    (SpecParseError, Seq<SpecToken>),
> {
    spec_parse_constant(ts)
}

/// A statement is `return`, an expression, `;`; it yields the returned
/// value and the remainder.
pub open spec fn spec_parse_statement(ts: Seq<SpecToken>) -> Result<
    (i32, Seq<SpecToken>),
    (SpecParseError, Seq<SpecToken>),
> {
    match spec_expect(ts, TokenType::KWReturn) {
        Err(e) => Err(e),
        Ok(ts1) => match spec_parse_expression(ts1) {
            Err(e) => Err(e),
            Ok((v, ts2)) => match spec_expect(ts2, TokenType::Semicolon) {
                Err(e) => Err(e),
                Ok(ts3) => Ok((v, ts3)),
            },
        },
    }
}

/// A function is `int`, an identifier, `(`, `void`, `)`, `{`, a statement,
/// `}`; it yields the function's name, the returned value, and the
/// remainder.
pub open spec fn spec_parse_function(ts: Seq<SpecToken>) -> Result<
    (Seq<char>, i32, Seq<SpecToken>),
    (SpecParseError, Seq<SpecToken>),
> {
    match spec_expect(ts, TokenType::KWInt) {
        Err(e) => Err(e),
        Ok(ts1) => match spec_parse_identifier(ts1) {
            Err(e) => Err(e),
            Ok((name, ts2)) => match spec_expect(ts2, TokenType::OpenParen) {
                Err(e) => Err(e),
                Ok(ts3) => match spec_expect(ts3, TokenType::KWVoid) {
                    Err(e) => Err(e),
                    Ok(ts4) => match spec_expect(ts4, TokenType::CloseParen) {
                        Err(e) => Err(e),
                        Ok(ts5) => match spec_expect(ts5, TokenType::OpenBrace) {
                            Err(e) => Err(e),
                            Ok(ts6) => match spec_parse_statement(ts6) {
                                Err(e) => Err(e),
                                Ok((v, ts7)) => match spec_expect(ts7, TokenType::CloseBrace) {
                                    Err(e) => Err(e),
                                    Ok(ts8) => Ok((name, v, ts8)),
                                },
                            },
                        },
                    },
                },
            },
        },
    }
}

/// A program is one function followed by the end of the token sequence; a
/// remaining token is a trailing-input error carrying its text.
pub open spec fn spec_parse_program(ts: Seq<SpecToken>) -> Result<
    (Seq<char>, i32),
    (SpecParseError, Seq<SpecToken>),
> {
    match spec_parse_function(ts) {
        Err(e) => Err(e),
        Ok((name, v, rest)) => if rest.len() > 0 {
            Err((SpecParseError::TrailingInput { value: rest[0].value }, rest.drop_first()))
        } else {
            Ok((name, v))
        },
    }
}

// ---------------------------------------------------------------------------
// The cursor
// ---------------------------------------------------------------------------
/// A forward-only cursor over an owned token sequence. The parser drains it
/// token by token and never re-reads a consumed token.
pub struct TokenStream {
    tokens: Vec<Token>,
    pos: usize,
}

impl TokenStream {
    /// The cursor never points past the end of the sequence.
    pub closed spec fn wf(self) -> bool {
        self.pos <= self.tokens@.len()
    }

    /// The tokens not yet consumed, in order.
    pub closed spec fn remaining(self) -> Seq<SpecToken> {
        tokens_view(self.tokens@).skip(self.pos as int)
    }

    /// A cursor at the start of `tokens`.
    pub fn new(tokens: Vec<Token>) -> (s: TokenStream)
        ensures
            s.wf(),
            s.remaining() == tokens_view(tokens@),
    {
        let s = TokenStream { tokens, pos: 0 };
        proof {
            assert(s.remaining() =~= tokens_view(s.tokens@));
        }
        s
    }

    /// Consume and return the next token; `None` once the sequence is
    /// exhausted.
    pub fn next(&mut self) -> (r: Option<Token>)
        requires
            old(self).wf(),
        ensures
            final(self).wf(),
            match r {
                Some(t) => {
                    &&& old(self).remaining().len() > 0
                    &&& t@ == old(self).remaining()[0]
                    &&& final(self).remaining() == old(self).remaining().drop_first()
                },
                None => {
                    &&& old(self).remaining().len() == 0
                    &&& final(self).remaining() == old(self).remaining()
                },
            },
    {
        if self.pos < self.tokens.len() {
            let t = self.tokens[self.pos].clone();
            self.pos = self.pos + 1;
            proof {
                assert(old(self).remaining()[0] == tokens_view(old(self).tokens@)[old(
                    self,
                ).pos as int]);
                assert(self.remaining() =~= old(self).remaining().drop_first());
            }
            Some(t)
        } else {
            None
        }
    }
}

// ---------------------------------------------------------------------------
// The parser
// ---------------------------------------------------------------------------
/// Consume one token and check that it matches what the grammar expects.
/// This is the sole point of error generation for structural mismatches.
pub fn expect(ttype: TokenType, tokens: &mut TokenStream) -> (r: Result<(), ParseError>)
    requires
        old(tokens).wf(),
    ensures
        final(tokens).wf(),
        match r {
            Ok(()) => spec_expect(old(tokens).remaining(), ttype) == Ok::<_, (SpecParseError, Seq<SpecToken>)>(
                final(tokens).remaining(),
            ),
            Err(e) => spec_expect(old(tokens).remaining(), ttype) == Err::<Seq<SpecToken>, _>(
                (e@, final(tokens).remaining()),
            ),
        },
{
    match tokens.next() {
        Some(token) => {
            if token.ttype == ttype {
                Ok(())
            } else {
                Err(ParseError::Mismatch { expected: ttype, got: token.ttype })
            }
        },
        None => Err(ParseError::Mismatch { expected: ttype, got: TokenType::Empty }),
    }
}

/// An identifier is a leaf carrying the token's text.
pub fn parse_identifier(tokens: &mut TokenStream) -> (r: Result<Node, ParseError>)
    requires
        old(tokens).wf(),
    ensures
        final(tokens).wf(),
        match r {
            Ok(n) => spec_parse_identifier(old(tokens).remaining()) matches Ok((name, rest))
                && is_identifier_node(n, name) && final(tokens).remaining() == rest,
            Err(e) => spec_parse_identifier(old(tokens).remaining()) == Err::<
                (Seq<char>, Seq<SpecToken>),
                _,
            >((e@, final(tokens).remaining())),
        },
{
    match tokens.next() {
        Some(t) => {
            if t.ttype != TokenType::Identifier {
                return Err(ParseError::Mismatch { expected: TokenType::Identifier, got: t.ttype });
            }
            Ok(Node { ntype: NodeType::Identifier(t.value), children: Vec::new() })
        },
        None => Err(
            ParseError::Mismatch { expected: TokenType::Identifier, got: TokenType::Empty },
        ),
    }
}

/// A constant is a leaf carrying the token's lexeme read as a signed 32-bit
/// integer.
pub fn parse_constant(tokens: &mut TokenStream) -> (r: Result<Node, ParseError>)
    requires
        old(tokens).wf(),
    ensures
        final(tokens).wf(),
        match r {
            Ok(n) => spec_parse_constant(old(tokens).remaining()) matches Ok((v, rest))
                && is_constant_node(n, v) && final(tokens).remaining() == rest,
            Err(e) => spec_parse_constant(old(tokens).remaining()) == Err::<
                (i32, Seq<SpecToken>),
                _,
            >((e@, final(tokens).remaining())),
        },
{
    match tokens.next() {
        Some(t) => {
            if t.ttype != TokenType::Constant {
                return Err(ParseError::Mismatch { expected: TokenType::Constant, got: t.ttype });
            }
            match parse_i32_digits(t.value.as_str()) {
                Some(v) => Ok(Node { ntype: NodeType::Constant(v), children: Vec::new() }),
                None => Err(ParseError::InvalidConstant { value: t.value }),
            }
        },
        None => Err(ParseError::Mismatch { expected: TokenType::Constant, got: TokenType::Empty }),
    }
}

/// An expression is currently only a constant.
pub fn parse_expression(tokens: &mut TokenStream) -> (r: Result<Node, ParseError>)
    requires
        old(tokens).wf(),
    ensures
        final(tokens).wf(),
        match r {
            Ok(n) => spec_parse_expression(old(tokens).remaining()) matches Ok((v, rest))
                && is_expression_node(n, v) && final(tokens).remaining() == rest,
            Err(e) => spec_parse_expression(old(tokens).remaining()) == Err::<
                (i32, Seq<SpecToken>),
                _,
            >((e@, final(tokens).remaining())),
        },
{
    let constant = match parse_constant(tokens) {
        Ok(c) => c,
        Err(e) => return Err(e),
    };
    let mut children: Vec<Node> = Vec::new();
    children.push(constant);
    Ok(Node { ntype: NodeType::Expression, children })
}

/// A statement is `return`, an expression, `;`.
pub fn parse_statement(tokens: &mut TokenStream) -> (r: Result<Node, ParseError>)
    requires
        old(tokens).wf(),
    ensures
        final(tokens).wf(),
        match r {
            Ok(n) => spec_parse_statement(old(tokens).remaining()) matches Ok((v, rest))
                && is_statement_node(n, v) && final(tokens).remaining() == rest,
            Err(e) => spec_parse_statement(old(tokens).remaining()) == Err::<
                (i32, Seq<SpecToken>),
                _,
            >((e@, final(tokens).remaining())),
        },
{
    match expect(TokenType::KWReturn, tokens) {
        Ok(()) => (),
        Err(e) => return Err(e),
    }
    let exp = match parse_expression(tokens) {
        Ok(n) => n,
        Err(e) => return Err(e),
    };
    match expect(TokenType::Semicolon, tokens) {
        Ok(()) => (),
        Err(e) => return Err(e),
    }
    let mut children: Vec<Node> = Vec::new();
    children.push(exp);
    Ok(Node { ntype: NodeType::Statement, children })
}

/// A function is `int`, an identifier, `(`, `void`, `)`, `{`, a statement,
/// `}`.
pub fn parse_function(tokens: &mut TokenStream) -> (r: Result<Node, ParseError>)
    requires
        old(tokens).wf(),
    ensures
        final(tokens).wf(),
        match r {
            Ok(n) => spec_parse_function(old(tokens).remaining()) matches Ok((name, v, rest))
                && is_function_node(n, name, v) && final(tokens).remaining() == rest,
            Err(e) => spec_parse_function(old(tokens).remaining()) == Err::<
                (Seq<char>, i32, Seq<SpecToken>),
                _,
            >((e@, final(tokens).remaining())),
        },
{
    match expect(TokenType::KWInt, tokens) {
        Ok(()) => (),
        Err(e) => return Err(e),
    }
    let name = match parse_identifier(tokens) {
        Ok(n) => n,
        Err(e) => return Err(e),
    };
    match expect(TokenType::OpenParen, tokens) {
        Ok(()) => (),
        Err(e) => return Err(e),
    }
    match expect(TokenType::KWVoid, tokens) {
        Ok(()) => (),
        Err(e) => return Err(e),
    }
    match expect(TokenType::CloseParen, tokens) {
        Ok(()) => (),
        Err(e) => return Err(e),
    }
    match expect(TokenType::OpenBrace, tokens) {
        Ok(()) => (),
        Err(e) => return Err(e),
    }
    let statement = match parse_statement(tokens) {
        Ok(n) => n,
        Err(e) => return Err(e),
    };
    match expect(TokenType::CloseBrace, tokens) {
        Ok(()) => (),
        Err(e) => return Err(e),
    }
    let mut children: Vec<Node> = Vec::new();
    children.push(name);
    children.push(statement);
    Ok(Node { ntype: NodeType::Function, children })
}

/// A program is one function followed by the end of the token sequence.
pub fn parse_program(tokens: &mut TokenStream) -> (r: Result<Node, ParseError>)
    requires
        old(tokens).wf(),
    ensures
        final(tokens).wf(),
        match r {
            Ok(n) => {
                &&& spec_parse_program(old(tokens).remaining()) matches Ok((name, value))
                    && is_program_node(n, name, value)
                &&& final(tokens).remaining().len() == 0
            },
            Err(e) => spec_parse_program(old(tokens).remaining()) == Err::<(Seq<char>, i32), _>(
                (e@, final(tokens).remaining()),
            ),
        },
{
    let func = match parse_function(tokens) {
        Ok(f) => f,
        Err(e) => return Err(e),
    };
    match tokens.next() {
        Some(token) => Err(ParseError::TrailingInput { value: token.value }),
        None => {
            let mut children: Vec<Node> = Vec::new();
            children.push(func);
            Ok(Node { ntype: NodeType::Program, children })
        },
    }
}

} // verus!
