//! The executable tokenizer: longest-match scanning of a source buffer into
//! a token sequence, verified against the lexical grammar in [`crate::lex`].

use crate::lex::{
    classify_word, digit_run_end, find_block_close, find_newline, is_digit_char, is_ident_start,
    is_space, is_word_char, lemma_next_token_at_bounds, next_token_at, skip_spaces, spec_lex,
    spec_lex_rng, trim_end_idx, word_run_end, SpecLexOutcome,
};
use crate::token::{tokens_view, SpecToken, Token, TokenType};
use vstd::prelude::*;

verus! {

/// Failure of tokenization: no lexical pattern matched. `remaining` holds
/// the text from the unrecognized position to the end of the (trimmed)
/// buffer, identifying the span that could not be tokenized.
#[derive(Debug, PartialEq, Eq)]
pub struct LexError {
    pub remaining: String,
}

/// Whether `c` is whitespace.
fn space_char(c: char) -> (b: bool)
    ensures
        b == is_space(c),
{
    c == ' ' || c == '\t' || c == '\n' || c == '\r' || c == '\u{b}' || c == '\u{c}'
}

/// Whether `c` can open an identifier.
fn ident_start_char(c: char) -> (b: bool)
    ensures
        b == is_ident_start(c),
{
    ('a' as u32 <= c as u32 && c as u32 <= 'z' as u32) || ('A' as u32 <= c as u32 && c as u32
        <= 'Z' as u32) || c == '_'
}

/// Whether `c` is a decimal digit.
pub(crate) fn digit_char(c: char) -> (b: bool)
    ensures
        b == is_digit_char(c),
{
    '0' as u32 <= c as u32 && c as u32 <= '9' as u32
}

/// Whether `c` is a word character.
fn word_char(c: char) -> (b: bool)
    ensures
        b == is_word_char(c),
{
    ident_start_char(c) || digit_char(c)
}

/// First non-whitespace position in `[lo, hi)` of `s`, or `hi`.
fn exec_skip_spaces(s: &str, lo: usize, hi: usize) -> (r: usize)
    requires
        lo <= hi <= s@.len(),
    ensures
        r as int == skip_spaces(s@, lo as int, hi as int),
        lo <= r <= hi,
{
    let mut i = lo;
    while i < hi && space_char(s.get_char(i))
        invariant
            lo <= i <= hi <= s@.len(),
            skip_spaces(s@, lo as int, hi as int) == skip_spaces(s@, i as int, hi as int),
        decreases hi - i,
    {
        i = i + 1;
    }
    i
}

/// End of the maximal word run starting at `lo` in `[lo, hi)` of `s`.
fn exec_word_run_end(s: &str, lo: usize, hi: usize) -> (r: usize)
    requires
        lo <= hi <= s@.len(),
    ensures
        r as int == word_run_end(s@, lo as int, hi as int),
        lo <= r <= hi,
{
    let mut i = lo;
    while i < hi && word_char(s.get_char(i))
        invariant
            lo <= i <= hi <= s@.len(),
            word_run_end(s@, lo as int, hi as int) == word_run_end(s@, i as int, hi as int),
        decreases hi - i,
    {
        i = i + 1;
    }
    i
}

/// End of the maximal digit run starting at `lo` in `[lo, hi)` of `s`.
fn exec_digit_run_end(s: &str, lo: usize, hi: usize) -> (r: usize)
    requires
        lo <= hi <= s@.len(),
    ensures
        r as int == digit_run_end(s@, lo as int, hi as int),
        lo <= r <= hi,
{
    let mut i = lo;
    while i < hi && digit_char(s.get_char(i))
        invariant
            lo <= i <= hi <= s@.len(),
            digit_run_end(s@, lo as int, hi as int) == digit_run_end(s@, i as int, hi as int),
        decreases hi - i,
    {
        i = i + 1;
    }
    i
}

/// Position of the first newline in `[lo, hi)` of `s`, or `hi`.
fn exec_find_newline(s: &str, lo: usize, hi: usize) -> (r: usize)
    requires
        lo <= hi <= s@.len(),
    ensures
        r as int == find_newline(s@, lo as int, hi as int),
        lo <= r <= hi,
{
    let mut i = lo;
    while i < hi && s.get_char(i) != '\n'
        invariant
            lo <= i <= hi <= s@.len(),
            find_newline(s@, lo as int, hi as int) == find_newline(s@, i as int, hi as int),
        decreases hi - i,
    {
        i = i + 1;
    }
    i
}

/// Position of the first `*/` within `[lo, hi)` of `s`, or `hi`.
fn exec_find_block_close(s: &str, lo: usize, hi: usize) -> (r: usize)
    requires
        lo <= hi <= s@.len(),
    ensures
        r as int == find_block_close(s@, lo as int, hi as int),
        lo <= r <= hi,
        r < hi ==> r + 2 <= hi,
{
    let mut i = lo;
    loop
        invariant
            lo <= i <= hi <= s@.len(),
            find_block_close(s@, lo as int, hi as int) == find_block_close(
                s@,
                i as int,
                hi as int,
            ),
        decreases hi - i,
    {
        if hi - i < 2 {
            return hi;
        }
        if s.get_char(i) == '*' && s.get_char(i + 1) == '/' {
            return i;
        }
        i = i + 1;
    }
}

/// New upper end of `[lo, hi)` once trailing whitespace is stripped.
fn exec_trim_end(s: &str, lo: usize, hi: usize) -> (r: usize)
    requires
        lo <= hi <= s@.len(),
    ensures
        r as int == trim_end_idx(s@, lo as int, hi as int),
        lo <= r <= hi,
{
    let mut h = hi;
    while lo < h && space_char(s.get_char(h - 1))
        invariant
            lo <= h <= hi <= s@.len(),
            trim_end_idx(s@, lo as int, hi as int) == trim_end_idx(s@, lo as int, h as int),
        decreases h,
    {
        h = h - 1;
    }
    h
}

/// Re-test a matched word run against the keywords, in the priority order
/// `return`, `void`, `int`; an anchored keyword pattern matches the maximal
/// run exactly when the run equals the keyword.
fn exec_classify(s: &str, lo: usize, e: usize) -> (t: TokenType)
    requires
        lo <= e <= s@.len(),
    ensures
        t == classify_word(s@.subrange(lo as int, e as int)),
{
    let len = e - lo;
    if len == 6 && s.get_char(lo) == 'r' && s.get_char(lo + 1) == 'e' && s.get_char(lo + 2) == 't'
        && s.get_char(lo + 3) == 'u' && s.get_char(lo + 4) == 'r' && s.get_char(lo + 5) == 'n' {
        proof {
            assert(s@.subrange(lo as int, e as int) =~= crate::lex::kw_return());
        }
        TokenType::KWReturn
    } else if len == 4 && s.get_char(lo) == 'v' && s.get_char(lo + 1) == 'o' && s.get_char(lo + 2)
        == 'i' && s.get_char(lo + 3) == 'd' {
        proof {
            assert(s@.subrange(lo as int, e as int) =~= crate::lex::kw_void());
            assert(crate::lex::kw_return().len() == 6);
        }
        TokenType::KWVoid
    } else if len == 3 && s.get_char(lo) == 'i' && s.get_char(lo + 1) == 'n' && s.get_char(lo + 2)
        == 't' {
        proof {
            assert(s@.subrange(lo as int, e as int) =~= crate::lex::kw_int());
            assert(crate::lex::kw_return().len() == 6);
            assert(crate::lex::kw_void().len() == 4);
        }
        TokenType::KWInt
    } else {
        proof {
            let w = s@.subrange(lo as int, e as int);
            assert(w.len() == e - lo);
            assert(forall|k: int| 0 <= k < w.len() ==> w[k] == s@[lo + k]);
            assert(w != crate::lex::kw_return()) by {
                if w == crate::lex::kw_return() {
                    assert(w.len() == 6);
                    assert(w[0] == 'r' && w[1] == 'e' && w[2] == 't' && w[3] == 'u' && w[4] == 'r'
                        && w[5] == 'n');
                }
            }
            assert(w != crate::lex::kw_void()) by {
                if w == crate::lex::kw_void() {
                    assert(w.len() == 4);
                    assert(w[0] == 'v' && w[1] == 'o' && w[2] == 'i' && w[3] == 'd');
                }
            }
            assert(w != crate::lex::kw_int()) by {
                if w == crate::lex::kw_int() {
                    assert(w.len() == 3);
                    assert(w[0] == 'i' && w[1] == 'n' && w[2] == 't');
                }
            }
        }
        TokenType::Identifier
    }
}

/// The longest-match token at position `lo` of `[lo, hi)` of `s`, with the
/// number of characters it consumes, or `None` when no pattern matches.
fn exec_next_token(s: &str, lo: usize, hi: usize) -> (r: Option<(Token, usize)>)
    requires
        lo < hi <= s@.len(),
    ensures
        match r {
            Some((t, len)) => {
                &&& next_token_at(s@, lo as int, hi as int) == Some((t@, len as int))
                &&& 1 <= len
                &&& lo + len <= hi
            },
            None => next_token_at(s@, lo as int, hi as int) is None,
        },
{
    proof {
        lemma_next_token_at_bounds(s@, lo as int, hi as int);
    }
    let c = s.get_char(lo);
    if ident_start_char(c) {
        let e = exec_word_run_end(s, lo, hi);
        let ttype = exec_classify(s, lo, e);
        let value = s.substring_char(lo, e).to_owned();
        Some((Token { ttype, value }, e - lo))
    } else if digit_char(c) {
        let e = exec_digit_run_end(s, lo, hi);
        if e == hi || !word_char(s.get_char(e)) {
            let value = s.substring_char(lo, e).to_owned();
            Some((Token { ttype: TokenType::Constant, value }, e - lo))
        } else {
            None
        }
    } else if c == '(' {
        let value = s.substring_char(lo, lo + 1).to_owned();
        Some((Token { ttype: TokenType::OpenParen, value }, 1))
    } else if c == ')' {
        let value = s.substring_char(lo, lo + 1).to_owned();
        Some((Token { ttype: TokenType::CloseParen, value }, 1))
    } else if c == '{' {
        let value = s.substring_char(lo, lo + 1).to_owned();
        Some((Token { ttype: TokenType::OpenBrace, value }, 1))
    } else if c == '}' {
        let value = s.substring_char(lo, lo + 1).to_owned();
        Some((Token { ttype: TokenType::CloseBrace, value }, 1))
    } else if c == ';' {
        let value = s.substring_char(lo, lo + 1).to_owned();
        Some((Token { ttype: TokenType::Semicolon, value }, 1))
    } else if c == '/' {
        if lo + 1 < hi && s.get_char(lo + 1) == '/' {
            let nl = exec_find_newline(s, lo + 2, hi);
            if nl < hi {
                let value = s.substring_char(lo, nl + 1).to_owned();
                Some((Token { ttype: TokenType::Comment, value }, nl + 1 - lo))
            } else {
                None
            }
        } else if lo + 1 < hi && s.get_char(lo + 1) == '*' {
            let p = exec_find_block_close(s, lo + 2, hi);
            let nl = exec_find_newline(s, lo + 2, hi);
            if p < hi && nl >= p {
                let value = s.substring_char(lo, p + 2).to_owned();
                Some((Token { ttype: TokenType::Comment, value }, p + 2 - lo))
            } else {
                None
            }
        } else {
            None
        }
    } else {
        None
    }
}

/// The tokenizer. Its table of lexical patterns is fixed: it is the grammar
/// in [`crate::lex`], against which scanning is verified.
pub struct Tokenizer {}

impl Tokenizer {
    /// Build a tokenizer.
    pub fn new() -> (t: Tokenizer) {
        Tokenizer {  }
    }

    /// Turn the source buffer into a token sequence, or fail on the first
    /// position where no lexical pattern matches.
    ///
    /// The buffer is consumed as it is scanned: on success it is left empty;
    /// on failure it is left holding exactly the text that could not be
    /// tokenized, which the error carries as well.
    pub fn tokenize(&self, contents: &mut String) -> (r: Result<Vec<Token>, LexError>)
        ensures
            match r {
                Ok(toks) => {
                    &&& spec_lex(old(contents)@) == SpecLexOutcome::Accepted(tokens_view(toks@))
                    &&& final(contents)@ == Seq::<char>::empty()
                },
                Err(e) => {
                    &&& spec_lex(old(contents)@) matches SpecLexOutcome::Rejected { start, end }
                        && e.remaining@ == old(contents)@.subrange(start, end)
                    &&& final(contents)@ == e.remaining@
                },
            },
    {
        let src: String = contents.clone();
        let ghost s: Seq<char> = src@;
        let n: usize = src.as_str().unicode_len();
        let mut toks: Vec<Token> = Vec::new();
        let mut lo: usize = 0;
        let mut hi: usize = n;
        loop
            invariant
                lo <= hi <= n,
                n == s.len(),
                src@ == s,
                s == old(contents)@,
                match spec_lex_rng(s, lo as int, hi as int) {
                    SpecLexOutcome::Accepted(rest) => spec_lex(s) == SpecLexOutcome::Accepted(
                        tokens_view(toks@) + rest,
                    ),
                    SpecLexOutcome::Rejected { start, end } => spec_lex(s)
                        == SpecLexOutcome::Rejected { start, end },
                },
            decreases hi - lo,
        {
            if lo >= hi {
                proof {
                    assert(spec_lex_rng(s, lo as int, hi as int) == SpecLexOutcome::Accepted(
                        Seq::<SpecToken>::empty(),
                    ));
                    assert(tokens_view(toks@) + Seq::<SpecToken>::empty() =~= tokens_view(toks@));
                }
                *contents = String::new();
                return Ok(toks);
            }
            let start = exec_skip_spaces(src.as_str(), lo, hi);
            if start >= hi {
                proof {
                    assert(spec_lex_rng(s, lo as int, hi as int) == SpecLexOutcome::Rejected {
                        start: start as int,
                        end: hi as int,
                    });
                    assert(s.subrange(start as int, hi as int) =~= Seq::<char>::empty());
                }
                *contents = String::new();
                return Err(LexError { remaining: String::new() });
            }
            match exec_next_token(src.as_str(), start, hi) {
                None => {
                    proof {
                        assert(spec_lex_rng(s, lo as int, hi as int) == SpecLexOutcome::Rejected {
                            start: start as int,
                            end: hi as int,
                        });
                    }
                    let remaining = src.as_str().substring_char(start, hi).to_owned();
                    *contents = src.as_str().substring_char(start, hi).to_owned();
                    return Err(LexError { remaining });
                },
                Some((t, len)) => {
                    let ghost prev_toks = toks@;
                    let ghost tok = t@;
                    toks.push(t);
                    let rest_lo = start + len;
                    let new_hi = exec_trim_end(src.as_str(), rest_lo, hi);
                    proof {
                        assert(tokens_view(toks@) =~= tokens_view(prev_toks) + seq![tok]);
                        match spec_lex_rng(s, rest_lo as int, new_hi as int) {
                            SpecLexOutcome::Accepted(rest) => {
                                assert(spec_lex_rng(s, lo as int, hi as int)
                                    == SpecLexOutcome::Accepted(seq![tok] + rest));
                                assert((tokens_view(prev_toks) + seq![tok]) + rest
                                    =~= tokens_view(prev_toks) + (seq![tok] + rest));
                            },
                            SpecLexOutcome::Rejected { start: a, end: b } => {
                                assert(spec_lex_rng(s, lo as int, hi as int)
                                    == SpecLexOutcome::Rejected { start: a, end: b });
                            },
                        }
                    }
                    lo = rest_lo;
                    hi = new_hi;
                },
            }
        }
    }
}

/// Drop every comment token, keeping the rest in order.
pub open spec fn spec_strip_comments(ts: Seq<SpecToken>) -> Seq<SpecToken>
    decreases ts.len(),
{
    if ts.len() == 0 {
        Seq::empty()
    } else if ts[0].ttype is Comment {
        spec_strip_comments(ts.drop_first())
    } else {
        seq![ts[0]] + spec_strip_comments(ts.drop_first())
    }
}

/// The pre-parse filter: comments are recognized as tokens but carry no
/// grammatical content, so they are stripped before the token sequence is
/// handed to the parser.
pub fn strip_comments(tokens: Vec<Token>) -> (r: Vec<Token>)
    ensures
        tokens_view(r@) == spec_strip_comments(tokens_view(tokens@)),
{
    let mut out: Vec<Token> = Vec::new();
    let mut i: usize = 0;
    proof {
        assert(tokens_view(tokens@).skip(0) =~= tokens_view(tokens@));
        assert(tokens_view(out@) =~= Seq::<SpecToken>::empty());
        assert(Seq::<SpecToken>::empty() + spec_strip_comments(tokens_view(tokens@))
            =~= spec_strip_comments(tokens_view(tokens@)));
    }
    while i < tokens.len()
        invariant
            i <= tokens.len(),
            spec_strip_comments(tokens_view(tokens@)) == tokens_view(out@) + spec_strip_comments(
                tokens_view(tokens@).skip(i as int),
            ),
        decreases tokens.len() - i,
    {
        let ghost prev_out = out@;
        let ghost rest = tokens_view(tokens@).skip(i as int);
        proof {
            assert(rest[0] == tokens@[i as int]@);
            assert(rest.drop_first() =~= tokens_view(tokens@).skip(i as int + 1));
        }
        if tokens[i].ttype == TokenType::Comment {
        } else {
            out.push(tokens[i].clone());
            proof {
                assert(tokens_view(out@) =~= tokens_view(prev_out) + seq![tokens@[i as int]@]);
                assert((tokens_view(prev_out) + seq![rest[0]]) + spec_strip_comments(
                    rest.drop_first(),
                ) =~= tokens_view(prev_out) + (seq![rest[0]] + spec_strip_comments(
                    rest.drop_first(),
                )));
            }
        }
        i = i + 1;
    }
    proof {
        assert(tokens_view(tokens@).skip(i as int) =~= Seq::<SpecToken>::empty());
        assert(tokens_view(out@) + Seq::<SpecToken>::empty() =~= tokens_view(out@));
    }
    out
}

} // verus!
