//! The lexical grammar, stated mathematically over sequences of characters.
//!
//! Scanning works on a range `[lo, hi)` of a fixed character sequence:
//! stripping leading whitespace advances `lo`, stripping trailing whitespace
//! after each produced token lowers `hi`. A token is matched at the current
//! position by the longest-match rule; the registered patterns start with
//! pairwise disjoint character classes (identifier or keyword, constant,
//! a punctuation character, comment), so at most one category can match at
//! any position, and the longest match within a category is the maximal run
//! the pattern allows.

use crate::token::{SpecToken, TokenType};
use vstd::prelude::*;

verus! {

/// Whitespace stripped between tokens: the ASCII whitespace characters.
pub open spec fn is_space(c: char) -> bool {
    c == ' ' || c == '\t' || c == '\n' || c == '\r' || c == '\u{b}' || c == '\u{c}'
}

/// A character that can open an identifier: a letter or an underscore.
pub open spec fn is_ident_start(c: char) -> bool {
    ('a' as u32 <= c as u32 && c as u32 <= 'z' as u32) || ('A' as u32 <= c as u32 && c as u32
        <= 'Z' as u32) || c == '_'
}

/// A decimal digit.
pub open spec fn is_digit_char(c: char) -> bool {
    '0' as u32 <= c as u32 && c as u32 <= '9' as u32
}

/// A word character: what may continue an identifier, and what a word
/// boundary separates a constant from.
pub open spec fn is_word_char(c: char) -> bool {
    is_ident_start(c) || is_digit_char(c)
}

/// First index in `[i, hi)` holding a non-whitespace character, or `hi`.
pub open spec fn skip_spaces(s: Seq<char>, i: int, hi: int) -> int
    decreases hi - i,
{
    if i < hi && is_space(s[i]) {
        skip_spaces(s, i + 1, hi)
    } else {
        i
    }
}

/// End of the maximal run of word characters starting at `i` within `[i, hi)`.
pub open spec fn word_run_end(s: Seq<char>, i: int, hi: int) -> int
    decreases hi - i,
{
    if i < hi && is_word_char(s[i]) {
        word_run_end(s, i + 1, hi)
    } else {
        i
    }
}

/// End of the maximal run of decimal digits starting at `i` within `[i, hi)`.
pub open spec fn digit_run_end(s: Seq<char>, i: int, hi: int) -> int
    decreases hi - i,
{
    if i < hi && is_digit_char(s[i]) {
        digit_run_end(s, i + 1, hi)
    } else {
        i
    }
}

/// Index of the first newline in `[i, hi)`, or `hi` if there is none.
pub open spec fn find_newline(s: Seq<char>, i: int, hi: int) -> int
    decreases hi - i,
{
    if i < hi {
        if s[i] == '\n' {
            i
        } else {
            find_newline(s, i + 1, hi)
        }
    } else {
        hi
    }
}

/// Index of the first `*/` whose two characters lie in `[i, hi)`, or `hi`
/// if there is none.
pub open spec fn find_block_close(s: Seq<char>, i: int, hi: int) -> int
    decreases hi - i,
{
    if i + 2 <= hi {
        if s[i] == '*' && s[i + 1] == '/' {
            i
        } else {
            find_block_close(s, i + 1, hi)
        }
    } else {
        hi
    }
}

/// New upper end of `[lo, hi)` once trailing whitespace is stripped.
pub open spec fn trim_end_idx(s: Seq<char>, lo: int, hi: int) -> int
    decreases hi - lo,
{
    if lo < hi && is_space(s[hi - 1]) {
        trim_end_idx(s, lo, hi - 1)
    } else {
        hi
    }
}

/// The keyword `return`.
pub open spec fn kw_return() -> Seq<char> {
    seq!['r', 'e', 't', 'u', 'r', 'n']
}

/// The keyword `void`.
pub open spec fn kw_void() -> Seq<char> {
    seq!['v', 'o', 'i', 'd']
}

/// The keyword `int`.
pub open spec fn kw_int() -> Seq<char> {
    seq!['i', 'n', 't']
}

/// Whether `w` is one of the three keywords.
pub open spec fn is_keyword(w: Seq<char>) -> bool {
    w == kw_return() || w == kw_void() || w == kw_int()
}

/// Keyword-versus-identifier disambiguation. The identifier pattern covers
/// the keyword patterns, so a matched word is re-tested against each keyword
/// in the fixed priority order `return`, `void`, `int`. A keyword pattern,
/// anchored at the start of the word and ending on a word boundary, matches
/// a maximal word run exactly when the run equals the keyword.
pub open spec fn classify_word(w: Seq<char>) -> TokenType {
    if w == kw_return() {
        TokenType::KWReturn
    } else if w == kw_void() {
        TokenType::KWVoid
    } else if w == kw_int() {
        TokenType::KWInt
    } else {
        TokenType::Identifier
    }
}

/// The longest-match token at position `lo` of `[lo, hi)`, with the number of
/// characters it consumes; `None` when no pattern matches there.
///
/// - A letter or underscore opens the maximal word run; the run is an
///   identifier unless it equals a keyword.
/// - A digit opens the maximal digit run, a constant only when a word
///   boundary follows (so `123abc` never matches).
/// - `( ) { } ;` match as single punctuation tokens.
/// - `//` opens a line comment, consumed up to and including the newline
///   that ends it; `/*` opens a block comment, consumed up to and including
///   the first `*/`, with no newline allowed inside. An unterminated comment
///   matches nothing.
pub open spec fn next_token_at(s: Seq<char>, lo: int, hi: int) -> Option<(SpecToken, int)>
    recommends
        0 <= lo < hi <= s.len(),
{
    let c = s[lo];
    if is_ident_start(c) {
        let e = word_run_end(s, lo, hi);
        let w = s.subrange(lo, e);
        Some((SpecToken { ttype: classify_word(w), value: w }, e - lo))
    } else if is_digit_char(c) {
        let e = digit_run_end(s, lo, hi);
        if e == hi || !is_word_char(s[e]) {
            Some((SpecToken { ttype: TokenType::Constant, value: s.subrange(lo, e) }, e - lo))
        } else {
            None
        }
    } else if c == '(' {
        Some((SpecToken { ttype: TokenType::OpenParen, value: s.subrange(lo, lo + 1) }, 1))
    } else if c == ')' {
        Some((SpecToken { ttype: TokenType::CloseParen, value: s.subrange(lo, lo + 1) }, 1))
    } else if c == '{' {
        Some((SpecToken { ttype: TokenType::OpenBrace, value: s.subrange(lo, lo + 1) }, 1))
    } else if c == '}' {
        Some((SpecToken { ttype: TokenType::CloseBrace, value: s.subrange(lo, lo + 1) }, 1))
    } else if c == ';' {
        Some((SpecToken { ttype: TokenType::Semicolon, value: s.subrange(lo, lo + 1) }, 1))
    } else if c == '/' {
        if lo + 1 < hi && s[lo + 1] == '/' {
            let nl = find_newline(s, lo + 2, hi);
            if nl < hi {
                Some((SpecToken { ttype: TokenType::Comment, value: s.subrange(lo, nl + 1) },
                nl + 1 - lo))
            } else {
                None
            }
        } else if lo + 1 < hi && s[lo + 1] == '*' {
            let p = find_block_close(s, lo + 2, hi);
            if p < hi && find_newline(s, lo + 2, hi) >= p {
                Some((SpecToken { ttype: TokenType::Comment, value: s.subrange(lo, p + 2) },
                p + 2 - lo))
            } else {
                None
            }
        } else {
            None
        }
    } else {
        None
    }
}

/// What scanning a range yields: the token sequence, or rejection carrying
/// the range `[start, end)` that remained (leading whitespace already
/// stripped) when no pattern matched.
pub ghost enum SpecLexOutcome {
    Accepted(Seq<SpecToken>),
    Rejected { start: int, end: int },
}

/// Scan the range `[lo, hi)` of `s` to a token sequence.
///
/// While characters remain: strip leading whitespace; if nothing remains,
/// reject (a whitespace-only remainder matches no pattern); otherwise match
/// one token at the front, consume it, strip trailing whitespace from the
/// remainder, and continue.
pub open spec fn spec_lex_rng(s: Seq<char>, lo: int, hi: int) -> SpecLexOutcome
    recommends
        0 <= lo <= hi <= s.len(),
    decreases hi - lo,
{
    if lo >= hi {
        SpecLexOutcome::Accepted(Seq::empty())
    } else {
        let start = skip_spaces(s, lo, hi);
        if start >= hi {
            SpecLexOutcome::Rejected { start, end: hi }
        } else {
            match next_token_at(s, start, hi) {
                None => SpecLexOutcome::Rejected { start, end: hi },
                Some((tok, len)) => {
                    proof {
                        lemma_skip_spaces_bounds(s, lo, hi);
                        lemma_next_token_at_bounds(s, start, hi);
                        lemma_trim_end_idx_bounds(s, start + len, hi);
                    }
                    let rest_lo = start + len;
                    let rest_hi = trim_end_idx(s, rest_lo, hi);
                    match spec_lex_rng(s, rest_lo, rest_hi) {
                        SpecLexOutcome::Accepted(rest) => SpecLexOutcome::Accepted(
                            seq![tok] + rest,
                        ),
                        SpecLexOutcome::Rejected { start: a, end: b } => SpecLexOutcome::Rejected {
                            start: a,
                            end: b,
                        },
                    }
                },
            }
        }
    }
}

/// Tokenize a whole character sequence.
pub open spec fn spec_lex(s: Seq<char>) -> SpecLexOutcome {
    spec_lex_rng(s, 0, s.len() as int)
}

/// `skip_spaces` stays within `[i, hi]`.
pub proof fn lemma_skip_spaces_bounds(s: Seq<char>, i: int, hi: int)
    requires
        i <= hi,
    ensures
        i <= skip_spaces(s, i, hi) <= hi,
    decreases hi - i,
{
    if i < hi && is_space(s[i]) {
        lemma_skip_spaces_bounds(s, i + 1, hi);
    }
}

/// `word_run_end` stays within `[i, hi]`.
pub proof fn lemma_word_run_end_bounds(s: Seq<char>, i: int, hi: int)
    requires
        i <= hi,
    ensures
        i <= word_run_end(s, i, hi) <= hi,
    decreases hi - i,
{
    if i < hi && is_word_char(s[i]) {
        lemma_word_run_end_bounds(s, i + 1, hi);
    }
}

/// `digit_run_end` stays within `[i, hi]`.
pub proof fn lemma_digit_run_end_bounds(s: Seq<char>, i: int, hi: int)
    requires
        i <= hi,
    ensures
        i <= digit_run_end(s, i, hi) <= hi,
    decreases hi - i,
{
    if i < hi && is_digit_char(s[i]) {
        lemma_digit_run_end_bounds(s, i + 1, hi);
    }
}

/// `find_newline` stays within `[i, hi]`.
pub proof fn lemma_find_newline_bounds(s: Seq<char>, i: int, hi: int)
    requires
        i <= hi,
    ensures
        i <= find_newline(s, i, hi) <= hi,
    decreases hi - i,
{
    if i < hi && s[i] != '\n' {
        lemma_find_newline_bounds(s, i + 1, hi);
    }
}

/// `find_block_close` stays within `[i, hi]`, and a found position leaves
/// room for the two closing characters.
pub proof fn lemma_find_block_close_bounds(s: Seq<char>, i: int, hi: int)
    requires
        i <= hi,
    ensures
        i <= find_block_close(s, i, hi) <= hi,
        find_block_close(s, i, hi) < hi ==> find_block_close(s, i, hi) + 2 <= hi,
    decreases hi - i,
{
    if i + 2 <= hi && !(s[i] == '*' && s[i + 1] == '/') {
        lemma_find_block_close_bounds(s, i + 1, hi);
    }
}

/// `trim_end_idx` stays within `[lo, hi]`.
pub proof fn lemma_trim_end_idx_bounds(s: Seq<char>, lo: int, hi: int)
    requires
        lo <= hi,
    ensures
        lo <= trim_end_idx(s, lo, hi) <= hi,
    decreases hi - lo,
{
    if lo < hi && is_space(s[hi - 1]) {
        lemma_trim_end_idx_bounds(s, lo, hi - 1);
    }
}

/// A word run stops at the range's end or at the first non-word character.
pub proof fn lemma_word_run_end_stop(s: Seq<char>, i: int, hi: int)
    requires
        i <= hi,
    ensures
        word_run_end(s, i, hi) == hi || !is_word_char(s[word_run_end(s, i, hi)]),
    decreases hi - i,
{
    if i < hi && is_word_char(s[i]) {
        lemma_word_run_end_stop(s, i + 1, hi);
    }
}

/// A matched token consumes at least one character and never more than the
/// range holds.
pub proof fn lemma_next_token_at_bounds(s: Seq<char>, lo: int, hi: int)
    requires
        lo < hi,
    ensures
        next_token_at(s, lo, hi) matches Some((tok, len)) ==> 1 <= len && lo + len <= hi,
{
    let c = s[lo];
    if is_ident_start(c) {
        lemma_word_run_end_bounds(s, lo + 1, hi);
        assert(word_run_end(s, lo, hi) == word_run_end(s, lo + 1, hi));
    } else if is_digit_char(c) {
        lemma_digit_run_end_bounds(s, lo + 1, hi);
        assert(digit_run_end(s, lo, hi) == digit_run_end(s, lo + 1, hi));
    } else if c == '/' {
        if lo + 1 < hi && s[lo + 1] == '/' {
            lemma_find_newline_bounds(s, lo + 2, hi);
        } else if lo + 1 < hi && s[lo + 1] == '*' {
            lemma_find_block_close_bounds(s, lo + 2, hi);
        }
    }
}

// ---------------------------------------------------------------------------
// Laws of the lexical grammar
// ---------------------------------------------------------------------------
/// Tokenization is deterministic: the pattern table and the longest-match
/// rule are fixed, so scanning the same input can only ever yield one token
/// sequence; ties between the identifier pattern and a keyword pattern are
/// broken by the fixed priority order `return`, `void`, `int`.
pub proof fn lemma_tokenize_deterministic(s: Seq<char>, ts1: Seq<SpecToken>, ts2: Seq<SpecToken>)
    requires
        spec_lex(s) == SpecLexOutcome::Accepted(ts1),
        spec_lex(s) == SpecLexOutcome::Accepted(ts2),
    ensures
        ts1 == ts2,
{
}

/// A whitespace character is not a word character.
pub proof fn lemma_space_not_word(c: char)
    requires
        is_space(c),
    ensures
        !is_word_char(c),
{
}

/// A keyword occurrence immediately followed by a word character (a letter,
/// digit or underscore) never lexes as that keyword: the scan at the start
/// of the enclosing word run yields the whole run as a single identifier
/// token. E.g. a run `returning` is one identifier, never `return` followed
/// by something.
pub proof fn lemma_keyword_run_is_identifier(s: Seq<char>, lo: int, hi: int, q: int, k: Seq<char>)
    requires
        0 <= lo < hi <= s.len(),
        is_ident_start(s[lo]),
        is_keyword(k),
        lo <= q,
        q + k.len() <= word_run_end(s, lo, hi),
        k == s.subrange(q, q + k.len()),
        q + k.len() < hi && is_word_char(s[q + k.len()]),
    ensures
        next_token_at(s, lo, hi) == Some(
            (
                SpecToken {
                    ttype: TokenType::Identifier,
                    value: s.subrange(lo, word_run_end(s, lo, hi)),
                },
                word_run_end(s, lo, hi) - lo,
            ),
        ),
{
    let e = word_run_end(s, lo, hi);
    lemma_word_run_end_bounds(s, lo, hi);
    lemma_word_run_end_stop(s, lo, hi);
    assert(q + k.len() < e);
    let w = s.subrange(lo, e);
    let d = q - lo;
    assert(forall|j: int| 0 <= j < w.len() ==> w[j] == s[lo + j]);
    assert(forall|j: int| 0 <= j < k.len() ==> k[j] == s[q + j]);
    assert(forall|j: int| 0 <= j < k.len() ==> w[d + j] == k[j]);
    assert(0 <= d && d + k.len() < w.len());
    assert(w != kw_return()) by {
        if w == kw_return() {
            assert(w.len() == 6);
            assert(w[0] == 'r' && w[1] == 'e' && w[2] == 't' && w[3] == 'u' && w[4] == 'r' && w[5]
                == 'n');
            if k == kw_return() {
                assert(d + 6 < 6);
            } else if k == kw_void() {
                assert(w[d] == 'v');
                assert(d == 0 || d == 1);
            } else {
                assert(w[d] == 'i');
                assert(d == 0 || d == 1 || d == 2);
            }
        }
    }
    assert(w != kw_void()) by {
        if w == kw_void() {
            assert(w.len() == 4);
            assert(w[0] == 'v' && w[1] == 'o' && w[2] == 'i' && w[3] == 'd');
            if k == kw_return() {
                assert(d + 6 < 4);
            } else if k == kw_void() {
                assert(d + 4 < 4);
            } else {
                assert(w[d] == 'i');
                assert(d == 0);
            }
        }
    }
    assert(w != kw_int()) by {
        if w == kw_int() {
            assert(w.len() == 3);
            if k == kw_return() {
                assert(d + 6 < 3);
            } else if k == kw_void() {
                assert(d + 4 < 3);
            } else {
                assert(d + 3 < 3);
            }
        }
    }
    assert(classify_word(w) == TokenType::Identifier);
}

/// Leading whitespace never affects scanning: as long as a character
/// remains after it, a whitespace character at the front of the range is
/// simply stripped. (A range holding only whitespace is rejected, which is
/// why one character must remain.)
pub proof fn lemma_leading_space_ignored(s: Seq<char>, lo: int, hi: int)
    requires
        0 <= lo,
        lo + 1 < hi <= s.len(),
        is_space(s[lo]),
    ensures
        spec_lex_rng(s, lo, hi) == spec_lex_rng(s, lo + 1, hi),
{
    assert(skip_spaces(s, lo, hi) == skip_spaces(s, lo + 1, hi));
}

/// Dropping trailing whitespace shifts `skip_spaces` as follows: if the
/// shorter range is all whitespace, the longer one is too.
proof fn lemma_skip_spaces_drop_last(s: Seq<char>, i: int, hi: int)
    requires
        i <= hi - 1,
        is_space(s[hi - 1]),
    ensures
        skip_spaces(s, i, hi) == if skip_spaces(s, i, hi - 1) == hi - 1 {
            hi
        } else {
            skip_spaces(s, i, hi - 1)
        },
    decreases hi - i,
{
    reveal_with_fuel(skip_spaces, 3);
    if i < hi - 1 && is_space(s[i]) {
        lemma_skip_spaces_drop_last(s, i + 1, hi);
    }
}

/// A word run is unaffected by dropping a final non-word character.
proof fn lemma_word_run_end_drop_last(s: Seq<char>, i: int, hi: int)
    requires
        i <= hi - 1,
        !is_word_char(s[hi - 1]),
    ensures
        word_run_end(s, i, hi) == word_run_end(s, i, hi - 1),
    decreases hi - i,
{
    if i < hi - 1 && is_word_char(s[i]) {
        lemma_word_run_end_drop_last(s, i + 1, hi);
    }
}

/// A digit run is unaffected by dropping a final non-digit character.
proof fn lemma_digit_run_end_drop_last(s: Seq<char>, i: int, hi: int)
    requires
        i <= hi - 1,
        !is_digit_char(s[hi - 1]),
    ensures
        digit_run_end(s, i, hi) == digit_run_end(s, i, hi - 1),
    decreases hi - i,
{
    if i < hi - 1 && is_digit_char(s[i]) {
        lemma_digit_run_end_drop_last(s, i + 1, hi);
    }
}

/// Dropping a final non-newline character leaves the first newline in
/// place; only the not-found sentinel moves.
proof fn lemma_find_newline_drop_last(s: Seq<char>, i: int, hi: int)
    requires
        i <= hi - 1,
        s[hi - 1] != '\n',
    ensures
        find_newline(s, i, hi) == if find_newline(s, i, hi - 1) == hi - 1 {
            hi
        } else {
            find_newline(s, i, hi - 1)
        },
    decreases hi - i,
{
    reveal_with_fuel(find_newline, 3);
    if i < hi - 1 && s[i] != '\n' {
        lemma_find_newline_drop_last(s, i + 1, hi);
    }
}

/// Dropping a final character that is no slash leaves the first `*/` in
/// place; only the not-found sentinel moves.
proof fn lemma_find_block_close_drop_last(s: Seq<char>, i: int, hi: int)
    requires
        i <= hi - 1,
        s[hi - 1] != '/',
    ensures
        find_block_close(s, i, hi) == if find_block_close(s, i, hi - 1) == hi - 1 {
            hi
        } else {
            find_block_close(s, i, hi - 1)
        },
    decreases hi - i,
{
    reveal_with_fuel(find_block_close, 3);
    if i + 2 <= hi - 1 && !(s[i] == '*' && s[i + 1] == '/') {
        lemma_find_block_close_drop_last(s, i + 1, hi);
    }
}

/// The token matched at a position is unaffected by a trailing whitespace
/// character, provided that character is not the newline that a line
/// comment would need as its terminator.
proof fn lemma_next_token_drop_last(s: Seq<char>, lo: int, hi: int)
    requires
        0 <= lo,
        lo < hi - 1,
        hi <= s.len(),
        is_space(s[hi - 1]),
        s[hi - 1] != '\n',
    ensures
        next_token_at(s, lo, hi) == next_token_at(s, lo, hi - 1),
{
    lemma_space_not_word(s[hi - 1]);
    let c = s[lo];
    if is_ident_start(c) {
        lemma_word_run_end_drop_last(s, lo, hi);
    } else if is_digit_char(c) {
        lemma_digit_run_end_drop_last(s, lo, hi);
        lemma_digit_run_end_bounds(s, lo, hi - 1);
        let e = digit_run_end(s, lo, hi - 1);
        if e == hi - 1 {
            assert(!is_word_char(s[e]));
        }
    } else if c == '/' {
        if lo + 1 < hi && s[lo + 1] == '/' {
            if lo + 1 < hi - 1 {
                lemma_find_newline_drop_last(s, lo + 2, hi);
                lemma_find_newline_bounds(s, lo + 2, hi - 1);
            } else {
                assert(s[lo + 1] == s[hi - 1]);
            }
        } else if lo + 1 < hi && s[lo + 1] == '*' {
            if lo + 1 < hi - 1 {
                lemma_find_block_close_drop_last(s, lo + 2, hi);
                lemma_find_newline_drop_last(s, lo + 2, hi);
                lemma_find_block_close_bounds(s, lo + 2, hi - 1);
                lemma_find_newline_bounds(s, lo + 2, hi - 1);
            } else {
                assert(s[lo + 1] == s[hi - 1]);
            }
        }
    }
}

/// Trailing whitespace never affects the accepted token sequence: dropping
/// a final whitespace character other than a newline neither changes the
/// tokens nor turns acceptance into rejection or back. (A final newline is
/// excluded because a line comment at the very end of the range needs it as
/// its terminator; and one character must remain because a whitespace-only
/// range is rejected.)
pub proof fn lemma_trailing_space_ignored(s: Seq<char>, lo: int, hi: int)
    requires
        0 <= lo,
        lo < hi - 1,
        hi <= s.len(),
        is_space(s[hi - 1]),
        s[hi - 1] != '\n',
    ensures
        spec_lex_rng(s, lo, hi) is Accepted <==> spec_lex_rng(s, lo, hi - 1) is Accepted,
        spec_lex_rng(s, lo, hi) is Accepted ==> spec_lex_rng(s, lo, hi) == spec_lex_rng(
            s,
            lo,
            hi - 1,
        ),
{
    lemma_skip_spaces_drop_last(s, lo, hi);
    lemma_skip_spaces_bounds(s, lo, hi - 1);
    let start = skip_spaces(s, lo, hi - 1);
    if start == hi - 1 {
        assert(spec_lex_rng(s, lo, hi) is Rejected);
        assert(spec_lex_rng(s, lo, hi - 1) is Rejected);
    } else {
        assert(skip_spaces(s, lo, hi) == start);
        lemma_next_token_drop_last(s, start, hi);
        match next_token_at(s, start, hi - 1) {
            None => {
                assert(spec_lex_rng(s, lo, hi) is Rejected);
                assert(spec_lex_rng(s, lo, hi - 1) is Rejected);
            },
            Some((tok, len)) => {
                lemma_next_token_at_bounds(s, start, hi - 1);
                let rest_lo = start + len;
                assert(trim_end_idx(s, rest_lo, hi) == trim_end_idx(s, rest_lo, hi - 1));
                assert(spec_lex_rng(s, lo, hi) == spec_lex_rng(s, lo, hi - 1));
            },
        }
    }
}

/// `skip_spaces` reads only the characters of its range: it commutes with
/// shifting the range into another sequence with the same contents.
proof fn lemma_skip_spaces_shift(s1: Seq<char>, s2: Seq<char>, i: int, hi: int, d: int)
    requires
        forall|j: int| i <= j < hi ==> s2[j + d] == s1[j],
    ensures
        skip_spaces(s2, i + d, hi + d) == skip_spaces(s1, i, hi) + d,
    decreases hi - i,
{
    if i < hi && is_space(s1[i]) {
        lemma_skip_spaces_shift(s1, s2, i + 1, hi, d);
    }
}

/// `word_run_end` commutes with shifting the range.
proof fn lemma_word_run_end_shift(s1: Seq<char>, s2: Seq<char>, i: int, hi: int, d: int)
    requires
        forall|j: int| i <= j < hi ==> s2[j + d] == s1[j],
    ensures
        word_run_end(s2, i + d, hi + d) == word_run_end(s1, i, hi) + d,
    decreases hi - i,
{
    if i < hi && is_word_char(s1[i]) {
        lemma_word_run_end_shift(s1, s2, i + 1, hi, d);
    }
}

/// `digit_run_end` commutes with shifting the range.
proof fn lemma_digit_run_end_shift(s1: Seq<char>, s2: Seq<char>, i: int, hi: int, d: int)
    requires
        forall|j: int| i <= j < hi ==> s2[j + d] == s1[j],
    ensures
        digit_run_end(s2, i + d, hi + d) == digit_run_end(s1, i, hi) + d,
    decreases hi - i,
{
    if i < hi && is_digit_char(s1[i]) {
        lemma_digit_run_end_shift(s1, s2, i + 1, hi, d);
    }
}

/// `find_newline` commutes with shifting the range.
proof fn lemma_find_newline_shift(s1: Seq<char>, s2: Seq<char>, i: int, hi: int, d: int)
    requires
        forall|j: int| i <= j < hi ==> s2[j + d] == s1[j],
    ensures
        find_newline(s2, i + d, hi + d) == find_newline(s1, i, hi) + d,
    decreases hi - i,
{
    if i < hi && s1[i] != '\n' {
        lemma_find_newline_shift(s1, s2, i + 1, hi, d);
    }
}

/// `find_block_close` commutes with shifting the range.
proof fn lemma_find_block_close_shift(s1: Seq<char>, s2: Seq<char>, i: int, hi: int, d: int)
    requires
        forall|j: int| i <= j < hi ==> s2[j + d] == s1[j],
    ensures
        find_block_close(s2, i + d, hi + d) == find_block_close(s1, i, hi) + d,
    decreases hi - i,
{
    if i + 2 <= hi && !(s1[i] == '*' && s1[i + 1] == '/') {
        lemma_find_block_close_shift(s1, s2, i + 1, hi, d);
    }
}

/// `trim_end_idx` commutes with shifting the range.
proof fn lemma_trim_end_idx_shift(s1: Seq<char>, s2: Seq<char>, lo: int, hi: int, d: int)
    requires
        forall|j: int| lo <= j < hi ==> s2[j + d] == s1[j],
    ensures
        trim_end_idx(s2, lo + d, hi + d) == trim_end_idx(s1, lo, hi) + d,
    decreases hi - lo,
{
    if lo < hi && is_space(s1[hi - 1]) {
        lemma_trim_end_idx_shift(s1, s2, lo, hi - 1, d);
    }
}

/// The token matched at a position depends only on the characters of the
/// range: shifting the range into another sequence with the same contents
/// yields the same token and consumed length.
proof fn lemma_next_token_shift(s1: Seq<char>, s2: Seq<char>, lo: int, hi: int, d: int)
    requires
        0 <= lo < hi <= s1.len(),
        0 <= lo + d,
        hi + d <= s2.len(),
        forall|j: int| lo <= j < hi ==> s2[j + d] == s1[j],
    ensures
        match (next_token_at(s1, lo, hi), next_token_at(s2, lo + d, hi + d)) {
            (Some((t1, l1)), Some((t2, l2))) => t1 == t2 && l1 == l2,
            (None, None) => true,
            _ => false,
        },
{
    let c = s1[lo];
    if is_ident_start(c) {
        lemma_word_run_end_shift(s1, s2, lo, hi, d);
        lemma_word_run_end_bounds(s1, lo, hi);
        let e = word_run_end(s1, lo, hi);
        assert(s2.subrange(lo + d, e + d) =~= s1.subrange(lo, e));
    } else if is_digit_char(c) {
        lemma_digit_run_end_shift(s1, s2, lo, hi, d);
        lemma_digit_run_end_bounds(s1, lo, hi);
        let e = digit_run_end(s1, lo, hi);
        assert(s2.subrange(lo + d, e + d) =~= s1.subrange(lo, e));
    } else if c == '(' || c == ')' || c == '{' || c == '}' || c == ';' {
        assert(s2.subrange(lo + d, lo + d + 1) =~= s1.subrange(lo, lo + 1));
    } else if c == '/' {
        if lo + 1 < hi && s1[lo + 1] == '/' {
            lemma_find_newline_shift(s1, s2, lo + 2, hi, d);
            lemma_find_newline_bounds(s1, lo + 2, hi);
            let nl = find_newline(s1, lo + 2, hi);
            if nl < hi {
                assert(s2.subrange(lo + d, nl + 1 + d) =~= s1.subrange(lo, nl + 1));
            }
        } else if lo + 1 < hi && s1[lo + 1] == '*' {
            lemma_find_block_close_shift(s1, s2, lo + 2, hi, d);
            lemma_find_newline_shift(s1, s2, lo + 2, hi, d);
            lemma_find_block_close_bounds(s1, lo + 2, hi);
            let p = find_block_close(s1, lo + 2, hi);
            if p < hi && find_newline(s1, lo + 2, hi) >= p {
                assert(s2.subrange(lo + d, p + 2 + d) =~= s1.subrange(lo, p + 2));
            }
        }
    }
}

/// Scanning depends only on the characters of the range: shifting the range
/// into another sequence with the same contents yields the same tokens, or
/// a rejection at the shifted position.
proof fn lemma_lex_rng_shift(s1: Seq<char>, s2: Seq<char>, lo: int, hi: int, d: int)
    requires
        0 <= lo,
        hi <= s1.len(),
        0 <= lo + d,
        hi + d <= s2.len(),
        forall|j: int| lo <= j < hi ==> s2[j + d] == s1[j],
    ensures
        match (spec_lex_rng(s1, lo, hi), spec_lex_rng(s2, lo + d, hi + d)) {
            (SpecLexOutcome::Accepted(a), SpecLexOutcome::Accepted(b)) => a == b,
            (
                SpecLexOutcome::Rejected { start: a1, end: b1 },
                SpecLexOutcome::Rejected { start: a2, end: b2 },
            ) => a2 == a1 + d && b2 == b1 + d,
            _ => false,
        },
    decreases hi - lo,
{
    if lo < hi {
        lemma_skip_spaces_shift(s1, s2, lo, hi, d);
        lemma_skip_spaces_bounds(s1, lo, hi);
        let start = skip_spaces(s1, lo, hi);
        if start < hi {
            lemma_next_token_shift(s1, s2, start, hi, d);
            match next_token_at(s1, start, hi) {
                None => {},
                Some((tok, len)) => {
                    lemma_next_token_at_bounds(s1, start, hi);
                    let rest_lo = start + len;
                    lemma_trim_end_idx_shift(s1, s2, rest_lo, hi, d);
                    lemma_trim_end_idx_bounds(s1, rest_lo, hi);
                    let rest_hi = trim_end_idx(s1, rest_lo, hi);
                    lemma_lex_rng_shift(s1, s2, rest_lo, rest_hi, d);
                },
            }
        }
    }
}

/// Whitespace in front of the whole input never affects the token sequence:
/// prepending a whitespace character to a nonempty input neither changes
/// the accepted tokens nor turns acceptance into rejection or back. (The
/// input must be nonempty: a whitespace-only input is rejected while the
/// empty input is accepted as no tokens.)
pub proof fn lemma_leading_space_tokens(c: char, s: Seq<char>)
    requires
        is_space(c),
        s.len() > 0,
    ensures
        spec_lex(seq![c] + s) is Accepted <==> spec_lex(s) is Accepted,
        spec_lex(seq![c] + s) is Accepted ==> spec_lex(seq![c] + s) == spec_lex(s),
{
    let t = seq![c] + s;
    assert(t[0] == c);
    lemma_leading_space_ignored(t, 0, t.len() as int);
    assert(forall|j: int| 0 <= j < s.len() ==> t[j + 1] == s[j]);
    lemma_lex_rng_shift(s, t, 0, s.len() as int, 1);
}

/// Whitespace after the whole input never affects the token sequence:
/// appending a whitespace character other than a newline to a nonempty
/// input neither changes the accepted tokens nor turns acceptance into
/// rejection or back. (A trailing newline is excluded because a line
/// comment at the very end of the input needs it as its terminator.)
pub proof fn lemma_trailing_space_tokens(s: Seq<char>, c: char)
    requires
        is_space(c),
        c != '\n',
        s.len() > 0,
    ensures
        spec_lex(s + seq![c]) is Accepted <==> spec_lex(s) is Accepted,
        spec_lex(s + seq![c]) is Accepted ==> spec_lex(s + seq![c]) == spec_lex(s),
{
    let t = s + seq![c];
    assert(t[t.len() - 1] == c);
    lemma_trailing_space_ignored(t, 0, t.len() as int);
    assert(forall|j: int| 0 <= j < s.len() ==> t[j + 0] == s[j]);
    lemma_lex_rng_shift(s, t, 0, s.len() as int, 0);
}

/// Whether `t` is one of the three keyword categories.
pub open spec fn is_keyword_type(t: TokenType) -> bool {
    t == TokenType::KWReturn || t == TokenType::KWVoid || t == TokenType::KWInt
}

/// `w` stands in `s` at position `p`, and the occurrence is maximal to the
/// right: the character after it, if any, is not a word character.
pub open spec fn occurs_maximally(s: Seq<char>, w: Seq<char>, p: int) -> bool {
    &&& 0 <= p
    &&& p + w.len() <= s.len()
    &&& w == s.subrange(p, p + w.len() as int)
    &&& p + w.len() == s.len() || !is_word_char(s[p + w.len() as int])
}

/// Every character that trailing-whitespace stripping removes is whitespace.
proof fn lemma_trim_end_spaces(s: Seq<char>, lo: int, hi: int)
    requires
        lo <= hi,
    ensures
        forall|j: int| trim_end_idx(s, lo, hi) <= j < hi ==> is_space(s[j]),
    decreases hi - lo,
{
    if lo < hi && is_space(s[hi - 1]) {
        lemma_trim_end_spaces(s, lo, hi - 1);
    }
}

/// The range form of [`lemma_keyword_tokens_are_maximal`], carrying the
/// invariant that everything beyond the range's upper end is whitespace
/// already stripped.
proof fn lemma_keyword_token_occurrence(s: Seq<char>, lo: int, hi: int, ts: Seq<SpecToken>, i: int)
    requires
        0 <= lo,
        hi <= s.len(),
        spec_lex_rng(s, lo, hi) == SpecLexOutcome::Accepted(ts),
        forall|j: int| hi <= j < s.len() ==> is_space(s[j]),
        0 <= i < ts.len(),
        is_keyword_type(ts[i].ttype),
    ensures
        is_keyword(ts[i].value),
        exists|p: int| occurs_maximally(s, ts[i].value, p),
    decreases hi - lo,
{
    let start = skip_spaces(s, lo, hi);
    lemma_skip_spaces_bounds(s, lo, hi);
    match next_token_at(s, start, hi) {
        None => {
            assert(false);
        },
        Some((tok, len)) => {
            lemma_next_token_at_bounds(s, start, hi);
            let rest_lo = start + len;
            let rest_hi = trim_end_idx(s, rest_lo, hi);
            lemma_trim_end_idx_bounds(s, rest_lo, hi);
            match spec_lex_rng(s, rest_lo, rest_hi) {
                SpecLexOutcome::Rejected { start: a, end: b } => {
                    assert(false);
                },
                SpecLexOutcome::Accepted(rest) => {
                    assert(ts == seq![tok] + rest);
                    if i == 0 {
                        assert(ts[0] == tok);
                        let c = s[start];
                        assert(is_ident_start(c));
                        let e = word_run_end(s, start, hi);
                        lemma_word_run_end_bounds(s, start, hi);
                        lemma_word_run_end_stop(s, start, hi);
                        let w = s.subrange(start, e);
                        assert(tok.value == w);
                        assert(tok.ttype == classify_word(w));
                        assert(is_keyword(w));
                        assert(w.len() == e - start);
                        if e == hi && hi < s.len() {
                            lemma_space_not_word(s[hi]);
                        }
                        assert(occurs_maximally(s, ts[i].value, start));
                    } else {
                        lemma_trim_end_spaces(s, rest_lo, hi);
                        assert(forall|j: int| rest_hi <= j < s.len() ==> is_space(s[j]));
                        assert(ts[i] == rest[i - 1]);
                        lemma_keyword_token_occurrence(s, rest_lo, rest_hi, rest, i - 1);
                    }
                },
            }
        },
    }
}

/// Keyword tokens are never carved out of longer words: every keyword token
/// in an accepted token sequence is an exact occurrence of its keyword in
/// the input, and the character following that occurrence, if any, is not a
/// word character. So wherever a keyword is immediately followed by a
/// letter, digit or underscore, no keyword token is emitted for it;
/// [`lemma_keyword_run_is_identifier`] states positively that the enclosing
/// word run lexes as one identifier token.
pub proof fn lemma_keyword_tokens_are_maximal(s: Seq<char>, ts: Seq<SpecToken>, i: int)
    requires
        spec_lex(s) == SpecLexOutcome::Accepted(ts),
        0 <= i < ts.len(),
        is_keyword_type(ts[i].ttype),
    ensures
        is_keyword(ts[i].value),
        exists|p: int| occurs_maximally(s, ts[i].value, p),
{
    lemma_keyword_token_occurrence(s, 0, s.len() as int, ts, i);
}

/// Any amount of leading whitespace never affects the token sequence:
/// prepending whitespace to a nonempty input neither changes the accepted
/// tokens nor turns acceptance into rejection or back.
pub proof fn lemma_leading_spaces_tokens(pad: Seq<char>, s: Seq<char>)
    requires
        forall|j: int| 0 <= j < pad.len() ==> is_space(pad[j]),
        s.len() > 0,
    ensures
        spec_lex(pad + s) is Accepted <==> spec_lex(s) is Accepted,
        spec_lex(pad + s) is Accepted ==> spec_lex(pad + s) == spec_lex(s),
    decreases pad.len(),
{
    if pad.len() == 0 {
        assert(pad + s =~= s);
    } else {
        let rest = pad.drop_first() + s;
        assert(pad + s =~= seq![pad[0]] + rest);
        lemma_leading_space_tokens(pad[0], rest);
        lemma_leading_spaces_tokens(pad.drop_first(), s);
    }
}

/// Any amount of trailing whitespace free of newlines never affects the
/// token sequence: appending it to a nonempty input neither changes the
/// accepted tokens nor turns acceptance into rejection or back. (A newline
/// is excluded because a line comment at the very end of the input needs it
/// as its terminator.)
pub proof fn lemma_trailing_spaces_tokens(s: Seq<char>, pad: Seq<char>)
    requires
        forall|j: int| 0 <= j < pad.len() ==> is_space(pad[j]) && pad[j] != '\n',
        s.len() > 0,
    ensures
        spec_lex(s + pad) is Accepted <==> spec_lex(s) is Accepted,
        spec_lex(s + pad) is Accepted ==> spec_lex(s + pad) == spec_lex(s),
    decreases pad.len(),
{
    if pad.len() == 0 {
        assert(s + pad =~= s);
    } else {
        let front = s + pad.drop_last();
        assert(s + pad =~= front + seq![pad.last()]);
        lemma_trailing_space_tokens(front, pad.last());
        lemma_trailing_spaces_tokens(s, pad.drop_last());
    }
}

} // verus!
