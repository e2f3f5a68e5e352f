//! Hand-written lossless lexer for Scarpet.
//!
//! [`lex`] produces a flat token stream whose lengths sum to the input
//! length: every byte of the source belongs to exactly one token, so
//! concatenating the token texts reconstructs the source byte for byte.
//! Unlexable input becomes [`SyntaxKind::ERROR_TOKEN`] instead of being
//! dropped.
//!
//! The lexer works on the UTF-8 bytes of the source. What it does at each
//! position is stated by [`scan`]; the stream as a whole by [`lex_from`].

use vstd::prelude::*;
use vstd::string::StringSliceAdditionalSpecFns;
use vstd::utf8::*;

use crate::kind::SyntaxKind;
use crate::tree::Tok;
use crate::parse::{lemma_tile, lemma_toks_text_whole, resolved, slice_str, text_at, tiles, tokenize, toks_text};

verus! {

/// A single token produced by [`lex`]: a kind plus the byte length of the
/// matched text. Offsets are implicit — each token starts where the previous
/// one ended.
#[derive(Debug, Clone, Copy, PartialEq, Eq, Structural)]
pub struct LexedToken {
    pub kind: SyntaxKind,
    pub len: u32,
}

// ====================================================================
// Byte classes
// ====================================================================

/// The byte classes whose maximal runs make up tokens.
#[derive(Debug, Clone, Copy, PartialEq, Eq, Structural)]
pub enum ByteClass {
    /// `[ \t\r\f]`
    Whitespace,
    /// `[0-9]`
    Digit,
    /// `[0-9a-fA-F]`
    HexDigit,
    /// `[a-zA-Z0-9_]`
    IdentContinue,
    /// Anything but `\n` and `\r` (the body of a `//` comment).
    CommentBody,
}

/// Horizontal whitespace: space, tab, `\r`, form feed. A `\n` is not
/// whitespace — it lexes as a line break.
pub open spec fn is_whitespace_byte(x: u8) -> bool {
    x == 0x20 || x == 0x09 || x == 0x0d || x == 0x0c
}

pub open spec fn is_digit_byte(x: u8) -> bool {
    0x30 <= x <= 0x39
}

pub open spec fn is_hex_byte(x: u8) -> bool {
    is_digit_byte(x) || (0x41 <= x <= 0x46) || (0x61 <= x <= 0x66)
}

pub open spec fn is_alpha_byte(x: u8) -> bool {
    (0x41 <= x <= 0x5a) || (0x61 <= x <= 0x7a)
}

/// `[a-zA-Z_]`
pub open spec fn is_ident_start_byte(x: u8) -> bool {
    is_alpha_byte(x) || x == 0x5f
}

/// `[a-zA-Z0-9_]`
pub open spec fn is_ident_continue_byte(x: u8) -> bool {
    is_alpha_byte(x) || is_digit_byte(x) || x == 0x5f
}

pub open spec fn in_class(c: ByteClass, x: u8) -> bool {
    match c {
        ByteClass::Whitespace => is_whitespace_byte(x),
        ByteClass::Digit => is_digit_byte(x),
        ByteClass::HexDigit => is_hex_byte(x),
        ByteClass::IdentContinue => is_ident_continue_byte(x),
        ByteClass::CommentBody => x != 0x0a && x != 0x0d,
    }
}

/// The byte at `i`, if any.
pub open spec fn byte_at(b: Seq<u8>, i: int) -> Option<u8> {
    if 0 <= i < b.len() {
        Some(b[i])
    } else {
        None
    }
}

/// The first index at or after `i` whose byte is not in class `c` (or the
/// end of the input).
pub open spec fn run_end(b: Seq<u8>, i: int, c: ByteClass) -> int
    decreases b.len() - i,
{
    if 0 <= i < b.len() && in_class(c, b[i]) {
        run_end(b, i + 1, c)
    } else {
        i
    }
}

/// Byte length of the UTF-8 character whose first byte is `x`: the number
/// of leading one bits, and one for ASCII.
pub open spec fn char_width(x: u8) -> int {
    if x < 0xc0 {
        1
    } else if x < 0xe0 {
        2
    } else if x < 0xf0 {
        3
    } else if x < 0xf8 {
        4
    } else if x < 0xfc {
        5
    } else if x < 0xfe {
        6
    } else if x < 0xff {
        7
    } else {
        8
    }
}

// ====================================================================
// What the lexer does at one position
// ====================================================================

/// Length of a single-quoted string token starting at `p`, having already
/// covered `len` bytes: `'(\\[\s\S]|[^'\\])*'`. An unterminated string is an
/// error token from the quote to the end of input, except that a dangling
/// backslash as the very last byte is left out of it.
#[verifier::opaque]
pub open spec fn string_scan(b: Seq<u8>, p: int, len: int) -> (SyntaxKind, int)
    decreases (if p + len <= b.len() { b.len() - (p + len) + 1 } else { 0 }),
{
    match byte_at(b, p + len) {
        None => (SyntaxKind::ERROR_TOKEN, b.len() - p),
        Some(x) => if x == 0x27 {
            (SyntaxKind::STRING, len + 1)
        } else if x == 0x5c {
            match byte_at(b, p + len + 1) {
                None => (SyntaxKind::ERROR_TOKEN, len),
                Some(e) => string_scan(b, p, len + 1 + char_width(e)),
            }
        } else {
            string_scan(b, p, len + char_width(x))
        },
    }
}

/// Length of a number token starting at the digit at `p`: hex
/// `0[xX][0-9a-fA-F]+`, or decimal `\d+(\.\d+)?([eE][+-]?\d+)?`. A `.` or an
/// exponent only joins when digits follow it.
#[verifier::opaque]
pub open spec fn number_len(b: Seq<u8>, p: int) -> int {
    if b[p] == 0x30 && (byte_at(b, p + 1) == Some(0x78u8) || byte_at(b, p + 1) == Some(0x58u8))
        && (match byte_at(b, p + 2) {
        Some(h) => is_hex_byte(h),
        None => false,
    }) {
        run_end(b, p + 3, ByteClass::HexDigit) - p
    } else {
        let l1 = run_end(b, p + 1, ByteClass::Digit) - p;
        let l2 = if byte_at(b, p + l1) == Some(0x2eu8) && (match byte_at(b, p + l1 + 1) {
            Some(d) => is_digit_byte(d),
            None => false,
        }) {
            run_end(b, p + l1 + 2, ByteClass::Digit) - p
        } else {
            l1
        };
        if byte_at(b, p + l2) == Some(0x65u8) || byte_at(b, p + l2) == Some(0x45u8) {
            let exp = if byte_at(b, p + l2 + 1) == Some(0x2bu8) || byte_at(b, p + l2 + 1) == Some(
                0x2du8,
            ) {
                l2 + 2
            } else {
                l2 + 1
            };
            match byte_at(b, p + exp) {
                Some(d) => if is_digit_byte(d) {
                    run_end(b, p + exp + 1, ByteClass::Digit) - p
                } else {
                    l2
                },
                None => l2,
            }
        } else {
            l2
        }
    }
}

/// A two-byte token `<first><second>` when the byte after `p` is `second`,
/// else the one-byte fallback.
pub open spec fn two(b: Seq<u8>, p: int, second: u8, long: SyntaxKind, short: SyntaxKind) -> (
    SyntaxKind,
    int,
) {
    if byte_at(b, p + 1) == Some(second) {
        (long, 2)
    } else {
        (short, 1)
    }
}

/// The single-byte punctuation tokens, or `None` for any other byte.
pub open spec fn single_punct(x: u8) -> Option<SyntaxKind> {
    if x == 0x28 {
        Some(SyntaxKind::OPEN_PAREN)
    } else if x == 0x29 {
        Some(SyntaxKind::CLOSE_PAREN)
    } else if x == 0x5b {
        Some(SyntaxKind::OPEN_BRACK)
    } else if x == 0x5d {
        Some(SyntaxKind::CLOSE_BRACK)
    } else if x == 0x7b {
        Some(SyntaxKind::OPEN_BRACE)
    } else if x == 0x7d {
        Some(SyntaxKind::CLOSE_BRACE)
    } else if x == 0x2a {
        Some(SyntaxKind::STAR)
    } else if x == 0x2f {
        Some(SyntaxKind::SLASH)
    } else if x == 0x25 {
        Some(SyntaxKind::PERCENT)
    } else if x == 0x5e {
        Some(SyntaxKind::CARET)
    } else if x == 0x7e {
        Some(SyntaxKind::TILDE)
    } else if x == 0x3a {
        Some(SyntaxKind::COLON)
    } else if x == 0x2c {
        Some(SyntaxKind::COMMA)
    } else if x == 0x3b {
        Some(SyntaxKind::SEMICOLON)
    } else {
        None
    }
}

/// The kind and byte length of the token starting at `p` (`p` inside the
/// input).
#[verifier::opaque]
pub open spec fn scan(b: Seq<u8>, p: int) -> (SyntaxKind, int) {
    let x = b[p];
    if is_whitespace_byte(x) {
        (SyntaxKind::WHITESPACE, run_end(b, p + 1, ByteClass::Whitespace) - p)
    } else if x == 0x0a || x == 0x24 {
        (SyntaxKind::NEWLINE, 1)
    } else if x == 0x2f && byte_at(b, p + 1) == Some(0x2fu8) {
        (SyntaxKind::COMMENT, run_end(b, p + 2, ByteClass::CommentBody) - p)
    } else if x == 0x27 {
        string_scan(b, p, 1)
    } else if is_digit_byte(x) {
        (SyntaxKind::NUMBER, number_len(b, p))
    } else if is_ident_start_byte(x) {
        (SyntaxKind::IDENT, run_end(b, p + 1, ByteClass::IdentContinue) - p)
    } else if x == 0x3d {
        two(b, p, 0x3d, SyntaxKind::EQ_EQ, SyntaxKind::EQ)
    } else if x == 0x21 {
        two(b, p, 0x3d, SyntaxKind::BANG_EQ, SyntaxKind::BANG)
    } else if x == 0x3c {
        if byte_at(b, p + 1) == Some(0x3du8) {
            (SyntaxKind::LT_EQ, 2)
        } else if byte_at(b, p + 1) == Some(0x3eu8) {
            (SyntaxKind::SWAP, 2)
        } else {
            (SyntaxKind::LT, 1)
        }
    } else if x == 0x3e {
        two(b, p, 0x3d, SyntaxKind::GT_EQ, SyntaxKind::GT)
    } else if x == 0x26 {
        two(b, p, 0x26, SyntaxKind::AND_AND, SyntaxKind::ERROR_TOKEN)
    } else if x == 0x7c {
        two(b, p, 0x7c, SyntaxKind::OR_OR, SyntaxKind::ERROR_TOKEN)
    } else if x == 0x2b {
        two(b, p, 0x3d, SyntaxKind::PLUS_EQ, SyntaxKind::PLUS)
    } else if x == 0x2d {
        two(b, p, 0x3e, SyntaxKind::ARROW, SyntaxKind::MINUS)
    } else if x == 0x2e {
        if byte_at(b, p + 1) == Some(0x2eu8) && byte_at(b, p + 2) == Some(0x2eu8) {
            (SyntaxKind::ELLIPSIS, 3)
        } else {
            (SyntaxKind::DOT, 1)
        }
    } else {
        match single_punct(x) {
            Some(k) => (k, 1),
            None => (SyntaxKind::ERROR_TOKEN, char_width(x)),
        }
    }
}

/// The token stream of `b` from position `p` on, as (kind, length) pairs.
pub open spec fn lex_from(b: Seq<u8>, p: int) -> Seq<(SyntaxKind, int)>
    decreases b.len() - p,
{
    if 0 <= p < b.len() && 0 < scan(b, p).1 && p + scan(b, p).1 <= b.len() {
        seq![scan(b, p)] + lex_from(b, p + scan(b, p).1)
    } else {
        seq![]
    }
}

/// The sum of the lengths of `toks`.
pub open spec fn total_len<K>(toks: Seq<(K, int)>) -> int
    decreases toks.len(),
{
    if toks.len() == 0 {
        0
    } else {
        total_len(toks.drop_last()) + toks.last().1
    }
}

/// The (kind, length) view of a lexed token stream.
pub open spec fn token_view(toks: Seq<LexedToken>) -> Seq<(SyntaxKind, int)> {
    toks.map_values(|t: LexedToken| (t.kind, t.len as int))
}

/// Where the `i`-th token of `toks` starts: the sum of the lengths before it.
pub open spec fn token_start<K>(toks: Seq<(K, int)>, i: int) -> int {
    total_len(toks.take(i))
}

/// A boundary `j` at or past the boundary `i` is also a boundary of the
/// suffix that starts at `i`.
pub proof fn lemma_boundary_suffix(b: Seq<u8>, i: int, j: int)
    requires
        valid_utf8(b),
        is_char_boundary(b, i),
        is_char_boundary(b, j),
        i <= j,
    ensures
        is_char_boundary(b.subrange(i, b.len() as int), j - i),
    decreases i,
{
    if i <= 0 {
        assert(b.subrange(0, b.len() as int) =~= b);
    } else {
        let l = length_of_first_scalar(b);
        let t = pop_first_scalar(b);
        assert(is_char_boundary(t, i - l));
        assert(is_char_boundary(t, j - l));
        assert(valid_utf8(t));
        assert(l >= 1);
        lemma_boundary_suffix(t, i - l, j - l);
        assert(t.subrange(i - l, t.len() as int) =~= b.subrange(i, b.len() as int));
    }
}

/// The next token starts where this one ends.
pub proof fn lemma_token_start_step<K>(toks: Seq<(K, int)>, i: int)
    requires
        0 <= i < toks.len(),
    ensures
        token_start(toks, i + 1) == token_start(toks, i) + toks[i].1,
{
    assert(toks.take(i + 1).drop_last() =~= toks.take(i));
}

/// Token starts never decrease when no length is negative.
pub proof fn lemma_token_start_mono<K>(toks: Seq<(K, int)>, i: int, j: int)
    requires
        0 <= i <= j <= toks.len(),
        forall|k: int| 0 <= k < toks.len() ==> (#[trigger] toks[k]).1 >= 0,
    ensures
        token_start(toks, i) <= token_start(toks, j),
    decreases j - i,
{
    if i < j {
        lemma_token_start_mono(toks, i, j - 1);
        lemma_token_start_step(toks, j - 1);
    }
}

/// The start past the last token is the total length.
pub proof fn lemma_token_start_end<K>(toks: Seq<(K, int)>)
    ensures
        token_start(toks, toks.len() as int) == total_len(toks),
{
    assert(toks.take(toks.len() as int) =~= toks);
}

// ====================================================================
// UTF-8 facts the lexer relies on
// ====================================================================

/// From a character boundary, the width of the character's leading byte
/// lands on the next character boundary.
pub(crate) proof fn lemma_width_step(b: Seq<u8>, i: int)
    requires
        valid_utf8(b),
        is_char_boundary(b, i),
        0 <= i < b.len(),
    ensures
        i + char_width(b[i]) <= b.len(),
        is_char_boundary(b, i + char_width(b[i])),
    decreases b.len(),
{
    let w = length_of_first_scalar(b);
    let rest = pop_first_scalar(b);
    assert(valid_first_scalar(b) && valid_utf8(rest));
    if i == 0 {
        assert(char_width(b[0]) == w);
        assert(rest.len() == b.len() - w);
        assert(is_char_boundary(rest, 0));
    } else {
        assert(is_char_boundary(rest, i - w));
        assert(i - w >= 0) by {
            if i - w < 0 {
                assert(!is_char_boundary(rest, i - w));
            }
        }
        assert(rest[i - w] == b[i]);
        lemma_width_step(rest, i - w);
    }
}

/// The position right after an ASCII byte is a character boundary.
pub(crate) proof fn lemma_after_ascii(b: Seq<u8>, j: int)
    requires
        valid_utf8(b),
        0 < j <= b.len(),
        b[j - 1] < 0x80,
    ensures
        is_char_boundary(b, j),
{
    is_char_boundary_iff_not_is_continuation_byte(b, j - 1);
    lemma_width_step(b, j - 1);
}

/// A position holding an ASCII byte is a character boundary.
proof fn lemma_at_ascii(b: Seq<u8>, j: int)
    requires
        valid_utf8(b),
        0 <= j < b.len(),
        b[j] < 0x80,
    ensures
        is_char_boundary(b, j),
{
    is_char_boundary_iff_not_is_continuation_byte(b, j);
}

proof fn lemma_run_end_bounds(b: Seq<u8>, i: int, c: ByteClass)
    requires
        0 <= i,
    ensures
        i <= run_end(b, i, c),
        i <= b.len() ==> run_end(b, i, c) <= b.len(),
        forall|k: int| i <= k < run_end(b, i, c) ==> #[trigger] in_class(c, b[k]),
        run_end(b, i, c) < b.len() ==> !in_class(c, b[run_end(b, i, c)]),
        run_end(b, i, c) > i ==> in_class(c, b[run_end(b, i, c) - 1]),
        c != ByteClass::CommentBody && run_end(b, i, c) > i ==> b[run_end(b, i, c) - 1] < 0x80,
    decreases b.len() - i,
{
    if 0 <= i < b.len() && in_class(c, b[i]) {
        lemma_run_end_bounds(b, i + 1, c);
    }
}

// ====================================================================
// Executable lexer
// ====================================================================

fn byte_at_exec(b: &[u8], i: usize) -> (r: Option<u8>)
    ensures
        r == byte_at(b@, i as int),
{
    if i < b.len() {
        Some(b[i])
    } else {
        None
    }
}

fn in_class_exec(c: ByteClass, x: u8) -> (r: bool)
    ensures
        r == in_class(c, x),
{
    match c {
        ByteClass::Whitespace => x == 0x20 || x == 0x09 || x == 0x0d || x == 0x0c,
        ByteClass::Digit => 0x30 <= x && x <= 0x39,
        ByteClass::HexDigit => (0x30 <= x && x <= 0x39) || (0x41 <= x && x <= 0x46) || (0x61 <= x
            && x <= 0x66),
        ByteClass::IdentContinue => (0x41 <= x && x <= 0x5a) || (0x61 <= x && x <= 0x7a) || (0x30
            <= x && x <= 0x39) || x == 0x5f,
        ByteClass::CommentBody => x != 0x0a && x != 0x0d,
    }
}

/// Extends a run of class `c` from `i`: the first index at or after `i`
/// whose byte is outside the class.
fn run_end_exec(b: &[u8], i: usize, c: ByteClass) -> (r: usize)
    requires
        i <= b.len(),
    ensures
        r == run_end(b@, i as int, c),
{
    let mut j = i;
    while j < b.len() && in_class_exec(c, b[j])
        invariant
            i <= j <= b.len(),
            run_end(b@, j as int, c) == run_end(b@, i as int, c),
        decreases b.len() - j,
    {
        j = j + 1;
    }
    j
}

/// Byte length of the UTF-8 character whose first byte is `x`.
fn char_width_exec(x: u8) -> (r: usize)
    ensures
        r == char_width(x),
{
    if x < 0xc0 {
        1
    } else if x < 0xe0 {
        2
    } else if x < 0xf0 {
        3
    } else if x < 0xf8 {
        4
    } else if x < 0xfc {
        5
    } else if x < 0xfe {
        6
    } else if x < 0xff {
        7
    } else {
        8
    }
}

fn string_token(b: &[u8], p: usize) -> (r: (SyntaxKind, usize))
    requires
        valid_utf8(b@),
        is_char_boundary(b@, p as int),
        p < b.len(),
        b[p as int] == 0x27,
    ensures
        (r.0, r.1 as int) == string_scan(b@, p as int, 1),
        r.1 > 0,
        p + r.1 <= b.len(),
        is_char_boundary(b@, p + r.1),
{
    proof {
        lemma_after_ascii(b@, p + 1);
    }
    let mut len: usize = 1;
    loop
        invariant
            valid_utf8(b@),
            1 <= len,
            p + len <= b.len(),
            is_char_boundary(b@, p + len),
            string_scan(b@, p as int, len as int) == string_scan(b@, p as int, 1),
        decreases b.len() - (p + len),
    {
        proof {
            reveal(string_scan);
        }
        if p + len >= b.len() {
            proof {
                assert(byte_at(b@, p + len) is None);
            }
            return (SyntaxKind::ERROR_TOKEN, b.len() - p);
        }
        let x = b[p + len];
        if x == 0x27 {
            proof {
                lemma_after_ascii(b@, p + len + 1);
            }
            return (SyntaxKind::STRING, len + 1);
        } else if x == 0x5c {
            if p + len + 1 >= b.len() {
                proof {
                    lemma_at_ascii(b@, p + len);
                }
                return (SyntaxKind::ERROR_TOKEN, len);
            }
            let e = b[p + len + 1];
            proof {
                lemma_after_ascii(b@, p + len + 1);
                lemma_width_step(b@, p + len + 1);
            }
            len = len + 1 + char_width_exec(e);
        } else {
            proof {
                lemma_width_step(b@, p + len);
            }
            len = len + char_width_exec(x);
        }
    }
}

fn number_token(b: &[u8], p: usize) -> (r: usize)
    requires
        valid_utf8(b@),
        p < b.len(),
        is_digit_byte(b[p as int]),
    ensures
        r == number_len(b@, p as int),
        r > 0,
        p + r <= b.len(),
        is_char_boundary(b@, p + r),
{
    reveal(number_len);
    if b[p] == 0x30 && (byte_at_exec(b, p + 1) == Some(0x78u8) || byte_at_exec(b, p + 1) == Some(
        0x58u8,
    )) && p + 2 < b.len() && in_class_exec(ByteClass::HexDigit, b[p + 2]) {
        let e = run_end_exec(b, p + 3, ByteClass::HexDigit);
        proof {
            lemma_run_end_bounds(b@, p + 3, ByteClass::HexDigit);
            lemma_after_ascii(b@, e as int);
        }
        return e - p;
    }
    let e1 = run_end_exec(b, p + 1, ByteClass::Digit);
    proof {
        lemma_run_end_bounds(b@, p + 1, ByteClass::Digit);
    }
    let l1 = e1 - p;
    let ghost sl1 = run_end(b@, p + 1, ByteClass::Digit) - p;
    assert(l1 == sl1);
    assert(b@[p + l1 - 1] < 0x80);
    let mut l2 = l1;
    if byte_at_exec(b, p + l1) == Some(0x2eu8) && p + l1 + 1 < b.len() && in_class_exec(
        ByteClass::Digit,
        b[p + l1 + 1],
    ) {
        let e2 = run_end_exec(b, p + l1 + 2, ByteClass::Digit);
        proof {
            lemma_run_end_bounds(b@, p + l1 + 2, ByteClass::Digit);
        }
        l2 = e2 - p;
    }
    assert(b@[p + l2 - 1] < 0x80);
    let mut l = l2;
    if byte_at_exec(b, p + l2) == Some(0x65u8) || byte_at_exec(b, p + l2) == Some(0x45u8) {
        let exp = if byte_at_exec(b, p + l2 + 1) == Some(0x2bu8) || byte_at_exec(b, p + l2 + 1)
            == Some(0x2du8) {
            l2 + 2
        } else {
            l2 + 1
        };
        if p + exp < b.len() && in_class_exec(ByteClass::Digit, b[p + exp]) {
            let e3 = run_end_exec(b, p + exp + 1, ByteClass::Digit);
            proof {
                lemma_run_end_bounds(b@, p + exp + 1, ByteClass::Digit);
            }
            l = e3 - p;
        }
    }
    proof {
        assert(b@[p + l - 1] < 0x80);
        lemma_after_ascii(b@, p + l);
    }
    l
}

/// Scans one token at `p`, returning its kind and byte length.
pub(crate) fn next_token(b: &[u8], p: usize) -> (r: (SyntaxKind, usize))
    requires
        valid_utf8(b@),
        is_char_boundary(b@, p as int),
        p < b.len(),
    ensures
        (r.0, r.1 as int) == scan(b@, p as int),
        r.1 > 0,
        p + r.1 <= b.len(),
        is_char_boundary(b@, p + r.1),
{
    reveal(scan);
    let x = b[p];
    if x == 0x20 || x == 0x09 || x == 0x0d || x == 0x0c {
        let e = run_end_exec(b, p + 1, ByteClass::Whitespace);
        proof {
            lemma_run_end_bounds(b@, p + 1, ByteClass::Whitespace);
            assert(b@[e - 1] < 0x80);
            lemma_after_ascii(b@, e as int);
        }
        (SyntaxKind::WHITESPACE, e - p)
    } else if x == 0x0a || x == 0x24 {
        proof {
            lemma_after_ascii(b@, p + 1);
        }
        (SyntaxKind::NEWLINE, 1)
    } else if x == 0x2f && byte_at_exec(b, p + 1) == Some(0x2fu8) {
        let e = run_end_exec(b, p + 2, ByteClass::CommentBody);
        proof {
            lemma_run_end_bounds(b@, p + 2, ByteClass::CommentBody);
            if e < b.len() {
                lemma_at_ascii(b@, e as int);
            } else {
                is_char_boundary_start_end_of_seq(b@);
            }
        }
        (SyntaxKind::COMMENT, e - p)
    } else if x == 0x27 {
        string_token(b, p)
    } else if 0x30 <= x && x <= 0x39 {
        (SyntaxKind::NUMBER, number_token(b, p))
    } else if (0x41 <= x && x <= 0x5a) || (0x61 <= x && x <= 0x7a) || x == 0x5f {
        let e = run_end_exec(b, p + 1, ByteClass::IdentContinue);
        proof {
            lemma_run_end_bounds(b@, p + 1, ByteClass::IdentContinue);
            assert(b@[e - 1] < 0x80);
            lemma_after_ascii(b@, e as int);
        }
        (SyntaxKind::IDENT, e - p)
    } else {
        let r = punct_token(b, p);
        r
    }
}

/// The operator and punctuation tokens, and the one-character error token
/// for anything else.
fn punct_token(b: &[u8], p: usize) -> (r: (SyntaxKind, usize))
    requires
        valid_utf8(b@),
        is_char_boundary(b@, p as int),
        p < b.len(),
        !is_whitespace_byte(b[p as int]),
        !(b[p as int] == 0x0a || b[p as int] == 0x24),
        !(b[p as int] == 0x2f && byte_at(b@, p + 1) == Some(0x2fu8)),
        b[p as int] != 0x27,
        !is_digit_byte(b[p as int]),
        !is_ident_start_byte(b[p as int]),
    ensures
        (r.0, r.1 as int) == scan(b@, p as int),
        r.1 > 0,
        p + r.1 <= b.len(),
        is_char_boundary(b@, p + r.1),
{
    reveal(scan);
    let x = b[p];
    let next = byte_at_exec(b, p + 1);
    let r: (SyntaxKind, usize) = if x == 0x3d {
        if next == Some(0x3du8) {
            (SyntaxKind::EQ_EQ, 2)
        } else {
            (SyntaxKind::EQ, 1)
        }
    } else if x == 0x21 {
        if next == Some(0x3du8) {
            (SyntaxKind::BANG_EQ, 2)
        } else {
            (SyntaxKind::BANG, 1)
        }
    } else if x == 0x3c {
        if next == Some(0x3du8) {
            (SyntaxKind::LT_EQ, 2)
        } else if next == Some(0x3eu8) {
            (SyntaxKind::SWAP, 2)
        } else {
            (SyntaxKind::LT, 1)
        }
    } else if x == 0x3e {
        if next == Some(0x3du8) {
            (SyntaxKind::GT_EQ, 2)
        } else {
            (SyntaxKind::GT, 1)
        }
    } else if x == 0x26 {
        if next == Some(0x26u8) {
            (SyntaxKind::AND_AND, 2)
        } else {
            (SyntaxKind::ERROR_TOKEN, 1)
        }
    } else if x == 0x7c {
        if next == Some(0x7cu8) {
            (SyntaxKind::OR_OR, 2)
        } else {
            (SyntaxKind::ERROR_TOKEN, 1)
        }
    } else if x == 0x2b {
        if next == Some(0x3du8) {
            (SyntaxKind::PLUS_EQ, 2)
        } else {
            (SyntaxKind::PLUS, 1)
        }
    } else if x == 0x2d {
        if next == Some(0x3eu8) {
            (SyntaxKind::ARROW, 2)
        } else {
            (SyntaxKind::MINUS, 1)
        }
    } else if x == 0x2e {
        if next == Some(0x2eu8) && byte_at_exec(b, p + 2) == Some(0x2eu8) {
            (SyntaxKind::ELLIPSIS, 3)
        } else {
            (SyntaxKind::DOT, 1)
        }
    } else if x == 0x28 {
        (SyntaxKind::OPEN_PAREN, 1)
    } else if x == 0x29 {
        (SyntaxKind::CLOSE_PAREN, 1)
    } else if x == 0x5b {
        (SyntaxKind::OPEN_BRACK, 1)
    } else if x == 0x5d {
        (SyntaxKind::CLOSE_BRACK, 1)
    } else if x == 0x7b {
        (SyntaxKind::OPEN_BRACE, 1)
    } else if x == 0x7d {
        (SyntaxKind::CLOSE_BRACE, 1)
    } else if x == 0x2a {
        (SyntaxKind::STAR, 1)
    } else if x == 0x2f {
        (SyntaxKind::SLASH, 1)
    } else if x == 0x25 {
        (SyntaxKind::PERCENT, 1)
    } else if x == 0x5e {
        (SyntaxKind::CARET, 1)
    } else if x == 0x7e {
        (SyntaxKind::TILDE, 1)
    } else if x == 0x3a {
        (SyntaxKind::COLON, 1)
    } else if x == 0x2c {
        (SyntaxKind::COMMA, 1)
    } else if x == 0x3b {
        (SyntaxKind::SEMICOLON, 1)
    } else {
        proof {
            lemma_width_step(b@, p as int);
        }
        (SyntaxKind::ERROR_TOKEN, char_width_exec(x))
    };
    proof {
        if x < 0x80 {
            assert(b@[p + r.1 - 1] < 0x80);
            lemma_after_ascii(b@, p + r.1);
        }
    }
    r
}

/// The bytes of `src` are valid UTF-8, with boundaries at both ends.
pub(crate) proof fn lemma_src_bytes(src: &str)
    ensures
        valid_utf8(src.spec_bytes()),
        is_char_boundary(src.spec_bytes(), 0),
        is_char_boundary(src.spec_bytes(), src.spec_bytes().len() as int),
{
    encode_utf8_valid_utf8(src@);
    is_char_boundary_start_end_of_seq(src.spec_bytes());
}

pub(crate) proof fn lemma_total_len_push<K>(toks: Seq<(K, int)>, t: (K, int))
    ensures
        total_len(toks.push(t)) == total_len(toks) + t.1,
{
    assert(toks.push(t).drop_last() =~= toks);
}

/// Lexes `src` into a lossless token stream.
///
/// The stream is exactly [`lex_from`] of the source bytes; every token is
/// non-empty, every token boundary is a character boundary, and the lengths
/// sum to the input length.
pub fn lex(src: &str) -> (toks: Vec<LexedToken>)
    requires
        src.spec_bytes().len() <= u32::MAX,
    ensures
        token_view(toks@) == lex_from(src.spec_bytes(), 0),
        total_len(token_view(toks@)) == src.spec_bytes().len(),
        forall|i: int| 0 <= i < toks.len() ==> #[trigger] toks@[i].len > 0,
        forall|i: int|
            0 <= i <= toks.len() ==> is_char_boundary(
                src.spec_bytes(),
                #[trigger] token_start(token_view(toks@), i),
            ),
{
    let b = src.as_bytes();
    proof {
        lemma_src_bytes(src);
    }
    let mut toks: Vec<LexedToken> = Vec::new();
    let mut pos: usize = 0;
    while pos < b.len()
        invariant
            b@ == src.spec_bytes(),
            valid_utf8(b@),
            b.len() <= u32::MAX,
            pos <= b.len(),
            is_char_boundary(b@, pos as int),
            token_view(toks@) + lex_from(b@, pos as int) == lex_from(b@, 0),
            total_len(token_view(toks@)) == pos,
            forall|i: int| 0 <= i < toks.len() ==> #[trigger] toks@[i].len > 0,
            forall|i: int|
                0 <= i <= toks.len() ==> is_char_boundary(
                    b@,
                    #[trigger] token_start(token_view(toks@), i),
                ),
        decreases b.len() - pos,
    {
        let (kind, len) = next_token(b, pos);
        let ghost old_view = token_view(toks@);
        let tok = LexedToken { kind, len: len as u32 };
        toks.push(tok);
        proof {
            assert(token_view(toks@) =~= old_view.push((kind, len as int)));
            lemma_total_len_push(old_view, (kind, len as int));
            assert(lex_from(b@, pos as int) == seq![(kind, len as int)] + lex_from(
                b@,
                pos + len,
            ));
            assert(token_view(toks@) + lex_from(b@, pos + len) =~= old_view + lex_from(
                b@,
                pos as int,
            ));
            assert forall|i: int| 0 <= i <= toks.len() implies is_char_boundary(
                b@,
                #[trigger] token_start(token_view(toks@), i),
            ) by {
                if i == toks.len() {
                    assert(token_view(toks@).take(i) =~= token_view(toks@));
                    assert(token_start(token_view(toks@), i) == pos + len);
                } else {
                    assert(token_view(toks@).take(i) =~= old_view.take(i));
                    assert(token_start(old_view, i) == token_start(token_view(toks@), i));
                    assert(is_char_boundary(b@, token_start(old_view, i)));
                }
            }
        }
        pos = pos + len;
    }
    proof {
        assert(lex_from(b@, pos as int) =~= Seq::<(SyntaxKind, int)>::empty());
        assert(token_view(toks@) =~= lex_from(b@, 0));
    }
    toks
}

/// The concatenated texts of `(kind, text)` pairs.
pub open spec fn pairs_text(s: Seq<(SyntaxKind, &str)>) -> Seq<char>
    decreases s.len(),
{
    if s.len() == 0 {
        seq![]
    } else {
        pairs_text(s.drop_last()) + s.last().1@
    }
}

/// Pairs spelling the texts of a token list spell what the list spells.
proof fn lemma_pairs_text(src: &str, r: Seq<(SyntaxKind, &str)>, t: Seq<Tok>)
    requires
        r.len() == t.len(),
        forall|i: int|
            0 <= i < r.len() ==> (#[trigger] r[i]).1@ == text_at(
                src,
                t[i].start as int,
                t[i].end as int,
            ),
    ensures
        pairs_text(r) == toks_text(src, t),
    decreases r.len(),
{
    if r.len() > 0 {
        lemma_pairs_text(src, r.drop_last(), t.drop_last());
        assert(r.last() == r[r.len() - 1]);
    }
}

/// Lexes `src` and pairs each token with its source text. The texts
/// concatenate back to exactly `src`.
pub fn lex_with_text(src: &str) -> (r: Vec<(SyntaxKind, &str)>)
    requires
        src.spec_bytes().len() <= u32::MAX,
    ensures
        r.len() == resolved(src).len(),
        forall|i: int|
            0 <= i < r.len() ==> {
                &&& (#[trigger] r@[i]).0 == resolved(src)[i].kind
                &&& r@[i].1@ == text_at(
                    src,
                    resolved(src)[i].start as int,
                    resolved(src)[i].end as int,
                )
            },
        pairs_text(r@) == src@,
{
    let toks = tokenize(src);
    let ghost t = toks@;
    let mut out: Vec<(SyntaxKind, &str)> = Vec::new();
    let mut i: usize = 0;
    while i < toks.len()
        invariant
            t == toks@,
            tiles(t, src),
            i <= toks.len(),
            out.len() == i,
            forall|k: int|
                0 <= k < i ==> {
                    &&& (#[trigger] out@[k]).0 == t[k].kind
                    &&& out@[k].1@ == text_at(src, t[k].start as int, t[k].end as int)
                },
        decreases toks.len() - i,
    {
        let tok = toks[i];
        proof {
            lemma_tile(t, src, i as int);
        }
        out.push((tok.kind, slice_str(src, tok.start, tok.end)));
        i = i + 1;
    }
    proof {
        lemma_pairs_text(src, out@, t);
        lemma_toks_text_whole(src, t);
    }
    out
}

// ====================================================================
// What a token's kind says of its text
// ====================================================================

/// The text of a token kind that is always spelled the same way, as bytes:
/// each operator and delimiter is the characters it names; `None` for the
/// kinds whose text varies (names, numbers, strings, trivia, errors).
pub open spec fn spelling(k: SyntaxKind) -> Option<Seq<u8>> {
    match k {
        SyntaxKind::OPEN_PAREN => Some(seq![0x28u8]),  // (
        SyntaxKind::CLOSE_PAREN => Some(seq![0x29u8]),  // )
        SyntaxKind::OPEN_BRACK => Some(seq![0x5bu8]),  // [
        SyntaxKind::CLOSE_BRACK => Some(seq![0x5du8]),  // ]
        SyntaxKind::OPEN_BRACE => Some(seq![0x7bu8]),  // {
        SyntaxKind::CLOSE_BRACE => Some(seq![0x7du8]),  // }
        SyntaxKind::EQ_EQ => Some(seq![0x3du8, 0x3du8]),  // ==
        SyntaxKind::BANG_EQ => Some(seq![0x21u8, 0x3du8]),  // !=
        SyntaxKind::LT => Some(seq![0x3cu8]),  // <
        SyntaxKind::LT_EQ => Some(seq![0x3cu8, 0x3du8]),  // <=
        SyntaxKind::GT => Some(seq![0x3eu8]),  // >
        SyntaxKind::GT_EQ => Some(seq![0x3eu8, 0x3du8]),  // >=
        SyntaxKind::AND_AND => Some(seq![0x26u8, 0x26u8]),  // &&
        SyntaxKind::OR_OR => Some(seq![0x7cu8, 0x7cu8]),  // ||
        SyntaxKind::BANG => Some(seq![0x21u8]),  // !
        SyntaxKind::PLUS => Some(seq![0x2bu8]),  // +
        SyntaxKind::MINUS => Some(seq![0x2du8]),  // -
        SyntaxKind::STAR => Some(seq![0x2au8]),  // *
        SyntaxKind::SLASH => Some(seq![0x2fu8]),  // /
        SyntaxKind::PERCENT => Some(seq![0x25u8]),  // %
        SyntaxKind::CARET => Some(seq![0x5eu8]),  // ^
        SyntaxKind::EQ => Some(seq![0x3du8]),  // =
        SyntaxKind::PLUS_EQ => Some(seq![0x2bu8, 0x3du8]),  // +=
        SyntaxKind::SWAP => Some(seq![0x3cu8, 0x3eu8]),  // <>
        SyntaxKind::TILDE => Some(seq![0x7eu8]),  // ~
        SyntaxKind::COLON => Some(seq![0x3au8]),  // :
        SyntaxKind::DOT => Some(seq![0x2eu8]),  // .
        SyntaxKind::ELLIPSIS => Some(seq![0x2eu8, 0x2eu8, 0x2eu8]),  // ...
        SyntaxKind::COMMA => Some(seq![0x2cu8]),  // ,
        SyntaxKind::SEMICOLON => Some(seq![0x3bu8]),  // ;
        SyntaxKind::ARROW => Some(seq![0x2du8, 0x3eu8]),  // ->
        _ => None,
    }
}

/// A string scan yields a string or, unterminated, an error token.
proof fn lemma_string_scan_kind(b: Seq<u8>, p: int, len: int)
    ensures
        string_scan(b, p, len).0 == SyntaxKind::STRING || string_scan(b, p, len).0
            == SyntaxKind::ERROR_TOKEN,
    decreases (if p + len <= b.len() {
        b.len() - (p + len) + 1
    } else {
        0
    }),
{
    reveal(string_scan);
    match byte_at(b, p + len) {
        None => {},
        Some(x) => if x == 0x27 {
        } else if x == 0x5c {
            match byte_at(b, p + len + 1) {
                None => {},
                Some(e) => {
                    assert(char_width(e) >= 1);
                    lemma_string_scan_kind(b, p, len + 1 + char_width(e));
                },
            }
        } else {
            assert(char_width(x) >= 1);
            lemma_string_scan_kind(b, p, len + char_width(x));
        },
    }
}

/// The token scanned at any position of any input, when its kind has a
/// fixed spelling, covers exactly that spelling.
pub proof fn lemma_scan_spells_its_kind(b: Seq<u8>, p: int)
    requires
        0 <= p < b.len(),
    ensures
        spelling(scan(b, p).0) matches Some(s) ==> p + scan(b, p).1 <= b.len() && b.subrange(
            p,
            p + scan(b, p).1,
        ) == s,
{
    reveal(scan);
    lemma_string_scan_kind(b, p, 1);
    let (k, len) = scan(b, p);
    if let Some(s) = spelling(k) {
        assert(p + len <= b.len());
        assert(b.subrange(p, p + len) =~= s);
    }
}

/// The total length of a token list with one more token in front.
proof fn lemma_total_len_cons<K>(t: (K, int), s: Seq<(K, int)>)
    ensures
        total_len(seq![t] + s) == t.1 + total_len(s),
    decreases s.len(),
{
    if s.len() == 0 {
        assert(seq![t] + s =~= seq![t]);
        assert(seq![t].drop_last() =~= Seq::<(K, int)>::empty());
        assert(seq![t].last() == t);
        assert(total_len(Seq::<(K, int)>::empty()) == 0);
    } else {
        assert((seq![t] + s).drop_last() =~= seq![t] + s.drop_last());
        assert((seq![t] + s).last() == s.last());
        lemma_total_len_cons(t, s.drop_last());
    }
}

/// Token `i` of the stream from `p` is the token scanned where it starts.
proof fn lemma_lex_from_index(b: Seq<u8>, p: int, i: int)
    requires
        0 <= i < lex_from(b, p).len(),
    ensures
        0 <= p + token_start(lex_from(b, p), i) < b.len(),
        lex_from(b, p)[i] == scan(b, p + token_start(lex_from(b, p), i)),
    decreases i,
{
    let s = lex_from(b, p);
    let t = scan(b, p);
    let rest = lex_from(b, p + t.1);
    assert(s == seq![t] + rest);
    if i == 0 {
        assert(s.take(0) =~= Seq::<(SyntaxKind, int)>::empty());
    } else {
        lemma_lex_from_index(b, p + t.1, i - 1);
        assert(s.take(i) =~= seq![t] + rest.take(i - 1));
        lemma_total_len_cons(t, rest.take(i - 1));
        assert(s[i] == rest[i - 1]);
    }
}

/// A token's kind fixes its text: every token of the stream of any input
/// ([`lex`] returns exactly this stream) whose kind has a fixed spelling
/// covers exactly that spelling in the input, so `%` is `PERCENT`, `<` is
/// `LT`, and so on.
pub proof fn lemma_lex_spells_kinds(b: Seq<u8>)
    ensures
        forall|i: int|
            0 <= i < lex_from(b, 0).len() ==> (spelling((#[trigger] lex_from(b, 0)[i]).0) matches Some(
                s,
            ) ==> b.subrange(
                token_start(lex_from(b, 0), i),
                token_start(lex_from(b, 0), i) + lex_from(b, 0)[i].1,
            ) == s),
{
    assert forall|i: int| 0 <= i < lex_from(b, 0).len() implies (spelling(
        (#[trigger] lex_from(b, 0)[i]).0,
    ) matches Some(s) ==> b.subrange(
        token_start(lex_from(b, 0), i),
        token_start(lex_from(b, 0), i) + lex_from(b, 0)[i].1,
    ) == s) by {
        lemma_lex_from_index(b, 0, i);
        lemma_scan_spells_its_kind(b, token_start(lex_from(b, 0), i));
    }
}

} // verus!
