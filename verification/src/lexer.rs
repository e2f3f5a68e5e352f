//! The front end's lexer. Lossless: every byte of the source lands in
//! exactly one token, whitespace and comments included. A sequence the lexer
//! cannot type becomes an `ERROR` token rather than a failure.
//!
//! It reads the source exactly as [`crate::lex`] does, under this tree's
//! kind names, except for strings: a `\` escapes the one byte after it, and
//! an unterminated string is one error token covering the rest of the input.

use vstd::prelude::*;
use vstd::string::StringSliceAdditionalSpecFns;
use vstd::utf8::*;

use crate::kind::SyntaxKind as TreeKind;
use crate::lex::{
    lemma_after_ascii, lemma_src_bytes, lemma_total_len_push, scan, token_start, total_len,
};
use crate::parse::text_at;
use crate::syntax::SyntaxKind;

verus! {

/// One lexed token: its kind, the source slice it covers, and the byte
/// offset of its first byte.
#[derive(Debug, Clone, Copy, PartialEq, Eq)]
pub struct Token<'s> {
    pub kind: SyntaxKind,
    pub text: &'s str,
    pub start: usize,
}

impl<'s> Token<'s> {
    /// The byte offset just past the token.
    pub fn end(&self) -> (r: usize)
        requires
            self.start + self.text.spec_bytes().len() <= usize::MAX,
        ensures
            r == self.start + self.text.spec_bytes().len(),
    {
        self.start + self.text.len()
    }

    /// The token's byte range.
    pub fn range(&self) -> (r: std::ops::Range<usize>)
        requires
            self.start + self.text.spec_bytes().len() <= usize::MAX,
        ensures
            r.start == self.start,
            r.end == self.start + self.text.spec_bytes().len(),
    {
        self.start..self.end()
    }
}

/// A kind of the lossless tree under this tree's name.
pub open spec fn rename(k: TreeKind) -> SyntaxKind {
    match k {
        TreeKind::WHITESPACE => SyntaxKind::WHITESPACE,
        TreeKind::NEWLINE => SyntaxKind::BREAK,
        TreeKind::COMMENT => SyntaxKind::COMMENT,
        TreeKind::NUMBER => SyntaxKind::NUMBER,
        TreeKind::STRING => SyntaxKind::STRING,
        TreeKind::IDENT => SyntaxKind::IDENT,
        TreeKind::OPEN_PAREN => SyntaxKind::L_PAREN,
        TreeKind::CLOSE_PAREN => SyntaxKind::R_PAREN,
        TreeKind::OPEN_BRACK => SyntaxKind::L_BRACK,
        TreeKind::CLOSE_BRACK => SyntaxKind::R_BRACK,
        TreeKind::OPEN_BRACE => SyntaxKind::L_BRACE,
        TreeKind::CLOSE_BRACE => SyntaxKind::R_BRACE,
        TreeKind::EQ_EQ => SyntaxKind::EQ2,
        TreeKind::BANG_EQ => SyntaxKind::BANG_EQ,
        TreeKind::LT => SyntaxKind::LT,
        TreeKind::LT_EQ => SyntaxKind::LT_EQ,
        TreeKind::GT => SyntaxKind::GT,
        TreeKind::GT_EQ => SyntaxKind::GT_EQ,
        TreeKind::AND_AND => SyntaxKind::AMP2,
        TreeKind::OR_OR => SyntaxKind::PIPE2,
        TreeKind::BANG => SyntaxKind::BANG,
        TreeKind::PLUS => SyntaxKind::PLUS,
        TreeKind::MINUS => SyntaxKind::MINUS,
        TreeKind::STAR => SyntaxKind::STAR,
        TreeKind::SLASH => SyntaxKind::SLASH,
        TreeKind::PERCENT => SyntaxKind::PERCENT,
        TreeKind::CARET => SyntaxKind::CARET,
        TreeKind::EQ => SyntaxKind::EQ,
        TreeKind::PLUS_EQ => SyntaxKind::PLUS_EQ,
        TreeKind::SWAP => SyntaxKind::LT_GT,
        TreeKind::TILDE => SyntaxKind::TILDE,
        TreeKind::COLON => SyntaxKind::COLON,
        TreeKind::DOT => SyntaxKind::DOT,
        TreeKind::ELLIPSIS => SyntaxKind::DOT3,
        TreeKind::COMMA => SyntaxKind::COMMA,
        TreeKind::SEMICOLON => SyntaxKind::SEMICOLON,
        TreeKind::ARROW => SyntaxKind::ARROW,
        _ => SyntaxKind::ERROR,
    }
}

/// A kind of the lossless tree under this tree's name.
fn rename_exec(k: TreeKind) -> (r: SyntaxKind)
    ensures
        r == rename(k),
{
    match k {
        TreeKind::WHITESPACE => SyntaxKind::WHITESPACE,
        TreeKind::NEWLINE => SyntaxKind::BREAK,
        TreeKind::COMMENT => SyntaxKind::COMMENT,
        TreeKind::NUMBER => SyntaxKind::NUMBER,
        TreeKind::STRING => SyntaxKind::STRING,
        TreeKind::IDENT => SyntaxKind::IDENT,
        TreeKind::OPEN_PAREN => SyntaxKind::L_PAREN,
        TreeKind::CLOSE_PAREN => SyntaxKind::R_PAREN,
        TreeKind::OPEN_BRACK => SyntaxKind::L_BRACK,
        TreeKind::CLOSE_BRACK => SyntaxKind::R_BRACK,
        TreeKind::OPEN_BRACE => SyntaxKind::L_BRACE,
        TreeKind::CLOSE_BRACE => SyntaxKind::R_BRACE,
        TreeKind::EQ_EQ => SyntaxKind::EQ2,
        TreeKind::BANG_EQ => SyntaxKind::BANG_EQ,
        TreeKind::LT => SyntaxKind::LT,
        TreeKind::LT_EQ => SyntaxKind::LT_EQ,
        TreeKind::GT => SyntaxKind::GT,
        TreeKind::GT_EQ => SyntaxKind::GT_EQ,
        TreeKind::AND_AND => SyntaxKind::AMP2,
        TreeKind::OR_OR => SyntaxKind::PIPE2,
        TreeKind::BANG => SyntaxKind::BANG,
        TreeKind::PLUS => SyntaxKind::PLUS,
        TreeKind::MINUS => SyntaxKind::MINUS,
        TreeKind::STAR => SyntaxKind::STAR,
        TreeKind::SLASH => SyntaxKind::SLASH,
        TreeKind::PERCENT => SyntaxKind::PERCENT,
        TreeKind::CARET => SyntaxKind::CARET,
        TreeKind::EQ => SyntaxKind::EQ,
        TreeKind::PLUS_EQ => SyntaxKind::PLUS_EQ,
        TreeKind::SWAP => SyntaxKind::LT_GT,
        TreeKind::TILDE => SyntaxKind::TILDE,
        TreeKind::COLON => SyntaxKind::COLON,
        TreeKind::DOT => SyntaxKind::DOT,
        TreeKind::ELLIPSIS => SyntaxKind::DOT3,
        TreeKind::COMMA => SyntaxKind::COMMA,
        TreeKind::SEMICOLON => SyntaxKind::SEMICOLON,
        TreeKind::ARROW => SyntaxKind::ARROW,
        _ => SyntaxKind::ERROR,
    }
}

/// A single-quoted string starting at `p`, `i` bytes in: a `\` skips the
/// byte after it; an unterminated string is an error to the end of input.
pub open spec fn string_len(b: Seq<u8>, p: int, i: int) -> (SyntaxKind, int)
    decreases b.len() + 2 - (p + i),
{
    if p + i >= b.len() || p + i < 0 {
        (SyntaxKind::ERROR, b.len() - p)
    } else if b[p + i] == 0x5c {
        string_len(b, p, i + 2)
    } else if b[p + i] == 0x27 {
        (SyntaxKind::STRING, i + 1)
    } else {
        string_len(b, p, i + 1)
    }
}

/// The kind and byte length of the token starting at `p`.
pub open spec fn token_at(b: Seq<u8>, p: int) -> (SyntaxKind, int) {
    if b[p] == 0x27 {
        string_len(b, p, 1)
    } else {
        (rename(scan(b, p).0), scan(b, p).1)
    }
}

/// The token stream of `b` from position `p` on, as (kind, length) pairs.
pub open spec fn tokens_from(b: Seq<u8>, p: int) -> Seq<(SyntaxKind, int)>
    decreases b.len() - p,
{
    if 0 <= p < b.len() && 0 < token_at(b, p).1 && p + token_at(b, p).1 <= b.len() {
        seq![token_at(b, p)] + tokens_from(b, p + token_at(b, p).1)
    } else {
        seq![]
    }
}

/// A single-quoted string at `p`.
fn string(b: &[u8], p: usize) -> (r: (SyntaxKind, usize))
    requires
        valid_utf8(b@),
        p < b.len(),
        b[p as int] == 0x27,
    ensures
        (r.0, r.1 as int) == string_len(b@, p as int, 1),
        r.1 > 0,
        p + r.1 <= b.len(),
        is_char_boundary(b@, p + r.1),
{
    let mut i: usize = 1;
    while p + i < b.len()
        invariant
            valid_utf8(b@),
            p < b.len(),
            1 <= i <= b.len() - p,
            string_len(b@, p as int, i as int) == string_len(b@, p as int, 1),
        decreases b.len() - (p + i),
    {
        let x = b[p + i];
        if x == 0x5c {
            if b.len() - (p + i) <= 2 {
                proof {
                    assert(string_len(b@, p as int, i + 2) == (SyntaxKind::ERROR, b.len() - p));
                    is_char_boundary_start_end_of_seq(b@);
                }
                return (SyntaxKind::ERROR, b.len() - p);
            }
            i = i + 2;
        } else if x == 0x27 {
            proof {
                lemma_after_ascii(b@, p + i + 1);
            }
            return (SyntaxKind::STRING, i + 1);
        } else {
            i = i + 1;
        }
    }
    proof {
        is_char_boundary_start_end_of_seq(b@);
    }
    (SyntaxKind::ERROR, b.len() - p)
}

/// Scans one token at `p`, returning its kind and byte length.
fn next_token(b: &[u8], p: usize) -> (r: (SyntaxKind, usize))
    requires
        valid_utf8(b@),
        is_char_boundary(b@, p as int),
        p < b.len(),
    ensures
        (r.0, r.1 as int) == token_at(b@, p as int),
        r.1 > 0,
        p + r.1 <= b.len(),
        is_char_boundary(b@, p + r.1),
{
    if b[p] == 0x27 {
        string(b, p)
    } else {
        let (k, len) = crate::lex::next_token(b, p);
        (rename_exec(k), len)
    }
}

/// The (kind, length) view of a token list.
pub open spec fn token_pairs(toks: Seq<Token>) -> Seq<(SyntaxKind, int)> {
    toks.map_values(|t: Token| (t.kind, t.text.spec_bytes().len() as int))
}

/// The texts of a token list, concatenated.
pub open spec fn texts_concat(toks: Seq<Token>) -> Seq<char>
    decreases toks.len(),
{
    if toks.len() == 0 {
        seq![]
    } else {
        texts_concat(toks.drop_last()) + toks.last().text@
    }
}

/// Every token starts on a character boundary of the source.
#[verifier::opaque]
pub open spec fn starts_on_boundaries(src: &str, toks: Seq<Token>) -> bool {
    forall|i: int|
        0 <= i < toks.len() ==> is_char_boundary(src.spec_bytes(), (#[trigger] toks[i]).start as int)
}

/// Lexes the whole source. Infallible; unknown sequences come back as
/// `ERROR` tokens.
///
/// The stream is exactly [`tokens_from`] of the source bytes; every token is
/// non-empty, starts on a character boundary where the previous one ended,
/// and covers its own text. Lossless: the tokens' texts, concatenated, are
/// the source.
pub fn lex(src: &str) -> (toks: Vec<Token<'_>>)
    ensures
        token_pairs(toks@) == tokens_from(src.spec_bytes(), 0),
        forall|i: int|
            0 <= i < toks.len() ==> {
                &&& (#[trigger] toks@[i]).start == token_start(token_pairs(toks@), i)
                &&& toks@[i].text.spec_bytes().len() > 0
                &&& toks@[i].text@ == text_at(
                    src,
                    toks@[i].start as int,
                    toks@[i].start + toks@[i].text.spec_bytes().len(),
                )
            },
        total_len(token_pairs(toks@)) == src.spec_bytes().len(),
        starts_on_boundaries(src, toks@),
        src.spec_bytes().len() <= usize::MAX,
        texts_concat(toks@) == src@,
{
    let b = src.as_bytes();
    proof {
        lemma_src_bytes(src);
    }
    let mut toks: Vec<Token> = Vec::new();
    let mut pos: usize = 0;
    while pos < b.len()
        invariant
            b@ == src.spec_bytes(),
            valid_utf8(b@),
            pos <= b.len(),
            is_char_boundary(b@, pos as int),
            token_pairs(toks@) + tokens_from(b@, pos as int) == tokens_from(b@, 0),
            total_len(token_pairs(toks@)) == pos,
            forall|i: int|
                0 <= i < toks.len() ==> {
                    &&& (#[trigger] toks@[i]).start == token_start(token_pairs(toks@), i)
                    &&& toks@[i].text.spec_bytes().len() > 0
                    &&& is_char_boundary(src.spec_bytes(), toks@[i].start as int)
                    &&& toks@[i].text@ == text_at(
                        src,
                        toks@[i].start as int,
                        toks@[i].start + toks@[i].text.spec_bytes().len(),
                    )
                },
        decreases b.len() - pos,
    {
        let (kind, len) = next_token(b, pos);
        let text = crate::parse::slice_str(src, pos, pos + len);
        let ghost old_view = token_pairs(toks@);
        toks.push(Token { kind, text, start: pos });
        proof {
            assert(token_pairs(toks@) =~= old_view.push((kind, len as int)));
            lemma_total_len_push(old_view, (kind, len as int));
            assert(tokens_from(b@, pos as int) == seq![(kind, len as int)] + tokens_from(
                b@,
                pos + len,
            ));
            assert(token_pairs(toks@) + tokens_from(b@, pos + len) =~= old_view + tokens_from(
                b@,
                pos as int,
            ));
            assert forall|i: int| 0 <= i < toks.len() implies {
                &&& (#[trigger] toks@[i]).start == token_start(token_pairs(toks@), i)
                &&& toks@[i].text.spec_bytes().len() > 0
                &&& is_char_boundary(src.spec_bytes(), toks@[i].start as int)
                &&& toks@[i].text@ == text_at(
                    src,
                    toks@[i].start as int,
                    toks@[i].start + toks@[i].text.spec_bytes().len(),
                )
            } by {
                assert(token_pairs(toks@).take(i) =~= old_view.take(i)) by {
                    if i < toks.len() - 1 {
                    }
                }
                if i == toks.len() - 1 {
                    assert(old_view.take(i) =~= old_view);
                }
            }
        }
        pos = pos + len;
    }
    proof {
        assert(tokens_from(b@, pos as int) =~= Seq::<(SyntaxKind, int)>::empty());
        assert(token_pairs(toks@) =~= tokens_from(b@, 0));
        reveal(starts_on_boundaries);
        crate::parser::lemma_lexed_text(src, toks@);
    }
    toks
}

// ====================================================================
// What a token's kind says of its text
// ====================================================================

/// Renaming a kind keeps its fixed spelling: a kind of the lossless tree
/// and its name here spell the same text, or both vary.
pub proof fn lemma_rename_keeps_spelling(k: TreeKind)
    ensures
        crate::syntax::spelling(rename(k)) == crate::lex::spelling(k),
{
}

/// A string token at `p` is a string or, unterminated, an error.
proof fn lemma_string_len_kind(b: Seq<u8>, p: int, i: int)
    ensures
        string_len(b, p, i).0 == SyntaxKind::STRING || string_len(b, p, i).0 == SyntaxKind::ERROR,
    decreases b.len() + 2 - (p + i),
{
    if p + i >= b.len() || p + i < 0 {
    } else if b[p + i] == 0x5c {
        lemma_string_len_kind(b, p, i + 2);
    } else if b[p + i] == 0x27 {
    } else {
        lemma_string_len_kind(b, p, i + 1);
    }
}

/// The token at any position of any input, when its kind has a fixed
/// spelling, covers exactly that spelling.
pub proof fn lemma_token_at_spells_its_kind(b: Seq<u8>, p: int)
    requires
        0 <= p < b.len(),
    ensures
        crate::syntax::spelling(token_at(b, p).0) matches Some(s) ==> p + token_at(b, p).1
            <= b.len() && b.subrange(p, p + token_at(b, p).1) == s,
{
    if b[p] == 0x27 {
        lemma_string_len_kind(b, p, 1);
    } else {
        lemma_rename_keeps_spelling(scan(b, p).0);
        crate::lex::lemma_scan_spells_its_kind(b, p);
    }
}

/// The total length of a token list with one more token in front.
proof fn lemma_total_len_front(t: (SyntaxKind, int), s: Seq<(SyntaxKind, int)>)
    ensures
        total_len(seq![t] + s) == t.1 + total_len(s),
    decreases s.len(),
{
    if s.len() == 0 {
        assert(seq![t] + s =~= seq![t]);
        assert(seq![t].drop_last() =~= Seq::<(SyntaxKind, int)>::empty());
        assert(seq![t].last() == t);
        assert(total_len(Seq::<(SyntaxKind, int)>::empty()) == 0);
    } else {
        assert((seq![t] + s).drop_last() =~= seq![t] + s.drop_last());
        assert((seq![t] + s).last() == s.last());
        lemma_total_len_front(t, s.drop_last());
    }
}

/// Token `i` of the stream from `p` is the token at where it starts.
proof fn lemma_tokens_from_index(b: Seq<u8>, p: int, i: int)
    requires
        0 <= i < tokens_from(b, p).len(),
    ensures
        0 <= p + token_start(tokens_from(b, p), i) < b.len(),
        tokens_from(b, p)[i] == token_at(b, p + token_start(tokens_from(b, p), i)),
    decreases i,
{
    let s = tokens_from(b, p);
    let t = token_at(b, p);
    let rest = tokens_from(b, p + t.1);
    assert(s == seq![t] + rest);
    if i == 0 {
        assert(s.take(0) =~= Seq::<(SyntaxKind, int)>::empty());
    } else {
        lemma_tokens_from_index(b, p + t.1, i - 1);
        assert(s.take(i) =~= seq![t] + rest.take(i - 1));
        lemma_total_len_front(t, rest.take(i - 1));
        assert(s[i] == rest[i - 1]);
    }
}

/// A token's kind fixes its text: every token of the stream of any input
/// ([`lex`] returns exactly this stream) whose kind has a fixed spelling
/// covers exactly that spelling in the input, so `<` is `LT`, `%` is
/// `PERCENT`, and so on.
pub proof fn lemma_lex_spells_kinds(b: Seq<u8>)
    ensures
        forall|i: int|
            0 <= i < tokens_from(b, 0).len() ==> (crate::syntax::spelling(
                (#[trigger] tokens_from(b, 0)[i]).0,
            ) matches Some(s) ==> b.subrange(
                token_start(tokens_from(b, 0), i),
                token_start(tokens_from(b, 0), i) + tokens_from(b, 0)[i].1,
            ) == s),
{
    assert forall|i: int| 0 <= i < tokens_from(b, 0).len() implies (crate::syntax::spelling(
        (#[trigger] tokens_from(b, 0)[i]).0,
    ) matches Some(s) ==> b.subrange(
        token_start(tokens_from(b, 0), i),
        token_start(tokens_from(b, 0), i) + tokens_from(b, 0)[i].1,
    ) == s) by {
        lemma_tokens_from_index(b, 0, i);
        lemma_token_at_spells_its_kind(b, token_start(tokens_from(b, 0), i));
    }
}

} // verus!
