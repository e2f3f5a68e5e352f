//! The recursive-descent parser: reads a token stream into the preorder
//! events of a lossless syntax tree, following the grammar of
//! [`crate::grammar`] step for step. Fail-fast: the first violation of the
//! grammar ends the parse, and the farthest-failure recorder says what was
//! expected there.

use vstd::prelude::*;
use vstd::string::StringSliceAdditionalSpecFns;
use vstd::utf8::{
    decode_utf8, decode_utf8_split, encode_utf8, encode_utf8_decode_utf8, encode_utf8_valid_utf8, is_char_boundary,
    valid_utf8_split,
};

use crate::grammar::{
    Expect, PState, PRes, expect_text, source_file, at_comma_chain_end, at_level_op, at_seq_chain_end, bump, closer_expect,
    comma_rest, cur_offset, delim_items, flush, is_left_level, is_level_op,
    is_prefix_op, is_right_level, left_rest, lemma_next_sig, lemma_next_sig_at_sig, lemma_step_balanced,
    lemma_token_events_empty, lemma_token_events_snoc, next_sig, peek, peek2, prepend,
    progressed, record, rule, semis, seq_rest, token_events, wrap,
};
use crate::grammar;
use crate::green::{
    builder_finish, builder_finish_node, builder_log, builder_new, builder_start_node, builder_token,
    green_clone, green_preorder, log_bytes, log_depth, log_text, one_node,
};
use crate::kind::SyntaxKind;
use crate::lex::{
    lemma_boundary_suffix, lemma_token_start_end, lemma_token_start_mono, lemma_token_start_step, lex, lex_from,
    token_start, token_view, total_len,
};
use crate::tree::{
    Event, Tok, balanced, depth, lemma_balanced_concat, lemma_depth_concat, lemma_balanced_tokens, lemma_balanced_wrap,
    lemma_tokens_of_concat, lemma_tokens_of_insert, lemma_tokens_of_push, tokens_of,
};

verus! {

/// The parser's working state: the token stream, the cursor, the events
/// emitted so far, and the farthest-failure recorder.
pub struct Parser {
    tokens: Vec<Tok>,
    src_len: usize,
    pos: usize,
    events: Vec<Event>,
    expected: Vec<Expect>,
    expected_at: usize,
}

impl Parser {
    /// The grammar state this parser is in.
    pub closed spec fn st(&self) -> PState {
        PState {
            pos: self.pos as int,
            expected: self.expected@,
            expected_at: self.expected_at as int,
        }
    }

    /// The token stream.
    pub closed spec fn toks(&self) -> Seq<Tok> {
        self.tokens@
    }

    /// The source length in bytes.
    pub closed spec fn n(&self) -> int {
        self.src_len as int
    }

    /// The events emitted so far.
    pub closed spec fn evs(&self) -> Seq<Event> {
        self.events@
    }

    /// The cursor lies within the stream, every token starts within the
    /// source, and the stream's length leaves room to count past its end.
    pub closed spec fn wf(&self) -> bool {
        &&& self.pos <= self.tokens.len()
        &&& tokens_of(self.events@) == self.tokens@.subrange(0, self.pos as int)
        &&& forall|i: int|
            0 <= i < self.tokens.len() ==> (#[trigger] self.tokens@[i]).start <= self.src_len
    }

    /// `self` and `other` read the same input.
    pub closed spec fn same_input(&self, other: &Parser) -> bool {
        self.tokens@ == other.tokens@ && self.src_len == other.src_len
    }

    /// The index of the first significant token at or after `i`.
    fn next_sig(&self, i: usize) -> (j: usize)
        requires
            self.wf(),
            i <= self.tokens.len(),
        ensures
            j == next_sig(self.toks(), i as int),
    {
        let mut j = i;
        while j < self.tokens.len() && self.tokens[j].kind.is_trivia()
            invariant
                self.wf(),
                i <= j <= self.tokens.len(),
                next_sig(self.toks(), j as int) == next_sig(self.toks(), i as int),
            decreases self.tokens.len() - j,
        {
            j = j + 1;
        }
        j
    }

    /// The kind of the next significant token.
    fn peek(&self) -> (r: Option<SyntaxKind>)
        requires
            self.wf(),
        ensures
            r == peek(self.toks(), self.st()),
    {
        let j = self.next_sig(self.pos);
        if j < self.tokens.len() {
            Some(self.tokens[j].kind)
        } else {
            None
        }
    }

    /// The kind of the significant token after the next one.
    fn nth1(&self) -> (r: Option<SyntaxKind>)
        requires
            self.wf(),
        ensures
            r == peek2(self.toks(), self.st()),
    {
        let j = self.next_sig(self.pos);
        proof {
            lemma_next_sig(self.toks(), self.pos as int);
        }
        if j < self.tokens.len() {
            let k = self.next_sig(j + 1);
            if k < self.tokens.len() {
                Some(self.tokens[k].kind)
            } else {
                None
            }
        } else {
            None
        }
    }

    /// Byte offset of the next significant token, or the source length at
    /// the end.
    fn cur_offset(&self) -> (r: usize)
        requires
            self.wf(),
        ensures
            r == cur_offset(self.toks(), self.n(), self.st()),
            r <= self.src_len,
    {
        let j = self.next_sig(self.pos);
        if j < self.tokens.len() {
            self.tokens[j].start
        } else {
            self.src_len
        }
    }

    /// Records `label` as expected at the current position.
    fn expected(&mut self, label: Expect)
        requires
            old(self).wf(),
        ensures
            final(self).wf(),
            final(self).same_input(old(self)),
            final(self).evs() == old(self).evs(),
            final(self).st() == record(old(self).toks(), old(self).n(), old(self).st(), label),
    {
        let at = self.cur_offset();
        if at > self.expected_at {
            self.expected = vec![label];
            self.expected_at = at;
            proof {
                assert(self.expected@ =~= seq![label]);
            }
        } else {
            let mut i: usize = 0;
            let mut found = false;
            while i < self.expected.len()
                invariant
                    i <= self.expected.len(),
                    found <==> exists|k: int| 0 <= k < i && self.expected@[k] == label,
                decreases self.expected.len() - i,
            {
                if self.expected[i] == label {
                    found = true;
                }
                i = i + 1;
            }
            proof {
                if found {
                    let k = choose|k: int| 0 <= k < i && self.expected@[k] == label;
                    assert(self.expected@.contains(label)) by {
                        assert(self.expected@[k] == label);
                    }
                } else {
                    assert(!self.expected@.contains(label));
                }
            }
            if !found {
                self.expected.push(label);
            }
        }
    }

    /// Emits all pending trivia tokens.
    fn flush_trivia(&mut self)
        requires
            old(self).wf(),
        ensures
            final(self).wf(),
            final(self).same_input(old(self)),
            final(self).evs() == old(self).evs() + flush(old(self).toks(), old(self).st()).0,
            final(self).st() == flush(old(self).toks(), old(self).st()).1,
            next_sig(final(self).toks(), final(self).pos as int) == final(self).pos,
            peek(final(self).toks(), final(self).st()) == peek(old(self).toks(), old(self).st()),
            peek2(final(self).toks(), final(self).st()) == peek2(old(self).toks(), old(self).st()),
            cur_offset(final(self).toks(), final(self).n(), final(self).st()) == cur_offset(
                old(self).toks(),
                old(self).n(),
                old(self).st(),
            ),
    {
        let ghost s = self.st();
        let ghost ev0 = self.events@;
        let ghost t = self.tokens@;
        proof {
            lemma_token_events_empty(t, s.pos);
            assert(self.events@ =~= ev0 + token_events(t, s.pos, s.pos));
        }
        while self.pos < self.tokens.len() && self.tokens[self.pos].kind.is_trivia()
            invariant
                self.wf(),
                self.tokens@ == t,
                self.src_len == old(self).src_len,
                self.expected@ == s.expected,
                self.expected_at == s.expected_at,
                0 <= s.pos <= self.pos,
                next_sig(t, self.pos as int) == next_sig(t, s.pos),
                self.events@ == ev0 + token_events(t, s.pos, self.pos as int),
            decreases self.tokens.len() - self.pos,
        {
            let tok = self.tokens[self.pos];
            let ghost before = self.events@;
            self.events.push(Event::Token(tok));
            proof {
                lemma_tokens_of_push(before, Event::Token(tok));
                assert(t.subrange(0, self.pos + 1) =~= t.subrange(0, self.pos as int).push(tok));
                lemma_token_events_snoc(t, s.pos, self.pos as int);
                assert(self.events@ =~= ev0 + token_events(t, s.pos, self.pos + 1));
            }
            self.pos = self.pos + 1;
        }
        proof {
            lemma_next_sig(t, s.pos);
            lemma_next_sig_at_sig(t, self.pos as int);
        }
    }

    /// Emits the pending trivia and then the next significant token.
    fn bump(&mut self)
        requires
            old(self).wf(),
            peek(old(self).toks(), old(self).st()) is Some,
        ensures
            final(self).wf(),
            final(self).same_input(old(self)),
            final(self).evs() == old(self).evs() + bump(old(self).toks(), old(self).st()).0,
            final(self).st() == bump(old(self).toks(), old(self).st()).1,
            final(self).pos > old(self).pos,
    {
        let ghost s = self.st();
        let ghost t = self.tokens@;
        proof {
            lemma_next_sig(t, s.pos);
        }
        self.flush_trivia();
        let tok = self.tokens[self.pos];
        let ghost before = self.events@;
        self.events.push(Event::Token(tok));
        proof {
            lemma_tokens_of_push(before, Event::Token(tok));
            assert(t.subrange(0, self.pos + 1) =~= t.subrange(0, self.pos as int).push(tok));
            lemma_token_events_snoc(t, s.pos, self.pos as int);
            assert(self.events@ =~= old(self).events@ + bump(t, s).0);
        }
        self.pos = self.pos + 1;
    }

    /// Opens a node of `kind` after flushing pending trivia.
    fn start_node(&mut self, kind: SyntaxKind)
        requires
            old(self).wf(),
        ensures
            final(self).wf(),
            final(self).same_input(old(self)),
            final(self).evs() == old(self).evs() + flush(old(self).toks(), old(self).st()).0 + seq![
                Event::Start(kind),
            ],
            final(self).st() == flush(old(self).toks(), old(self).st()).1,
            peek(final(self).toks(), final(self).st()) == peek(old(self).toks(), old(self).st()),
            peek2(final(self).toks(), final(self).st()) == peek2(old(self).toks(), old(self).st()),
    {
        self.flush_trivia();
        let ghost before = self.events@;
        self.events.push(Event::Start(kind));
        proof {
            lemma_tokens_of_push(before, Event::Start(kind));
        }
    }

    /// Closes the innermost open node.
    fn finish_node(&mut self)
        requires
            old(self).wf(),
        ensures
            final(self).wf(),
            final(self).same_input(old(self)),
            final(self).evs() == old(self).evs().push(Event::Finish),
            final(self).st() == old(self).st(),
    {
        let ghost before = self.events@;
        self.events.push(Event::Finish);
        proof {
            lemma_tokens_of_push(before, Event::Finish);
        }
    }

    /// Whether the next significant token is of `kind`.
    fn at(&self, kind: SyntaxKind) -> (b: bool)
        requires
            self.wf(),
        ensures
            b == (peek(self.toks(), self.st()) == Some(kind)),
    {
        match self.peek() {
            Some(k) => k == kind,
            None => false,
        }
    }

    /// Whether the next token ends a comma chain.
    fn at_comma_chain_end(&self) -> (b: bool)
        requires
            self.wf(),
        ensures
            b == at_comma_chain_end(self.toks(), self.st()),
    {
        match self.peek() {
            Some(k) => k.is_closer(),
            None => true,
        }
    }

    /// Whether the next token ends a semi chain.
    fn at_seq_chain_end(&self) -> (b: bool)
        requires
            self.wf(),
        ensures
            b == at_seq_chain_end(self.toks(), self.st()),
    {
        self.at_comma_chain_end() || self.at(SyntaxKind::COMMA)
    }

    /// Whether the next token is an operator of binary level `lvl`.
    fn at_level_op(&self, lvl: usize) -> (b: bool)
        requires
            self.wf(),
        ensures
            b == at_level_op(self.toks(), lvl as int, self.st()),
    {
        match self.peek() {
            Some(k) => is_level_op_exec(lvl, k),
            None => false,
        }
    }
}

/// The operator tokens of binary level `lvl`.
fn is_level_op_exec(lvl: usize, k: SyntaxKind) -> (b: bool)
    ensures
        b == is_level_op(lvl as int, k),
{
    match lvl {
        1 => k == SyntaxKind::TILDE || k == SyntaxKind::COLON,
        3 => k == SyntaxKind::CARET,
        4 => k == SyntaxKind::STAR || k == SyntaxKind::SLASH || k == SyntaxKind::PERCENT,
        5 => k == SyntaxKind::PLUS || k == SyntaxKind::MINUS,
        6 => k == SyntaxKind::LT || k == SyntaxKind::LT_EQ || k == SyntaxKind::GT || k
            == SyntaxKind::GT_EQ,
        7 => k == SyntaxKind::EQ_EQ || k == SyntaxKind::BANG_EQ,
        8 => k == SyntaxKind::AND_AND,
        9 => k == SyntaxKind::OR_OR,
        10 => k == SyntaxKind::EQ || k == SyntaxKind::PLUS_EQ || k == SyntaxKind::SWAP,
        11 => k == SyntaxKind::ARROW,
        _ => false,
    }
}

/// The prefix operators.
fn is_prefix_op_exec(k: SyntaxKind) -> (b: bool)
    ensures
        b == is_prefix_op(k),
{
    k == SyntaxKind::PLUS || k == SyntaxKind::MINUS || k == SyntaxKind::BANG || k
        == SyntaxKind::ELLIPSIS
}

// ====================================================================
// Tokens
// ====================================================================

/// The lexed stream of `src` as (kind, length) pairs.
pub open spec fn lexed(src: &str) -> Seq<(SyntaxKind, int)> {
    lex_from(src.spec_bytes(), 0)
}

/// `toks` is the lexed stream of `src` with each token's byte range
/// resolved: token `i` covers `token_start(i) .. token_start(i + 1)`.
pub open spec fn resolves(toks: Seq<Tok>, src: &str) -> bool {
    let l = lexed(src);
    &&& toks.len() == l.len()
    &&& forall|i: int|
        0 <= i < toks.len() ==> {
            &&& (#[trigger] toks[i]).kind == l[i].0
            &&& toks[i].start == token_start(l, i)
            &&& toks[i].end == token_start(l, i + 1)
        }
}

/// The resolved token stream of `src`.
pub open spec fn resolved(src: &str) -> Seq<Tok> {
    let l = lexed(src);
    Seq::new(
        l.len(),
        |i: int| Tok { kind: l[i].0, start: token_start(l, i) as usize, end: token_start(l, i + 1) as usize },
    )
}

/// Facts about a resolved stream: every range is non-empty, lies within the
/// source and starts and ends on character boundaries, and the ranges tile
/// the source.
#[verifier::opaque]
pub open spec fn tiles(toks: Seq<Tok>, src: &str) -> bool {
    &&& forall|i: int|
        0 <= i < toks.len() ==> {
            &&& (#[trigger] toks[i]).start < toks[i].end <= src.spec_bytes().len()
            &&& is_char_boundary(src.spec_bytes(), toks[i].start as int)
            &&& is_char_boundary(src.spec_bytes(), toks[i].end as int)
        }
    &&& forall|i: int| 0 < i < toks.len() ==> (#[trigger] toks[i]).start == toks[i - 1].end
    &&& toks.len() > 0 ==> toks[0].start == 0
    &&& toks.len() > 0 ==> toks.last().end == src.spec_bytes().len()
    &&& toks.len() == 0 ==> src.spec_bytes().len() == 0
}

/// One token's range from [`tiles`].
pub proof fn lemma_tile(toks: Seq<Tok>, src: &str, i: int)
    requires
        tiles(toks, src),
        0 <= i < toks.len(),
    ensures
        toks[i].start < toks[i].end <= src.spec_bytes().len(),
        is_char_boundary(src.spec_bytes(), toks[i].start as int),
        is_char_boundary(src.spec_bytes(), toks[i].end as int),
{
    reveal(tiles);
}

/// Consecutive tokens of [`tiles`] meet; the last ends the source.
pub proof fn lemma_tile_next(toks: Seq<Tok>, src: &str, i: int)
    requires
        tiles(toks, src),
        0 <= i < toks.len(),
    ensures
        toks[i].end == (if i + 1 < toks.len() {
            toks[i + 1].start as int
        } else {
            src.spec_bytes().len() as int
        }),
{
    reveal(tiles);
    if i + 1 < toks.len() {
        assert(toks[i + 1].start == toks[i + 1 - 1].end);
    } else {
        assert(toks.last() == toks[i]);
    }
}

/// The first token of [`tiles`] starts the source; no tokens, no source.
pub proof fn lemma_tile_ends(toks: Seq<Tok>, src: &str)
    requires
        tiles(toks, src),
    ensures
        toks.len() > 0 ==> toks[0].start == 0,
        toks.len() == 0 ==> src.spec_bytes().len() == 0,
{
    reveal(tiles);
}

/// Lexes `src` and resolves each token's byte range.
pub fn tokenize(src: &str) -> (toks: Vec<Tok>)
    requires
        src.spec_bytes().len() <= u32::MAX,
    ensures
        resolves(toks@, src),
        tiles(toks@, src),
        toks@ == resolved(src),
{
    let lexed_toks = lex(src);
    let ghost l = lexed(src);
    let ghost b = src.spec_bytes();
    proof {
        assert(token_view(lexed_toks@) == l);
        lemma_token_start_end(l);
        assert forall|k: int| 0 <= k < l.len() implies (#[trigger] l[k]).1 >= 0 by {
            assert(l[k] == token_view(lexed_toks@)[k]);
        }
        assert(l.take(0) =~= Seq::<(SyntaxKind, int)>::empty());
    }
    let mut out: Vec<Tok> = Vec::new();
    let mut offset: usize = 0;
    let mut i: usize = 0;
    while i < lexed_toks.len()
        invariant
            token_view(lexed_toks@) == l,
            l == lexed(src),
            b == src.spec_bytes(),
            total_len(l) == b.len(),
            b.len() <= u32::MAX,
            forall|k: int| 0 <= k < l.len() ==> (#[trigger] l[k]).1 >= 0,
            forall|k: int| 0 <= k < lexed_toks.len() ==> #[trigger] lexed_toks@[k].len > 0,
            forall|k: int|
                0 <= k <= lexed_toks.len() ==> is_char_boundary(b, #[trigger] token_start(l, k)),
            token_start(l, l.len() as int) == b.len(),
            i <= lexed_toks.len(),
            out.len() == i,
            offset == token_start(l, i as int),
            forall|k: int|
                0 <= k < i ==> {
                    &&& (#[trigger] out@[k]).kind == l[k].0
                    &&& out@[k].start == token_start(l, k)
                    &&& out@[k].end == token_start(l, k + 1)
                },
        decreases lexed_toks.len() - i,
    {
        let t = lexed_toks[i];
        proof {
            lemma_token_start_step(l, i as int);
            lemma_token_start_mono(l, i + 1, l.len() as int);
            assert(l[i as int] == token_view(lexed_toks@)[i as int]);
        }
        let start = offset;
        offset = offset + t.len as usize;
        out.push(Tok { kind: t.kind, start, end: offset });
        i = i + 1;
    }
    proof {
        assert forall|k: int| 0 <= k < out.len() implies {
            &&& (#[trigger] out@[k]).start < out@[k].end <= b.len()
            &&& is_char_boundary(b, out@[k].start as int)
            &&& is_char_boundary(b, out@[k].end as int)
        } by {
            lemma_token_start_step(l, k);
            lemma_token_start_mono(l, k + 1, l.len() as int);
            assert(l[k] == token_view(lexed_toks@)[k]);
            assert(lexed_toks@[k].len > 0);
        }
        if out.len() > 0 {
            assert(out@.last() == out@[out.len() - 1]);
        }
        reveal(tiles);
        assert(out@ =~= resolved(src));
    }
    out
}

/// The source text of the byte range `start..end`.
pub open spec fn text_at(src: &str, start: int, end: int) -> Seq<char> {
    decode_utf8(src.spec_bytes().subrange(start, end))
}

/// The slice of `src` over the byte range `start..end`, which starts and
/// ends on character boundaries.
pub(crate) fn slice_str<'a>(src: &'a str, start: usize, end: usize) -> (r: &'a str)
    requires
        start <= end <= src.spec_bytes().len(),
        is_char_boundary(src.spec_bytes(), start as int),
        is_char_boundary(src.spec_bytes(), end as int),
    ensures
        r.spec_bytes() == src.spec_bytes().subrange(start as int, end as int),
        r@ == text_at(src, start as int, end as int),
{
    let ghost b = src.spec_bytes();
    proof {
        encode_utf8_valid_utf8(src@);
        lemma_boundary_suffix(b, start as int, end as int);
    }
    let (_, rest) = src.split_at(start);
    proof {
        assert(rest.spec_bytes() == b.subrange(start as int, b.len() as int));
    }
    let (mid, _) = rest.split_at(end - start);
    proof {
        assert(mid.spec_bytes() =~= b.subrange(start as int, end as int));
        encode_utf8_decode_utf8(mid@);
    }
    mid
}

// ====================================================================
// Errors
// ====================================================================

/// A parse failure.
#[derive(Debug, PartialEq, Eq)]
pub struct ParseError {
    /// Byte range the caret points at: the offending token, an unbalanced
    /// delimiter, or `len..len` at end of input.
    pub span: std::ops::Range<usize>,
    /// What the parser expected at `span`, as display-ready labels: concrete
    /// tokens carry back-ticks (`` `,` ``), higher-level patterns read as
    /// prose (`expression`, `end of input`). De-duplicated, in the order they
    /// were recorded; empty for delimiter errors and when nothing specific
    /// was on offer.
    pub expected: Vec<String>,
    /// Source text of the offending token, or `None` at end of input.
    pub found: Option<String>,
    /// A fixed headline for structural delimiter errors (`unclosed
    /// delimiter`, `mismatched closing delimiter`, `unmatched closing
    /// delimiter`) that replaces the derived `expected …, found …`.
    pub headline: Option<String>,
    /// An optional secondary span and label: the opening delimiter a
    /// delimiter error refers back to (`` unclosed `[` ``).
    pub secondary: Option<(std::ops::Range<usize>, String)>,
    /// A `help:` suggestion, such as a missing comma between list elements.
    pub help: Option<String>,
}

/// Each label followed by `, `.
pub open spec fn comma_list(items: Seq<Seq<char>>) -> Seq<char>
    decreases items.len(),
{
    if items.len() == 0 {
        seq![]
    } else {
        comma_list(items.drop_last()) + items.last() + ", "@
    }
}

/// The `expected …` clause for `labels`: ``expected `,` ``, ``expected `(`
/// or `[` ``, ``expected one of `,`, `;`, or `]` ``; `None` for no labels.
pub open spec fn phrase_of(labels: Seq<Seq<char>>) -> Option<Seq<char>> {
    if labels.len() == 0 {
        None
    } else if labels.len() == 1 {
        Some("expected "@ + labels[0])
    } else if labels.len() == 2 {
        Some("expected "@ + labels[0] + " or "@ + labels[1])
    } else {
        Some("expected one of "@ + comma_list(labels.drop_last()) + "or "@ + labels.last())
    }
}

/// The text of an optional string.
pub open spec fn opt_text(o: Option<String>) -> Option<Seq<char>> {
    match o {
        Some(x) => Some(x@),
        None => None,
    }
}

/// The caret label: a headline verbatim, else the `expected …` clause, else
/// `unexpected token`.
pub open spec fn caret_label_of(headline: Option<Seq<char>>, labels: Seq<Seq<char>>) -> Seq<char> {
    match headline {
        Some(h) => h,
        None => match phrase_of(labels) {
            Some(p) => p,
            None => "unexpected token"@,
        },
    }
}

/// The one-line summary: a headline verbatim, else ``expected …, found
/// `x` `` or `expected …, found end of input`, else `unexpected token`.
pub open spec fn message_of(
    headline: Option<Seq<char>>,
    labels: Seq<Seq<char>>,
    found: Option<Seq<char>>,
) -> Seq<char> {
    match headline {
        Some(h) => h,
        None => match phrase_of(labels) {
            None => "unexpected token"@,
            Some(p) => match found {
                Some(f) => p + ", found `"@ + f + "`"@,
                None => p + ", found end of input"@,
            },
        },
    }
}

impl ParseError {
    /// The `expected …` clause on its own (no `found`), or `None` when the
    /// parser had nothing specific to expect.
    pub fn expected_phrase(&self) -> (r: Option<String>)
        ensures
            opt_text(r) == phrase_of(texts(self.expected@)),
    {
        let ghost labels = texts(self.expected@);
        let n = self.expected.len();
        if n == 0 {
            return None;
        }
        let mut m = String::new();
        if n == 1 {
            m.append("expected ");
            m.append(self.expected[0].as_str());
            proof {
                assert(m@ =~= "expected "@ + labels[0]);
            }
        } else if n == 2 {
            m.append("expected ");
            m.append(self.expected[0].as_str());
            m.append(" or ");
            m.append(self.expected[1].as_str());
            proof {
                assert(m@ =~= "expected "@ + labels[0] + " or "@ + labels[1]);
            }
        } else {
            m.append("expected one of ");
            let mut i: usize = 0;
            proof {
                assert(labels.take(0).len() == 0);
                assert(m@ =~= "expected one of "@ + comma_list(labels.take(0)));
            }
            while i < n - 1
                invariant
                    n == self.expected.len(),
                    n >= 3,
                    labels == texts(self.expected@),
                    i <= n - 1,
                    m@ == "expected one of "@ + comma_list(labels.take(i as int)),
                decreases n - 1 - i,
            {
                let ghost before = m@;
                m.append(self.expected[i].as_str());
                m.append(", ");
                proof {
                    assert(labels.take(i + 1).drop_last() =~= labels.take(i as int));
                    assert(labels.take(i + 1).last() == labels[i as int]);
                    assert(m@ =~= "expected one of "@ + comma_list(labels.take(i + 1)));
                }
                i = i + 1;
            }
            m.append("or ");
            m.append(self.expected[n - 1].as_str());
            proof {
                assert(labels.take(n - 1) =~= labels.drop_last());
                assert(m@ =~= "expected one of "@ + comma_list(labels.drop_last()) + "or "@
                    + labels.last());
            }
        }
        Some(m)
    }

    /// The label printed at the caret: a delimiter error's fixed headline,
    /// otherwise the `expected …` clause, otherwise `unexpected token`.
    pub fn caret_label(&self) -> (r: String)
        ensures
            r@ == caret_label_of(opt_text(self.headline), texts(self.expected@)),
    {
        if let Some(h) = &self.headline {
            return h.clone();
        }
        match self.expected_phrase() {
            Some(p) => p,
            None => String::from_str("unexpected token"),
        }
    }

    /// A one-line summary: a delimiter headline verbatim, else ``expected …,
    /// found …``, else `unexpected token`.
    pub fn message(&self) -> (r: String)
        ensures
            r@ == message_of(opt_text(self.headline), texts(self.expected@), opt_text(self.found)),
    {
        if let Some(h) = &self.headline {
            return h.clone();
        }
        let mut m = match self.expected_phrase() {
            Some(p) => p,
            None => {
                return String::from_str("unexpected token");
            },
        };
        match &self.found {
            Some(found) => {
                m.append(", found `");
                m.append(found.as_str());
                m.append("`");
            },
            None => {
                m.append(", found end of input");
            },
        }
        m
    }
}

/// `es` without `an operator`.
pub open spec fn without_operator(es: Seq<Expect>) -> Seq<Expect>
    decreases es.len(),
{
    if es.len() == 0 {
        seq![]
    } else {
        let r = without_operator(es.drop_last());
        if es.last() == Expect::Operator {
            r
        } else {
            r.push(es.last())
        }
    }
}

/// The labels a failure at byte offset `at` shows, from the recorder state
/// `s`: the recorded labels if they were recorded at `at`, without `an
/// operator` when `expression` is among them (a position that accepts an
/// expression also accepts the prefix operators); none otherwise.
pub open spec fn shown_labels(s: PState, at: int) -> Seq<Expect> {
    if s.expected_at == at {
        if s.expected.contains(Expect::Expression) {
            without_operator(s.expected)
        } else {
            s.expected
        }
    } else {
        seq![]
    }
}

/// The texts of a list of labels.
pub open spec fn label_texts(es: Seq<Expect>) -> Seq<Seq<char>> {
    es.map_values(|x: Expect| expect_text(x))
}

/// `e` is the error for a parse that failed in state `s`: the caret on the
/// next significant token (or `len..len` at the end), the labels shown
/// there, the token's text, and the missing-comma help where it applies.
pub open spec fn describes_failure(e: ParseError, toks: Seq<Tok>, src: &str, s: PState) -> bool {
    let j = next_sig(toks, s.pos);
    let n = src.spec_bytes().len() as int;
    let here = 0 <= j < toks.len();
    let a = if here {
        toks[j].start as int
    } else {
        n
    };
    let z = if here {
        toks[j].end as int
    } else {
        n
    };
    let found_kind = if here {
        Some(toks[j].kind)
    } else {
        None
    };
    &&& e.span.start == a && e.span.end == z
    &&& texts(e.expected@) == label_texts(shown_labels(s, a))
    &&& opt_text(e.found) == (if here {
        Some(text_at(src, a, z))
    } else {
        None
    })
    &&& e.headline is None
    &&& e.secondary is None
    &&& suggests_comma(texts(e.expected@), found_kind) ==> (e.help matches Some(h) && h@
        == "missing `,`"@)
    &&& !suggests_comma(texts(e.expected@), found_kind) ==> e.help is None
}

/// Whether `v` holds `x`.
fn contains_label(v: &Vec<Expect>, x: Expect) -> (b: bool)
    ensures
        b == v@.contains(x),
{
    let mut i: usize = 0;
    while i < v.len()
        invariant
            i <= v.len(),
            forall|k: int| 0 <= k < i ==> v@[k] != x,
        decreases v.len() - i,
    {
        if v[i] == x {
            proof {
                assert(v@[i as int] == x);
            }
            return true;
        }
        i = i + 1;
    }
    false
}

/// The error for a parse that failed in the parser's current state.
fn failure_error(src: &str, p: &Parser) -> (e: ParseError)
    requires
        p.wf(),
        tiles(p.toks(), src),
        p.n() == src.spec_bytes().len(),
    ensures
        describes_failure(e, p.toks(), src, p.st()),
{
    let ghost s = p.st();
    let j = p.next_sig(p.pos);
    proof {
        lemma_next_sig(p.toks(), p.pos as int);
    }
    let here = j < p.tokens.len();
    let mut start = p.src_len;
    let mut end = p.src_len;
    let mut found_kind: Option<SyntaxKind> = None;
    let mut found: Option<String> = None;
    if here {
        let tok = p.tokens[j];
        proof {
            lemma_tile(p.toks(), src, j as int);
        }
        start = tok.start;
        end = tok.end;
        found_kind = Some(tok.kind);
        found = Some(slice_str(src, tok.start, tok.end).to_owned());
    }
    let ghost shown = shown_labels(s, start as int);
    let mut expected: Vec<String> = Vec::new();
    if p.expected_at == start {
        let has_expression = contains_label(&p.expected, Expect::Expression);
        let mut i: usize = 0;
        proof {
            assert(p.expected@.take(0) =~= Seq::<Expect>::empty());
            assert(without_operator(Seq::<Expect>::empty()) =~= Seq::<Expect>::empty());
            assert(texts(expected@) =~= label_texts(Seq::<Expect>::empty()));
        }
        while i < p.expected.len()
            invariant
                i <= p.expected.len(),
                has_expression == p.expected@.contains(Expect::Expression),
                texts(expected@) == label_texts(
                    if has_expression {
                        without_operator(p.expected@.take(i as int))
                    } else {
                        p.expected@.take(i as int)
                    },
                ),
            decreases p.expected.len() - i,
        {
            let x = p.expected[i];
            let ghost before = expected@;
            proof {
                assert(p.expected@.take(i + 1).drop_last() =~= p.expected@.take(i as int));
                assert(p.expected@.take(i + 1).last() == x);
            }
            if !(has_expression && x == Expect::Operator) {
                expected.push(String::from_str(expect_label(x)));
                proof {
                    assert(texts(expected@) =~= texts(before).push(expect_text(x)));
                    if has_expression {
                        assert(label_texts(without_operator(p.expected@.take(i + 1)))
                            =~= label_texts(without_operator(p.expected@.take(i as int))).push(
                            expect_text(x),
                        ));
                    } else {
                        assert(label_texts(p.expected@.take(i + 1)) =~= label_texts(
                            p.expected@.take(i as int),
                        ).push(expect_text(x)));
                    }
                }
            }
            i = i + 1;
        }
        proof {
            assert(p.expected@.take(p.expected.len() as int) =~= p.expected@);
        }
    } else {
        proof {
            assert(texts(expected@) =~= label_texts(Seq::<Expect>::empty()));
        }
    }
    let help = missing_comma_help(&expected, found_kind);
    ParseError {
        span: start..end,
        expected,
        found,
        headline: None,
        secondary: None,
        help,
    }
}

// ====================================================================
// Delimiter pre-pass
// ====================================================================

/// What the delimiter pre-pass finds wrong, by token index.
pub enum DelimFault {
    /// A closer with no opener waiting for it.
    Unmatched(int),
    /// A closer that does not match the innermost open opener: the closer,
    /// then the opener.
    Mismatched(int, int),
    /// An opener that never closes: the outermost one.
    Unclosed(int),
}

/// The first unbalanced delimiter of `toks` from index `i` on, given the
/// indices of the openers still open before `i` (innermost last).
pub open spec fn delim_fault(toks: Seq<Tok>, i: int, stack: Seq<int>) -> Option<DelimFault>
    decreases toks.len() - i,
{
    if i < 0 || i >= toks.len() {
        if stack.len() > 0 {
            Some(DelimFault::Unclosed(stack[0]))
        } else {
            None
        }
    } else if toks[i].kind.spec_is_opener() {
        delim_fault(toks, i + 1, stack.push(i))
    } else if toks[i].kind.spec_is_closer() {
        if stack.len() == 0 {
            Some(DelimFault::Unmatched(i))
        } else if spec_closer_for(toks[stack.last()].kind) != toks[i].kind {
            Some(DelimFault::Mismatched(i, stack.last()))
        } else {
            delim_fault(toks, i + 1, stack.drop_last())
        }
    } else {
        delim_fault(toks, i + 1, stack)
    }
}

/// `e` is the structural error for `fault` in `toks` over `src`.
pub open spec fn describes_fault(e: ParseError, toks: Seq<Tok>, src: &str, fault: DelimFault) -> bool {
    &&& e.help is None
    &&& match fault {
        DelimFault::Unmatched(c) => {
            &&& e.span.start == toks[c].start && e.span.end == toks[c].end
            &&& e.expected@.len() == 0
            &&& opt_text(e.found) == Some(text_at(src, toks[c].start as int, toks[c].end as int))
            &&& opt_text(e.headline) == Some("unmatched closing delimiter"@)
            &&& e.secondary is None
        },
        DelimFault::Mismatched(c, o) => {
            &&& e.span.start == toks[c].start && e.span.end == toks[c].end
            &&& texts(e.expected@) == seq![spec_kind_label(spec_closer_for(toks[o].kind))]
            &&& opt_text(e.found) == Some(text_at(src, toks[c].start as int, toks[c].end as int))
            &&& opt_text(e.headline) == Some("mismatched closing delimiter"@)
            &&& e.secondary matches Some((r, l)) && r.start == toks[o].start && r.end
                == toks[o].end && l@ == "unclosed "@ + spec_kind_label(toks[o].kind)
        },
        DelimFault::Unclosed(o) => {
            &&& e.span.start == toks[o].start && e.span.end == toks[o].end
            &&& texts(e.expected@) == seq![spec_kind_label(spec_closer_for(toks[o].kind))]
            &&& e.found is None
            &&& opt_text(e.headline) == Some("unclosed delimiter"@)
            &&& e.secondary is None
        },
    }
}

/// The indices on a stack of token indices.
pub open spec fn ints(v: Seq<usize>) -> Seq<int> {
    v.map_values(|x: usize| x as int)
}

/// The error for a closer with no opener waiting for it.
fn unmatched_error(src: &str, tok: Tok) -> (e: ParseError)
    requires
        tok.start <= tok.end <= src.spec_bytes().len(),
        is_char_boundary(src.spec_bytes(), tok.start as int),
        is_char_boundary(src.spec_bytes(), tok.end as int),
    ensures
        e.help is None,
        e.span.start == tok.start && e.span.end == tok.end,
        e.expected@.len() == 0,
        opt_text(e.found) == Some(text_at(src, tok.start as int, tok.end as int)),
        opt_text(e.headline) == Some("unmatched closing delimiter"@),
        e.secondary is None,
{
    ParseError {
        span: tok.start..tok.end,
        expected: Vec::new(),
        found: Some(slice_str(src, tok.start, tok.end).to_owned()),
        headline: Some(String::from_str("unmatched closing delimiter")),
        secondary: None,
        help: None,
    }
}

/// The error for the closer `tok` that does not match the opener `open`.
fn mismatched_error(src: &str, tok: Tok, open: Tok) -> (e: ParseError)
    requires
        tok.start <= tok.end <= src.spec_bytes().len(),
        is_char_boundary(src.spec_bytes(), tok.start as int),
        is_char_boundary(src.spec_bytes(), tok.end as int),
        open.kind.spec_is_opener(),
    ensures
        e.help is None,
        e.span.start == tok.start && e.span.end == tok.end,
        texts(e.expected@) == seq![spec_kind_label(spec_closer_for(open.kind))],
        opt_text(e.found) == Some(text_at(src, tok.start as int, tok.end as int)),
        opt_text(e.headline) == Some("mismatched closing delimiter"@),
        e.secondary matches Some((r, l)) && r.start == open.start && r.end == open.end && l@
            == "unclosed "@ + spec_kind_label(open.kind),
{
    let mut label = String::from_str("unclosed ");
    label.append(kind_label(open.kind));
    let mut expected: Vec<String> = Vec::new();
    expected.push(String::from_str(kind_label(closer_for(open.kind))));
    proof {
        assert(texts(expected@) =~= seq![spec_kind_label(spec_closer_for(open.kind))]);
    }
    ParseError {
        span: tok.start..tok.end,
        expected,
        found: Some(slice_str(src, tok.start, tok.end).to_owned()),
        headline: Some(String::from_str("mismatched closing delimiter")),
        secondary: Some((open.start..open.end, label)),
        help: None,
    }
}

/// The error for the opener `open` that never closes.
fn unclosed_error(open: Tok) -> (e: ParseError)
    requires
        open.kind.spec_is_opener(),
    ensures
        e.help is None,
        e.span.start == open.start && e.span.end == open.end,
        texts(e.expected@) == seq![spec_kind_label(spec_closer_for(open.kind))],
        e.found is None,
        opt_text(e.headline) == Some("unclosed delimiter"@),
        e.secondary is None,
{
    let mut expected: Vec<String> = Vec::new();
    expected.push(String::from_str(kind_label(closer_for(open.kind))));
    proof {
        assert(texts(expected@) =~= seq![spec_kind_label(spec_closer_for(open.kind))]);
    }
    ParseError {
        span: open.start..open.end,
        expected,
        found: None,
        headline: Some(String::from_str("unclosed delimiter")),
        secondary: None,
        help: None,
    }
}

/// Scans the token stream for the first unbalanced delimiter (a stray
/// closer, a wrong closer, or an opener that never closes) and describes it
/// structurally; `None` when every bracket balances. Delimiters inside
/// strings and comments lex as part of single tokens and are never seen.
fn check_delimiters(src: &str, tokens: &Vec<Tok>) -> (r: Option<ParseError>)
    requires
        tiles(tokens@, src),
    ensures
        match delim_fault(tokens@, 0, seq![]) {
            None => r is None,
            Some(f) => r matches Some(e) && describes_fault(e, tokens@, src, f),
        },
{
    let ghost t = tokens@;
    let mut stack: Vec<usize> = Vec::new();
    let mut i: usize = 0;
    proof {
        assert(ints(stack@) =~= Seq::<int>::empty());
    }
    while i < tokens.len()
        invariant
            t == tokens@,
            tiles(t, src),
            i <= tokens.len(),
            delim_fault(t, 0, seq![]) == delim_fault(t, i as int, ints(stack@)),
            forall|k: int|
                0 <= k < stack.len() ==> (#[trigger] stack@[k]) < i && t[stack@[k] as int].kind.spec_is_opener(),
        decreases tokens.len() - i,
    {
        let tok = tokens[i];
        if tok.kind.is_opener() {
            let ghost before = stack@;
            stack.push(i);
            proof {
                assert(ints(stack@) =~= ints(before).push(i as int));
            }
        } else if tok.kind.is_closer() {
            let ghost before = stack@;
            match stack.pop() {
                None => {
                    proof {
                        lemma_tile(t, src, i as int);
                    }
                    return Some(unmatched_error(src, tok));
                },
                Some(o) => {
                    proof {
                        assert(ints(before).last() == o as int);
                        assert(ints(stack@) =~= ints(before).drop_last());
                        assert(before[before.len() - 1] == o);
                    }
                    let open = tokens[o];
                    if closer_for(open.kind) != tok.kind {
                        proof {
                            lemma_tile(t, src, i as int);
                        }
                        return Some(mismatched_error(src, tok, open));
                    }
                },
            }
        }
        i = i + 1;
    }
    if stack.len() > 0 {
        let o = stack[0];
        proof {
            assert(ints(stack@)[0] == o as int);
        }
        return Some(unclosed_error(tokens[o]));
    }
    None
}

/// How many delimiters are still open after a lexed stream, a surplus
/// closer saturating at zero.
pub open spec fn open_depth(l: Seq<(SyntaxKind, int)>) -> nat
    decreases l.len(),
{
    if l.len() == 0 {
        0
    } else {
        let d = open_depth(l.drop_last());
        let k = l.last().0;
        if k.spec_is_opener() {
            d + 1
        } else if k.spec_is_closer() {
            if d == 0 {
                0
            } else {
                (d - 1) as nat
            }
        } else {
            d
        }
    }
}

/// Whether `src` has at least one delimiter still open: a `(`, `[` or `{`
/// with no matching closer yet. A surplus or mismatched closer does not
/// count as open. Delimiters inside strings and comments are ignored.
pub fn has_open_delimiter(src: &str) -> (b: bool)
    requires
        src.spec_bytes().len() <= u32::MAX,
    ensures
        b == (open_depth(lexed(src)) > 0),
{
    let toks = lex(src);
    let ghost l = lexed(src);
    let mut depth: usize = 0;
    let mut i: usize = 0;
    proof {
        assert(l.take(0) =~= Seq::<(SyntaxKind, int)>::empty());
    }
    while i < toks.len()
        invariant
            token_view(toks@) == l,
            i <= toks.len(),
            depth <= i,
            depth == open_depth(l.take(i as int)),
        decreases toks.len() - i,
    {
        let k = toks[i].kind;
        proof {
            assert(l.take(i + 1).drop_last() =~= l.take(i as int));
            assert(l.take(i + 1).last().0 == k);
        }
        if k.is_opener() {
            depth = depth + 1;
        } else if k.is_closer() {
            depth = depth.saturating_sub(1);
        }
        i = i + 1;
    }
    proof {
        assert(l.take(toks.len() as int) =~= l);
    }
    depth > 0
}

/// While the delimiter pre-pass meets no fault, its stack of open
/// delimiters is as deep as the count of open delimiters: if it meets none
/// at all, nothing is left open.
proof fn lemma_no_fault_closes_all(src: &str, i: int, stack: Seq<int>)
    requires
        0 <= i <= lexed(src).len(),
        stack.len() == open_depth(lexed(src).take(i)),
        delim_fault(resolved(src), i, stack) is None,
    ensures
        open_depth(lexed(src)) == 0,
    decreases lexed(src).len() - i,
{
    let l = lexed(src);
    let t = resolved(src);
    if i == l.len() {
        assert(l.take(i) =~= l);
    } else {
        assert(l.take(i + 1).drop_last() =~= l.take(i));
        assert(l.take(i + 1).last() == l[i]);
        assert(t[i].kind == l[i].0);
        if t[i].kind.spec_is_opener() {
            lemma_no_fault_closes_all(src, i + 1, stack.push(i));
        } else if t[i].kind.spec_is_closer() {
            lemma_no_fault_closes_all(src, i + 1, stack.drop_last());
        } else {
            lemma_no_fault_closes_all(src, i + 1, stack);
        }
    }
}

/// An input that [`has_open_delimiter`] reports as still open never
/// parses: the delimiter pre-pass of [`parse_source`] reports a fault for
/// it.
pub proof fn lemma_open_delimiter_is_a_fault(src: &str)
    ensures
        open_depth(lexed(src)) > 0 ==> delim_fault(resolved(src), 0, seq![]) is Some,
{
    let l = lexed(src);
    assert(l.take(0) =~= Seq::<(SyntaxKind, int)>::empty());
    if delim_fault(resolved(src), 0, seq![]) is None {
        lemma_no_fault_closes_all(src, 0, seq![]);
    }
}

// ====================================================================
// The whole file
// ====================================================================

/// An event sequence that is one node: a `Start`, balanced contents, and
/// the `Finish` that closes it.
pub open spec fn one_tree(e: Seq<Event>) -> bool {
    &&& e.len() >= 2
    &&& e[0] is Start
    &&& e.last() is Finish
    &&& balanced(e.subrange(1, e.len() - 1))
}

/// Parses the whole token stream: a `SOURCE_FILE` node around the top-level
/// comma chain and any trailing trivia; input left over fails with `end of
/// input` expected.
fn parse_file(p: &mut Parser) -> (r: Result<(), ()>)
    requires
        old(p).wf(),
        old(p).pos == 0,
        old(p).expected@.len() == 0,
        old(p).expected_at == 0,
        old(p).evs().len() == 0,
    ensures
        final(p).wf(),
        final(p).same_input(old(p)),
        match source_file(old(p).toks(), old(p).n()) {
            Ok((e, s1)) => r is Ok && final(p).evs() == e && final(p).st() == s1,
            Err(s1) => r is Err && final(p).st() == s1,
        },
        r is Ok ==> final(p).pos == final(p).tokens.len() && one_tree(final(p).evs()),
        r is Ok ==> tokens_of(final(p).evs()) == final(p).toks(),
{
    let ghost t = p.toks();
    let ghost n = p.n();
    proof {
        assert(p.expected@ =~= Seq::<Expect>::empty());
        assert(p.st() == PState { pos: 0, expected: seq![], expected_at: 0 });
    }
    let ghost s = p.st();
    let ghost before = p.evs();
    p.events.push(Event::Start(SyntaxKind::SOURCE_FILE));
    proof {
        lemma_tokens_of_push(before, Event::Start(SyntaxKind::SOURCE_FILE));
        assert(before =~= Seq::<Event>::empty());
    }
    let r1 = parse_rule(p, 13);
    if r1.is_err() {
        return Err(());
    }
    let ghost e1 = (rule(t, n, 13, s)->Ok_0).0;
    if p.peek().is_some() {
        p.expected(Expect::EndOfInput);
        return Err(());
    }
    let ghost s1 = p.st();
    proof {
        lemma_next_sig(t, s1.pos);
    }
    p.flush_trivia();
    p.finish_node();
    proof {
        let f = flush(t, s1).0;
        assert(p.evs() =~= wrap(SyntaxKind::SOURCE_FILE, e1 + f));
        grammar::lemma_step_balanced(t, s1);
        lemma_balanced_concat(e1, f);
        assert(p.evs().subrange(1, p.evs().len() - 1) =~= e1 + f);
        assert(t.subrange(0, t.len() as int) =~= t);
    }
    Ok(())
}

/// The log entry of one event, a token carrying its source text.
pub open spec fn entry(src: &str, ev: Event) -> (u8, u16, Seq<char>) {
    match ev {
        Event::Start(k) => (0u8, k.raw() as u16, Seq::<char>::empty()),
        Event::Token(t) => (1u8, t.kind.raw() as u16, text_at(src, t.start as int, t.end as int)),
        Event::Finish => (2u8, 0u16, Seq::<char>::empty()),
    }
}

/// The log entries of an event sequence.
pub open spec fn log_of(src: &str, e: Seq<Event>) -> Seq<(u8, u16, Seq<char>)> {
    e.map_values(|ev: Event| entry(src, ev))
}

/// Every token event's byte range lies within `src` on character
/// boundaries.
pub open spec fn token_ranges_ok(e: Seq<Event>, src: &str) -> bool {
    forall|i: int|
        0 <= i < e.len() ==> (#[trigger] e[i] matches Event::Token(t) ==> {
            &&& t.start <= t.end <= src.spec_bytes().len()
            &&& is_char_boundary(src.spec_bytes(), t.start as int)
            &&& is_char_boundary(src.spec_bytes(), t.end as int)
        })
}

/// The log of a prefix has the prefix's depth.
proof fn lemma_log_depth(src: &str, e: Seq<Event>)
    ensures
        log_depth(log_of(src, e)) == depth(e),
    decreases e.len(),
{
    if e.len() > 0 {
        assert(log_of(src, e).drop_last() =~= log_of(src, e.drop_last()));
        lemma_log_depth(src, e.drop_last());
    }
}

/// The total byte length of a token list's ranges.
pub open spec fn toks_len(ts: Seq<Tok>) -> int
    decreases ts.len(),
{
    if ts.len() == 0 {
        0
    } else {
        toks_len(ts.drop_last()) + ts.last().end - ts.last().start
    }
}

/// The ranges of a tiling's first `m` tokens cover the source up to the
/// end of the `m`-th.
proof fn lemma_toks_len_tiled(ts: Seq<Tok>, src: &str, m: int)
    requires
        tiles(ts, src),
        0 <= m <= ts.len(),
    ensures
        toks_len(ts.take(m)) == (if m == 0 {
            0
        } else {
            ts[m - 1].end as int
        }),
        toks_len(ts.take(m)) <= src.spec_bytes().len(),
    decreases m,
{
    if m > 0 {
        lemma_toks_len_tiled(ts, src, m - 1);
        assert(ts.take(m).drop_last() =~= ts.take(m - 1));
        lemma_tile(ts, src, m - 1);
        if m - 1 > 0 {
            lemma_tile_next(ts, src, m - 2);
        } else {
            lemma_tile_ends(ts, src);
        }
    }
}

/// The tokens of any prefix of an event sequence whose tokens tile the
/// source span no more bytes than the source has.
proof fn lemma_prefix_bytes(e: Seq<Event>, i: int, src: &str)
    requires
        tiles(tokens_of(e), src),
        0 <= i <= e.len(),
    ensures
        toks_len(tokens_of(e.take(i))) <= src.spec_bytes().len(),
{
    lemma_tokens_of_concat(e.take(i), e.skip(i));
    assert(e.take(i) + e.skip(i) =~= e);
    let ts = tokens_of(e);
    let m = tokens_of(e.take(i)).len() as int;
    assert(ts.take(m) =~= tokens_of(e.take(i)));
    lemma_toks_len_tiled(ts, src, m);
}

/// Replays a one-node event sequence into a rowan green tree.
fn build_green(src: &str, events: &Vec<Event>) -> (g: rowan::GreenNode)
    requires
        one_tree(events@),
        token_ranges_ok(events@, src),
        tiles(tokens_of(events@), src),
        src.spec_bytes().len() <= u32::MAX,
    ensures
        green_preorder(g) == log_of(src, events@),
{
    let ghost e = events@;
    let ghost body = e.subrange(1, e.len() - 1);
    proof {
        assert(depth(Seq::<Event>::empty()) == 0);
        assert(seq![e[0]].drop_last() =~= Seq::<Event>::empty());
        assert(seq![e[0]].last() == e[0]);
        assert(depth(seq![e[0]]) == 1);
        assert forall|i: int| 1 <= i < e.len() implies depth(#[trigger] e.take(i)) >= 1 by {
            assert(e.take(i) =~= seq![e[0]] + body.take(i - 1));
            lemma_depth_concat(seq![e[0]], body.take(i - 1));
            assert(seq![e[0]].drop_last() =~= Seq::<Event>::empty());
        }
    }
    let mut b = builder_new();
    let mut i: usize = 0;
    proof {
        assert(log_of(src, e.take(0)) =~= Seq::<(u8, u16, Seq<char>)>::empty());
    }
    while i < events.len()
        invariant
            e == events@,
            one_tree(e),
            token_ranges_ok(e, src),
            forall|k: int| 1 <= k < e.len() ==> depth(#[trigger] e.take(k)) >= 1,
            tiles(tokens_of(e), src),
            src.spec_bytes().len() <= u32::MAX,
            i <= events.len(),
            builder_log(b) == log_of(src, e.take(i as int)),
            log_bytes(builder_log(b)) == toks_len(tokens_of(e.take(i as int))),
        decreases events.len() - i,
    {
        let ghost prev = builder_log(b);
        proof {
            assert(log_of(src, e.take(i + 1)) =~= log_of(src, e.take(i as int)).push(entry(src, e[i as int])));
            assert(e.take(i + 1) =~= e.take(i as int).push(e[i as int]));
            lemma_tokens_of_push(e.take(i as int), e[i as int]);
        }
        match events[i] {
            Event::Start(k) => {
                builder_start_node(&mut b, k.to_raw());
            },
            Event::Token(t) => {
                let text = slice_str(src, t.start, t.end);
                builder_token(&mut b, t.kind.to_raw(), text);
                proof {
                    assert(builder_log(b).drop_last() =~= prev);
                    assert(encode_utf8(text@).len() == t.end - t.start);
                    assert(tokens_of(e.take(i + 1)).drop_last() =~= tokens_of(e.take(i as int)));
                    assert(toks_len(tokens_of(e.take(i + 1))) == toks_len(tokens_of(e.take(i as int))) + t.end - t.start);
                    assert(log_bytes(builder_log(b)) == log_bytes(prev) + t.end - t.start);
                }
            },
            Event::Finish => {
                proof {
                    lemma_prefix_bytes(e, i as int, src);
                    lemma_log_depth(src, e.take(i as int));
                    if i == 0 {
                        assert(e[0] is Start);
                    }
                }
                builder_finish_node(&mut b);
            },
        }
        proof {
            assert(builder_log(b).drop_last() =~= prev);
        }
        i = i + 1;
    }
    proof {
        assert(e.take(e.len() as int) =~= e);
        lemma_log_depth(src, e);
        lemma_depth_concat(seq![e[0]] + body, seq![e.last()]);
        lemma_depth_concat(seq![e[0]], body);
        assert(e =~= seq![e[0]] + body + seq![e.last()]);
        assert(seq![e[0]].drop_last() =~= Seq::<Event>::empty());
        assert(seq![e.last()].drop_last() =~= Seq::<Event>::empty());
        assert(seq![e.last()].last() == e.last());
        assert(depth(seq![e.last()]) == -1);
        assert(depth(e) == 0);
        assert(log_of(src, e)[0] == entry(src, e[0]));
        assert(log_of(src, e)[0].0 == 0);
        assert forall|k: int| 1 <= k < e.len() implies log_depth(
            #[trigger] log_of(src, e).take(k),
        ) >= 1 by {
            assert(log_of(src, e).take(k) =~= log_of(src, e.take(k)));
            lemma_log_depth(src, e.take(k));
        }
    }
    builder_finish(b)
}

/// The concatenated source texts of a token list.
pub open spec fn toks_text(src: &str, ts: Seq<Tok>) -> Seq<char>
    decreases ts.len(),
{
    if ts.len() == 0 {
        seq![]
    } else {
        toks_text(src, ts.drop_last()) + text_at(src, ts.last().start as int, ts.last().end as int)
    }
}

/// The text of a concatenation is the concatenated text.
proof fn lemma_toks_text_concat(src: &str, a: Seq<Tok>, b: Seq<Tok>)
    ensures
        toks_text(src, a + b) == toks_text(src, a) + toks_text(src, b),
    decreases b.len(),
{
    if b.len() == 0 {
        assert(a + b =~= a);
        assert(toks_text(src, a) + toks_text(src, b) =~= toks_text(src, a));
    } else {
        assert((a + b).drop_last() =~= a + b.drop_last());
        lemma_toks_text_concat(src, a, b.drop_last());
        assert(toks_text(src, a) + (toks_text(src, b.drop_last()) + text_at(
            src,
            b.last().start as int,
            b.last().end as int,
        )) =~= toks_text(src, a) + toks_text(src, b.drop_last()) + text_at(
            src,
            b.last().start as int,
            b.last().end as int,
        ));
    }
}

/// The text of a log of events is the text of the events' tokens.
proof fn lemma_log_text(src: &str, e: Seq<Event>)
    ensures
        log_text(log_of(src, e)) == toks_text(src, tokens_of(e)),
    decreases e.len(),
{
    if e.len() > 0 {
        assert(log_of(src, e).drop_last() =~= log_of(src, e.drop_last()));
        lemma_log_text(src, e.drop_last());
        lemma_tokens_of_push(e.drop_last(), e.last());
        assert(e.drop_last().push(e.last()) =~= e);
        match e.last() {
            Event::Token(x) => {
                assert(tokens_of(e).drop_last() =~= tokens_of(e.drop_last()));
            },
            _ => {
                assert(log_text(log_of(src, e)) =~= log_text(log_of(src, e.drop_last())));
            },
        }
    }
}

/// The tokens of a tiled stream from index `k` on spell the source from
/// their start on.
proof fn lemma_toks_text_suffix(src: &str, t: Seq<Tok>, k: int)
    requires
        tiles(t, src),
        0 <= k <= t.len(),
    ensures
        toks_text(src, t.subrange(k, t.len() as int)) == decode_utf8(
            src.spec_bytes().subrange(
                if k < t.len() {
                    t[k].start as int
                } else {
                    src.spec_bytes().len() as int
                },
                src.spec_bytes().len() as int,
            ),
        ),
    decreases t.len() - k,
{
    let b = src.spec_bytes();
    let n = b.len() as int;
    encode_utf8_valid_utf8(src@);
    if k == t.len() {
        assert(t.subrange(k, t.len() as int) =~= Seq::<Tok>::empty());
        assert(b.subrange(n, n) =~= Seq::<u8>::empty());
    } else {
        lemma_toks_text_suffix(src, t, k + 1);
        lemma_tile(t, src, k);
        lemma_tile_next(t, src, k);
        let sk = t[k].start as int;
        let ek = t[k].end as int;
        assert(ek == (if k + 1 < t.len() {
            t[k + 1].start as int
        } else {
            n
        }));
        assert(t.subrange(k, t.len() as int) =~= seq![t[k]] + t.subrange(k + 1, t.len() as int));
        lemma_toks_text_concat(src, seq![t[k]], t.subrange(k + 1, t.len() as int));
        assert(seq![t[k]].drop_last() =~= Seq::<Tok>::empty());
        assert(toks_text(src, Seq::<Tok>::empty()) =~= Seq::<char>::empty());
        assert(seq![t[k]].last() == t[k]);
        assert(toks_text(src, seq![t[k]]) =~= text_at(src, sk, ek));
        let rest = b.subrange(sk, n);
        valid_utf8_split(b, sk);
        lemma_boundary_suffix(b, sk, ek);
        decode_utf8_split(rest, ek - sk);
        assert(rest.subrange(0, ek - sk) =~= b.subrange(sk, ek));
        assert(rest.subrange(ek - sk, rest.len() as int) =~= b.subrange(ek, n));
    }
}

/// A tiled stream spells the whole source.
pub(crate) proof fn lemma_toks_text_whole(src: &str, t: Seq<Tok>)
    requires
        tiles(t, src),
    ensures
        toks_text(src, t) == src@,
{
    lemma_toks_text_suffix(src, t, 0);
    lemma_tile_ends(t, src);
    assert(t.subrange(0, t.len() as int) =~= t);
    assert(src.spec_bytes().subrange(0, src.spec_bytes().len() as int) =~= src.spec_bytes());
    encode_utf8_decode_utf8(src@);
}

/// A token event's token is among the tokens of the sequence.
proof fn lemma_token_event_in(e: Seq<Event>, i: int)
    requires
        0 <= i < e.len(),
        e[i] is Token,
    ensures
        exists|k: int| 0 <= k < tokens_of(e).len() && tokens_of(e)[k] == e[i]->Token_0,
    decreases e.len(),
{
    lemma_tokens_of_push(e.drop_last(), e.last());
    assert(e.drop_last().push(e.last()) =~= e);
    if i == e.len() - 1 {
        let k = tokens_of(e).len() - 1;
        assert(tokens_of(e)[k] == e[i]->Token_0);
    } else {
        lemma_token_event_in(e.drop_last(), i);
        let k = choose|k: int|
            0 <= k < tokens_of(e.drop_last()).len() && tokens_of(e.drop_last())[k] == e[i]->Token_0;
        assert(tokens_of(e)[k] == tokens_of(e.drop_last())[k]);
    }
}

/// The result of a successful parse: a lossless rowan green tree rooted at
/// a `SOURCE_FILE` node.
#[derive(Debug, PartialEq, Eq, Hash)]
pub struct Parse {
    green: rowan::GreenNode,
}

impl Parse {
    /// The preorder walk of the tree.
    pub closed spec fn preorder(&self) -> Seq<(u8, u16, Seq<char>)> {
        green_preorder(self.green)
    }

    /// The green tree.
    pub fn green(&self) -> (g: rowan::GreenNode)
        ensures
            green_preorder(g) == self.preorder(),
    {
        green_clone(&self.green)
    }
}

/// Parses `src` into a lossless syntax tree rooted at `SOURCE_FILE`.
///
/// A delimiter pre-pass first reports the first unbalanced bracket
/// structurally; otherwise the grammar runs fail-fast, and the first
/// violation is reported with what was expected there. On success the tree
/// is the replay of the grammar's events: every token of the source, trivia
/// included, in source order.
pub fn parse_source(src: &str) -> (r: Result<Parse, Box<ParseError>>)
    requires
        src.spec_bytes().len() <= u32::MAX,
    ensures
        match delim_fault(resolved(src), 0, seq![]) {
            Some(f) => r matches Err(e) && describes_fault(*e, resolved(src), src, f),
            None => match source_file(resolved(src), src.spec_bytes().len() as int) {
                Err(s) => r matches Err(e) && describes_failure(*e, resolved(src), src, s),
                Ok((ev, _)) => r matches Ok(parse) && parse.preorder() == log_of(src, ev),
            },
        },
        r matches Ok(parse) ==> log_text(parse.preorder()) == src@,
{
    let tokens = tokenize(src);
    if let Some(err) = check_delimiters(src, &tokens) {
        return Err(Box::new(err));
    }
    let ghost t = tokens@;
    proof {
        assert forall|i: int| 0 <= i < t.len() implies (#[trigger] t[i]).start <= src.spec_bytes().len() by {
            lemma_tile(t, src, i);
        }
        assert(tokens_of(Seq::<Event>::empty()) =~= t.subrange(0, 0));
    }
    let mut p = Parser {
        tokens,
        src_len: src.len(),
        pos: 0,
        events: Vec::new(),
        expected: Vec::new(),
        expected_at: 0,
    };
    match parse_file(&mut p) {
        Err(()) => Err(Box::new(failure_error(src, &p))),
        Ok(()) => {
            proof {
                let e = p.evs();
                assert(t.subrange(0, t.len() as int) =~= t);
                assert forall|i: int| 0 <= i < e.len() implies (#[trigger] e[i] matches Event::Token(x) ==> {
                    &&& x.start <= x.end <= src.spec_bytes().len()
                    &&& is_char_boundary(src.spec_bytes(), x.start as int)
                    &&& is_char_boundary(src.spec_bytes(), x.end as int)
                }) by {
                    if e[i] is Token {
                        lemma_token_event_in(e, i);
                        let k = choose|k: int| 0 <= k < tokens_of(e).len() && tokens_of(e)[k] == e[i]->Token_0;
                        lemma_tile(t, src, k);
                    }
                }
            }
            let green = build_green(src, &p.events);
            proof {
                lemma_log_text(src, p.evs());
                lemma_toks_text_whole(src, t);
            }
            Ok(Parse { green })
        },
    }
}

// ====================================================================
// Labels
// ====================================================================

/// The closing delimiter kind that matches an opener (identity for
/// non-openers).
pub open spec fn spec_closer_for(open: SyntaxKind) -> SyntaxKind {
    match open {
        SyntaxKind::OPEN_PAREN => SyntaxKind::CLOSE_PAREN,
        SyntaxKind::OPEN_BRACK => SyntaxKind::CLOSE_BRACK,
        SyntaxKind::OPEN_BRACE => SyntaxKind::CLOSE_BRACE,
        other => other,
    }
}

/// The closing delimiter kind that matches an opener (identity for
/// non-openers).
#[verifier::when_used_as_spec(spec_closer_for)]
pub fn closer_for(open: SyntaxKind) -> (c: SyntaxKind)
    ensures
        c == spec_closer_for(open),
{
    match open {
        SyntaxKind::OPEN_PAREN => SyntaxKind::CLOSE_PAREN,
        SyntaxKind::OPEN_BRACK => SyntaxKind::CLOSE_BRACK,
        SyntaxKind::OPEN_BRACE => SyntaxKind::CLOSE_BRACE,
        other => other,
    }
}

/// The display label of a token kind in `expected …` messages: delimiters
/// and separators literally, the whole operator ladder as one `an
/// operator`, literals as prose.
pub open spec fn spec_kind_label(k: SyntaxKind) -> Seq<char> {
    match k {
        SyntaxKind::OPEN_PAREN => "`(`"@,
        SyntaxKind::CLOSE_PAREN => "`)`"@,
        SyntaxKind::OPEN_BRACK => "`[`"@,
        SyntaxKind::CLOSE_BRACK => "`]`"@,
        SyntaxKind::OPEN_BRACE => "`{`"@,
        SyntaxKind::CLOSE_BRACE => "`}`"@,
        SyntaxKind::COMMA => "`,`"@,
        SyntaxKind::SEMICOLON => "`;`"@,
        SyntaxKind::DOT => "`.`"@,
        SyntaxKind::NUMBER => "number"@,
        SyntaxKind::STRING => "string"@,
        SyntaxKind::IDENT => "identifier"@,
        SyntaxKind::NEWLINE => "line break"@,
        SyntaxKind::COMMENT => "comment"@,
        SyntaxKind::WHITESPACE => "whitespace"@,
        SyntaxKind::ERROR_TOKEN => "unrecognized token"@,
        _ => "an operator"@,
    }
}

/// The display label of a token kind in `expected …` messages: delimiters
/// and separators literally, the whole operator ladder as one `an
/// operator`, literals as prose. Only token kinds have a label.
pub fn kind_label(k: SyntaxKind) -> (r: &'static str)
    requires
        !k.spec_is_node(),
    ensures
        r@ == spec_kind_label(k),
{
    match k {
        SyntaxKind::OPEN_PAREN => "`(`",
        SyntaxKind::CLOSE_PAREN => "`)`",
        SyntaxKind::OPEN_BRACK => "`[`",
        SyntaxKind::CLOSE_BRACK => "`]`",
        SyntaxKind::OPEN_BRACE => "`{`",
        SyntaxKind::CLOSE_BRACE => "`}`",
        SyntaxKind::COMMA => "`,`",
        SyntaxKind::SEMICOLON => "`;`",
        SyntaxKind::DOT => "`.`",
        SyntaxKind::NUMBER => "number",
        SyntaxKind::STRING => "string",
        SyntaxKind::IDENT => "identifier",
        SyntaxKind::NEWLINE => "line break",
        SyntaxKind::COMMENT => "comment",
        SyntaxKind::WHITESPACE => "whitespace",
        SyntaxKind::ERROR_TOKEN => "unrecognized token",
        SyntaxKind::ARROW | SyntaxKind::EQ | SyntaxKind::PLUS_EQ | SyntaxKind::SWAP
        | SyntaxKind::PLUS | SyntaxKind::MINUS | SyntaxKind::STAR | SyntaxKind::SLASH
        | SyntaxKind::PERCENT | SyntaxKind::CARET | SyntaxKind::EQ_EQ | SyntaxKind::BANG_EQ
        | SyntaxKind::LT | SyntaxKind::LT_EQ | SyntaxKind::GT | SyntaxKind::GT_EQ
        | SyntaxKind::AND_AND | SyntaxKind::OR_OR | SyntaxKind::BANG | SyntaxKind::TILDE
        | SyntaxKind::COLON | SyntaxKind::ELLIPSIS => "an operator",
        _ => "an operator",
    }
}

/// A label in back-ticks quotes exactly its kind's text: every kind whose
/// label is written literally (a delimiter or separator) has a fixed
/// spelling, and the label is that spelling between back-ticks.
pub proof fn lemma_kind_label_quotes_its_text(k: SyntaxKind)
    ensures
        spec_kind_label(k).len() > 0 && spec_kind_label(k)[0] == '`' ==> (crate::lex::spelling(
            k,
        ) matches Some(s) && spec_kind_label(k) == seq!['`'] + s.map_values(|x: u8| x as char)
            + seq!['`']),
{
    reveal_strlit("`(`");
    reveal_strlit("`)`");
    reveal_strlit("`[`");
    reveal_strlit("`]`");
    reveal_strlit("`{`");
    reveal_strlit("`}`");
    reveal_strlit("`,`");
    reveal_strlit("`;`");
    reveal_strlit("`.`");
    reveal_strlit("number");
    reveal_strlit("string");
    reveal_strlit("identifier");
    reveal_strlit("line break");
    reveal_strlit("comment");
    reveal_strlit("whitespace");
    reveal_strlit("unrecognized token");
    reveal_strlit("an operator");
    if spec_kind_label(k).len() > 0 && spec_kind_label(k)[0] == '`' {
        let s = crate::lex::spelling(k)->Some_0;
        assert(spec_kind_label(k) =~= seq!['`'] + s.map_values(|x: u8| x as char) + seq!['`']);
    }
}

/// The display text of an expectation label.
fn expect_label(e: Expect) -> (r: &'static str)
    ensures
        r@ == expect_text(e),
{
    match e {
        Expect::Expression => "expression",
        Expect::Operator => "an operator",
        Expect::EndOfInput => "end of input",
        Expect::OpenParen => "`(`",
        Expect::CloseParen => "`)`",
        Expect::CloseBrack => "`]`",
        Expect::CloseBrace => "`}`",
    }
}

/// Whether a token can begin an expression.
pub open spec fn spec_begins_expr(k: SyntaxKind) -> bool {
    k == SyntaxKind::NUMBER || k == SyntaxKind::STRING || k == SyntaxKind::IDENT || k
        == SyntaxKind::OPEN_PAREN || k == SyntaxKind::OPEN_BRACK || k == SyntaxKind::OPEN_BRACE
        || k == SyntaxKind::MINUS || k == SyntaxKind::PLUS || k == SyntaxKind::BANG || k
        == SyntaxKind::ELLIPSIS
}

/// Whether a token can begin an expression — the set whose appearance where
/// a closer was due signals a dropped separator.
#[verifier::when_used_as_spec(spec_begins_expr)]
pub fn begins_expr(k: SyntaxKind) -> (b: bool)
    ensures
        b == spec_begins_expr(k),
{
    match k {
        SyntaxKind::NUMBER | SyntaxKind::STRING | SyntaxKind::IDENT | SyntaxKind::OPEN_PAREN
        | SyntaxKind::OPEN_BRACK | SyntaxKind::OPEN_BRACE | SyntaxKind::MINUS | SyntaxKind::PLUS
        | SyntaxKind::BANG | SyntaxKind::ELLIPSIS => true,
        _ => false,
    }
}

/// Whether `label` names a closing delimiter.
pub open spec fn is_closer_label(label: Seq<char>) -> bool {
    label == "`]`"@ || label == "`)`"@ || label == "`}`"@
}

/// The texts of a list of strings.
pub open spec fn texts(v: Seq<String>) -> Seq<Seq<char>> {
    v.map_values(|x: String| x@)
}

/// Whether a dropped comma explains the failure: a closer was expected and
/// the found token could begin an expression.
pub open spec fn suggests_comma(labels: Seq<Seq<char>>, found: Option<SyntaxKind>) -> bool {
    &&& exists|i: int| 0 <= i < labels.len() && is_closer_label(#[trigger] labels[i])
    &&& found matches Some(k) && spec_begins_expr(k)
}

/// Guesses a dropped comma: inside a list, call or map a forgotten `,`
/// surfaces as an expression token where a closer was expected (`[1 2]`).
/// Returns the `help:` text `missing `,``, or `None`.
pub fn missing_comma_help(expected: &[String], found: Option<SyntaxKind>) -> (r: Option<String>)
    ensures
        suggests_comma(texts(expected@), found) ==> (r matches Some(h) && h@ == "missing `,`"@),
        !suggests_comma(texts(expected@), found) ==> r is None,
{
    let close_brack = String::from_str("`]`");
    let close_paren = String::from_str("`)`");
    let close_brace = String::from_str("`}`");
    let mut closer_expected = false;
    let mut i: usize = 0;
    while i < expected.len()
        invariant
            i <= expected.len(),
            close_brack@ == "`]`"@,
            close_paren@ == "`)`"@,
            close_brace@ == "`}`"@,
            closer_expected <==> exists|j: int|
                0 <= j < i && is_closer_label(#[trigger] texts(expected@)[j]),
        decreases expected.len() - i,
    {
        let e = &expected[i];
        proof {
            assert(texts(expected@)[i as int] == e@);
        }
        if *e == close_brack || *e == close_paren || *e == close_brace {
            closer_expected = true;
        }
        i = i + 1;
    }
    if !closer_expected {
        return None;
    }
    let found_begins_expr = match found {
        Some(k) => begins_expr(k),
        None => false,
    };
    if found_begins_expr {
        Some(String::from_str("missing `,`"))
    } else {
        None
    }
}

// ====================================================================
// Rules
// ====================================================================

/// The parser went from `pre` to `post` with outcome `r` as the grammar
/// result `res` says: on success it emitted exactly the result's events and
/// moved past at least one token; on failure it stands at the failure state.
pub closed spec fn follows(pre: Parser, post: Parser, res: PRes, r: Result<(), ()>) -> bool {
    &&& post.wf()
    &&& post.same_input(&pre)
    &&& match res {
        Ok((e, s1)) => {
            &&& r is Ok
            &&& post.evs() == pre.evs() + e
            &&& post.st() == s1
            &&& s1.pos > pre.st().pos
            &&& balanced(e)
        },
        Err(s1) => r is Err && post.st() == s1,
    }
}

/// Inserting `x` between `a` and `b`.
proof fn lemma_insert_between(a: Seq<Event>, b: Seq<Event>, x: Event)
    ensures
        (a + b).insert(a.len() as int, x) == a + seq![x] + b,
{
    assert((a + b).insert(a.len() as int, x) =~= a + seq![x] + b);
}

/// Three balanced runs in a row are balanced.
proof fn lemma_bal3(a: Seq<Event>, b: Seq<Event>, c: Seq<Event>)
    requires
        balanced(a),
        balanced(b),
        balanced(c),
    ensures
        balanced(a + b + c),
{
    lemma_balanced_concat(a, b);
    lemma_balanced_concat(a + b, c);
}

/// A balanced run `a` followed by a node of `kind` around the balanced `x`.
proof fn lemma_bal_node(a: Seq<Event>, kind: SyntaxKind, x: Seq<Event>)
    requires
        balanced(a),
        balanced(x),
    ensures
        balanced(a + wrap(kind, x)),
{
    lemma_balanced_wrap(kind, x);
    lemma_balanced_concat(a, wrap(kind, x));
}

/// Emitting `a` then `b` before a result.
proof fn lemma_prepend_prepend(a: Seq<Event>, b: Seq<Event>, r: PRes)
    ensures
        prepend(a, prepend(b, r)) == prepend(a + b, r),
{
    match r {
        Ok((x, s1)) => {
            assert(a + (b + x) =~= (a + b) + x);
        },
        Err(_) => {},
    }
}

/// How much stack must remain before the parser recurses in place.
pub const RED_ZONE: usize = 256 * 1024;

/// How much stack a fresh segment gets when the red zone is reached.
pub const STACK_SIZE: usize = 4 * 1024 * 1024;

/// Parses rule `lvl` with room to recurse: calls [`parse_rule`] through
/// `stacker::maybe_grow`, which runs the callback on the current stack when
/// at least [`RED_ZONE`] bytes remain and on a fresh [`STACK_SIZE`] segment
/// otherwise, and returns what the callback returns. The contract claims of
/// `maybe_grow` exactly that: the outcome is the callback's.
#[verifier::external_body]
fn grow_stack(p: &mut Parser, lvl: usize) -> (r: Result<(), ()>)
    requires
        old(p).wf(),
        lvl <= 13,
    ensures
        follows(
            *old(p),
            *final(p),
            rule(old(p).toks(), old(p).n(), lvl as int, old(p).st()),
            r,
        ),
{
    stacker::maybe_grow(RED_ZONE, STACK_SIZE, || parse_rule(p, lvl))
}

/// Parses rule `lvl` of the precedence ladder.
fn parse_rule(p: &mut Parser, lvl: usize) -> (r: Result<(), ()>)
    requires
        old(p).wf(),
        lvl <= 13,
    ensures
        follows(
            *old(p),
            *final(p),
            rule(old(p).toks(), old(p).n(), lvl as int, old(p).st()),
            r,
        ),
    decreases 2 * lvl + 2,
{
    if lvl == 13 {
        comma_chain(p)
    } else if lvl == 12 {
        seq_chain(p)
    } else if lvl == 11 || lvl == 10 || lvl == 3 {
        right_level(p, lvl)
    } else if lvl == 2 {
        unary(p)
    } else if lvl == 0 {
        primary(p)
    } else {
        left_level(p, lvl)
    }
}

/// A right-associative binary level: `operand (op rhs)?`, where the rhs
/// re-enters the level.
#[verifier::rlimit(60)]
fn right_level(p: &mut Parser, lvl: usize) -> (r: Result<(), ()>)
    requires
        old(p).wf(),
        lvl == 3 || lvl == 10 || lvl == 11,
    ensures
        follows(
            *old(p),
            *final(p),
            rule(old(p).toks(), old(p).n(), lvl as int, old(p).st()),
            r,
        ),
    decreases 2 * lvl + 1,
{
    let ghost t = p.toks();
    let ghost n = p.n();
    let ghost s = p.st();
    let ghost ev0 = p.evs();
    proof {
        lemma_next_sig(t, s.pos);
    }
    p.flush_trivia();
    let ghost s0 = p.st();
    let ghost base = p.evs();
    let cp = p.events.len();
    let r1 = parse_rule(p, lvl - 1);
    if r1.is_err() {
        return Err(());
    }
    let ghost e1 = (rule(t, n, lvl - 1, s0)->Ok_0).0;
    let ghost s1 = p.st();
    if p.at_level_op(lvl) {
        p.events.insert(cp, Event::Start(SyntaxKind::BIN_EXPR));
        proof {
            lemma_insert_between(base, e1, Event::Start(SyntaxKind::BIN_EXPR));
            lemma_tokens_of_insert(base, e1, Event::Start(SyntaxKind::BIN_EXPR));
        }
        p.bump();
        let ghost s2 = p.st();
        let ghost mid = p.evs();
        let r2 = grow_stack(p, lvl);
        if r2.is_err() {
            return Err(());
        }
        let ghost e2 = (rule(t, n, lvl as int, s2)->Ok_0).0;
        p.finish_node();
        proof {
            let b = bump(t, s1).0;
            assert(p.evs() =~= ev0 + (flush(t, s).0 + wrap(
                SyntaxKind::BIN_EXPR,
                e1 + b + e2,
            )));
            lemma_step_balanced(t, s);
            lemma_step_balanced(t, s1);
            lemma_bal3(e1, b, e2);
            lemma_bal_node(flush(t, s).0, SyntaxKind::BIN_EXPR, e1 + b + e2);
        }
    } else {
        p.expected(Expect::Operator);
        proof {
            assert(p.evs() =~= ev0 + (flush(t, s).0 + e1));
            lemma_step_balanced(t, s);
            lemma_balanced_concat(flush(t, s).0, e1);
        }
    }
    Ok(())
}

/// A left-associative binary level: `operand (op operand)*`, each link
/// wrapped in a `BIN_EXPR` around everything since the level's start.
#[verifier::rlimit(60)]
fn left_level(p: &mut Parser, lvl: usize) -> (r: Result<(), ()>)
    requires
        old(p).wf(),
        lvl == 1 || 4 <= lvl <= 9,
    ensures
        follows(
            *old(p),
            *final(p),
            rule(old(p).toks(), old(p).n(), lvl as int, old(p).st()),
            r,
        ),
    decreases 2 * lvl + 1,
{
    let ghost t = p.toks();
    let ghost n = p.n();
    let ghost s = p.st();
    let ghost ev0 = p.evs();
    proof {
        lemma_next_sig(t, s.pos);
    }
    p.flush_trivia();
    let ghost s0 = p.st();
    let ghost base = p.evs();
    let cp = p.events.len();
    let r1 = parse_rule(p, lvl - 1);
    if r1.is_err() {
        return Err(());
    }
    let ghost e1 = (rule(t, n, lvl - 1, s0)->Ok_0).0;
    let ghost s1 = p.st();
    let ghost mut acc = e1;
    loop
        invariant_except_break
            left_rest(t, n, lvl as int, s1, e1) == left_rest(t, n, lvl as int, p.st(), acc),
        invariant
            p.wf(),
            p.toks() == t,
            p.n() == n,
            t == old(p).toks(),
            n == old(p).n(),
            s == old(p).st(),
            ev0 == old(p).evs(),
            lvl == 1 || 4 <= lvl <= 9,
            cp == base.len(),
            base == ev0 + flush(t, s).0,
            p.evs() == base + acc,
            p.st().pos > s.pos,
            balanced(acc),
            rule(t, n, lvl as int, s) == (match left_rest(t, n, lvl as int, s1, e1) {
                Ok((e2, s2)) => Ok((flush(t, s).0 + e2, s2)),
                Err(e) => Err(e),
            }),
        ensures
            p.wf(),
            p.toks() == t,
            p.n() == n,
            p.evs() == base + acc,
            p.st().pos > s.pos,
            balanced(acc),
            left_rest(t, n, lvl as int, s1, e1) == Ok::<(Seq<Event>, PState), PState>((acc, p.st())),
            rule(t, n, lvl as int, s) == (match left_rest(t, n, lvl as int, s1, e1) {
                Ok((e2, s2)) => Ok((flush(t, s).0 + e2, s2)),
                Err(e) => Err(e),
            }),
        decreases p.tokens.len() - p.pos,
    {
        if !p.at_level_op(lvl) {
            p.expected(Expect::Operator);
            break ;
        }
        p.events.insert(cp, Event::Start(SyntaxKind::BIN_EXPR));
        proof {
            lemma_insert_between(base, acc, Event::Start(SyntaxKind::BIN_EXPR));
            lemma_tokens_of_insert(base, acc, Event::Start(SyntaxKind::BIN_EXPR));
        }
        let ghost sc = p.st();
        p.bump();
        let ghost sb = p.st();
        let r2 = parse_rule(p, lvl - 1);
        if r2.is_err() {
            return Err(());
        }
        let ghost e = (rule(t, n, lvl - 1, sb)->Ok_0).0;
        p.finish_node();
        proof {
            lemma_step_balanced(t, sc);
            lemma_bal3(acc, bump(t, sc).0, e);
            lemma_balanced_wrap(SyntaxKind::BIN_EXPR, acc + bump(t, sc).0 + e);
            acc = wrap(SyntaxKind::BIN_EXPR, acc + bump(t, sc).0 + e);
            assert(p.evs() =~= base + acc);
        }
    }
    proof {
        assert(p.evs() =~= ev0 + (flush(t, s).0 + acc));
        lemma_step_balanced(t, s);
        lemma_balanced_concat(flush(t, s).0, acc);
    }
    Ok(())
}

/// `unary = (`+` | `-` | `!` | `...`)* get`: each prefix wraps what follows
/// it in a `PREFIX_EXPR`.
fn unary(p: &mut Parser) -> (r: Result<(), ()>)
    requires
        old(p).wf(),
    ensures
        follows(*old(p), *final(p), rule(old(p).toks(), old(p).n(), 2, old(p).st()), r),
    decreases 5nat,
{
    let ghost t = p.toks();
    let ghost n = p.n();
    let ghost s = p.st();
    let ghost ev0 = p.evs();
    proof {
        lemma_next_sig(t, s.pos);
    }
    let is_prefix = match p.peek() {
        Some(k) => is_prefix_op_exec(k),
        None => false,
    };
    if is_prefix {
        p.start_node(SyntaxKind::PREFIX_EXPR);
        let ghost s0 = p.st();
        p.bump();
        let ghost s1 = p.st();
        let r1 = grow_stack(p, 2);
        if r1.is_err() {
            return Err(());
        }
        let ghost e1 = (rule(t, n, 2, s1)->Ok_0).0;
        p.finish_node();
        proof {
            assert(p.evs() =~= ev0 + (flush(t, s).0 + wrap(
                SyntaxKind::PREFIX_EXPR,
                bump(t, s0).0 + e1,
            )));
            lemma_step_balanced(t, s);
            lemma_step_balanced(t, s0);
            lemma_balanced_concat(bump(t, s0).0, e1);
            lemma_bal_node(flush(t, s).0, SyntaxKind::PREFIX_EXPR, bump(t, s0).0 + e1);
        }
        Ok(())
    } else {
        parse_rule(p, 1)
    }
}

/// The label of a closing delimiter kind.
fn closer_label(close: SyntaxKind) -> (e: Expect)
    ensures
        e == closer_expect(close),
{
    if close == SyntaxKind::CLOSE_PAREN {
        Expect::CloseParen
    } else if close == SyntaxKind::CLOSE_BRACK {
        Expect::CloseBrack
    } else {
        Expect::CloseBrace
    }
}

/// `primary`: a literal, a name or call, a parenthesized body, a list or a
/// map.
#[verifier::rlimit(80)]
fn primary(p: &mut Parser) -> (r: Result<(), ()>)
    requires
        old(p).wf(),
    ensures
        follows(*old(p), *final(p), rule(old(p).toks(), old(p).n(), 0, old(p).st()), r),
    decreases 1nat,
{
    let ghost t = p.toks();
    let ghost n = p.n();
    let ghost s = p.st();
    let ghost ev0 = p.evs();
    proof {
        assert(rule(t, n, 0, s) == grammar::primary(t, n, s));
        lemma_next_sig(t, s.pos);
    }
    match p.peek() {
        Some(SyntaxKind::NUMBER) | Some(SyntaxKind::STRING) => {
            p.start_node(SyntaxKind::LITERAL);
            let ghost s0 = p.st();
            p.bump();
            p.finish_node();
            proof {
                assert(p.evs() =~= ev0 + (flush(t, s).0 + wrap(
                    SyntaxKind::LITERAL,
                    bump(t, s0).0,
                )));
                lemma_step_balanced(t, s);
                lemma_step_balanced(t, s0);
                lemma_bal_node(flush(t, s).0, SyntaxKind::LITERAL, bump(t, s0).0);
            }
            Ok(())
        },
        Some(SyntaxKind::IDENT) => {
            if p.nth1() == Some(SyntaxKind::OPEN_PAREN) {
                p.start_node(SyntaxKind::CALL_EXPR);
                let ghost s0 = p.st();
                let ghost before = p.evs();
                p.events.push(Event::Start(SyntaxKind::NAME_REF));
                proof {
                    lemma_tokens_of_push(before, Event::Start(SyntaxKind::NAME_REF));
                }
                p.bump();
                p.finish_node();
                let ghost s1 = p.st();
                let ghost mid = p.evs();
                let r1 = delimited_list(p, SyntaxKind::ARG_LIST, SyntaxKind::CLOSE_PAREN);
                if r1.is_err() {
                    return Err(());
                }
                let ghost d = (grammar::delimited(
                    t,
                    n,
                    s1,
                    SyntaxKind::ARG_LIST,
                    SyntaxKind::CLOSE_PAREN,
                )->Ok_0).0;
                p.finish_node();
                proof {
                    assert(p.evs() =~= ev0 + (flush(t, s).0 + wrap(
                        SyntaxKind::CALL_EXPR,
                        wrap(SyntaxKind::NAME_REF, bump(t, s0).0) + d,
                    )));
                    lemma_step_balanced(t, s);
                    lemma_step_balanced(t, s0);
                    lemma_bal_node(Seq::<Event>::empty(), SyntaxKind::NAME_REF, bump(t, s0).0);
                    assert(Seq::<Event>::empty() + wrap(SyntaxKind::NAME_REF, bump(t, s0).0)
                        =~= wrap(SyntaxKind::NAME_REF, bump(t, s0).0));
                    lemma_balanced_concat(wrap(SyntaxKind::NAME_REF, bump(t, s0).0), d);
                    lemma_bal_node(
                        flush(t, s).0,
                        SyntaxKind::CALL_EXPR,
                        wrap(SyntaxKind::NAME_REF, bump(t, s0).0) + d,
                    );
                }
                Ok(())
            } else {
                p.start_node(SyntaxKind::NAME_REF);
                let ghost s0 = p.st();
                p.bump();
                p.finish_node();
                p.expected(Expect::OpenParen);
                proof {
                    assert(p.evs() =~= ev0 + (flush(t, s).0 + wrap(
                        SyntaxKind::NAME_REF,
                        bump(t, s0).0,
                    )));
                    lemma_step_balanced(t, s);
                    lemma_step_balanced(t, s0);
                    lemma_bal_node(flush(t, s).0, SyntaxKind::NAME_REF, bump(t, s0).0);
                }
                Ok(())
            }
        },
        Some(SyntaxKind::OPEN_PAREN) => {
            p.start_node(SyntaxKind::PAREN_EXPR);
            let ghost s0 = p.st();
            p.bump();
            let ghost s1 = p.st();
            let r1 = grow_stack(p, 13);
            if r1.is_err() {
                return Err(());
            }
            let ghost e1 = (rule(t, n, 13, s1)->Ok_0).0;
            if !p.at(SyntaxKind::CLOSE_PAREN) {
                p.expected(Expect::CloseParen);
                return Err(());
            }
            let ghost s2 = p.st();
            p.bump();
            p.finish_node();
            proof {
                assert(p.evs() =~= ev0 + (flush(t, s).0 + wrap(
                    SyntaxKind::PAREN_EXPR,
                    bump(t, s0).0 + e1 + bump(t, s2).0,
                )));
                lemma_step_balanced(t, s);
                lemma_step_balanced(t, s0);
                lemma_step_balanced(t, s2);
                lemma_bal3(bump(t, s0).0, e1, bump(t, s2).0);
                lemma_bal_node(
                    flush(t, s).0,
                    SyntaxKind::PAREN_EXPR,
                    bump(t, s0).0 + e1 + bump(t, s2).0,
                );
            }
            Ok(())
        },
        Some(SyntaxKind::OPEN_BRACK) => {
            delimited_list(p, SyntaxKind::LIST_EXPR, SyntaxKind::CLOSE_BRACK)
        },
        Some(SyntaxKind::OPEN_BRACE) => {
            delimited_list(p, SyntaxKind::MAP_EXPR, SyntaxKind::CLOSE_BRACE)
        },
        _ => {
            p.expected(Expect::Expression);
            Err(())
        },
    }
}

/// A `node` of comma-separated `seq_chain` items from the opener (the next
/// token) through the closer `close`. An omitted entry becomes a zero-width
/// `EMPTY_ARG` node; a trailing comma adds none.
#[verifier::rlimit(40)]
fn delimited_list(p: &mut Parser, node: SyntaxKind, close: SyntaxKind) -> (r: Result<(), ()>)
    requires
        old(p).wf(),
        peek(old(p).toks(), old(p).st()) is Some,
    ensures
        follows(
            *old(p),
            *final(p),
            grammar::delimited(old(p).toks(), old(p).n(), old(p).st(), node, close),
            r,
        ),
    decreases 0nat,
{
    let ghost t = p.toks();
    let ghost n = p.n();
    let ghost s = p.st();
    let ghost ev0 = p.evs();
    proof {
        lemma_next_sig(t, s.pos);
    }
    p.start_node(node);
    let ghost s0 = p.st();
    p.bump();
    let ghost s1 = p.st();
    let ghost base = p.evs();
    let ghost mut acc: Seq<Event> = Seq::empty();
    proof {
        lemma_balanced_tokens(acc);
        assert(base =~= base + acc);
        assert(delim_items(t, n, s1, close) =~~= prepend(acc, delim_items(t, n, s1, close)));
    }
    loop
        invariant_except_break
            delim_items(t, n, s1, close) == prepend(acc, delim_items(t, n, p.st(), close)),
        invariant
            p.wf(),
            p.toks() == t,
            p.n() == n,
            t == old(p).toks(),
            n == old(p).n(),
            s == old(p).st(),
            ev0 == old(p).evs(),
            p.evs() == base + acc,
            p.st().pos >= s1.pos,
            s1.pos > s.pos,
            balanced(acc),
            grammar::delimited(t, n, s, node, close) == (match delim_items(t, n, s1, close) {
                Ok((r, s2)) => Ok((flush(t, s).0 + wrap(node, bump(t, s0).0 + r), s2)),
                Err(e) => Err(e),
            }),
        ensures
            p.wf(),
            p.toks() == t,
            p.n() == n,
            p.evs() == base + acc,
            p.st().pos >= s1.pos,
            s1.pos > s.pos,
            balanced(acc),
            delim_items(t, n, s1, close) == Ok::<(Seq<Event>, PState), PState>((acc, p.st())),
        decreases p.tokens.len() - p.pos,
    {
        let ghost sc = p.st();
        let ghost ac = acc;
        proof {
            lemma_next_sig(t, sc.pos);
        }
        if p.at(close) {
            p.bump();
            proof {
                lemma_step_balanced(t, sc);
                lemma_balanced_concat(ac, bump(t, sc).0);
                acc = ac + bump(t, sc).0;
                assert(p.evs() =~= base + acc);
                assert(acc =~= ac + bump(t, sc).0);
            }
            break ;
        }
        if p.peek().is_none() {
            p.expected(closer_label(close));
            return Err(());
        }
        let ghost item_events: Seq<Event>;
        if p.at(SyntaxKind::COMMA) {
            p.flush_trivia();
            let ghost before = p.evs();
            p.events.push(Event::Start(SyntaxKind::EMPTY_ARG));
            proof {
                lemma_tokens_of_push(before, Event::Start(SyntaxKind::EMPTY_ARG));
            }
            p.finish_node();
            proof {
                item_events = flush(t, sc).0 + wrap(SyntaxKind::EMPTY_ARG, seq![]);
                assert(p.evs() =~= base + ac + item_events);
                lemma_step_balanced(t, sc);
                lemma_balanced_tokens(Seq::<Event>::empty());
                lemma_bal_node(flush(t, sc).0, SyntaxKind::EMPTY_ARG, Seq::<Event>::empty());
                assert(seq![] =~= Seq::<Event>::empty());
            }
        } else {
            let r1 = grow_stack(p, 12);
            if r1.is_err() {
                return Err(());
            }
            proof {
                item_events = (rule(t, n, 12, sc)->Ok_0).0;
            }
        }
        let ghost si = p.st();
        if p.at(SyntaxKind::COMMA) {
            p.bump();
            proof {
                let b = bump(t, si).0;
                lemma_step_balanced(t, si);
                lemma_bal3(ac, item_events, b);
                assert(ac + item_events + b =~= ac + (item_events + b));
                lemma_prepend_prepend(ac, item_events + b, delim_items(t, n, p.st(), close));
                acc = ac + (item_events + b);
                assert(p.evs() =~= base + acc);
            }
        } else if p.at(close) {
            p.bump();
            proof {
                lemma_step_balanced(t, si);
                lemma_bal3(ac, item_events, bump(t, si).0);
                assert(ac + item_events + bump(t, si).0 =~= ac + (item_events + bump(t, si).0));
                acc = ac + (item_events + bump(t, si).0);
                assert(p.evs() =~= base + acc);
            }
            break ;
        } else {
            p.expected(closer_label(close));
            return Err(());
        }
    }
    p.finish_node();
    proof {
        assert(p.evs() =~= ev0 + (flush(t, s).0 + wrap(node, bump(t, s0).0 + acc)));
        lemma_step_balanced(t, s);
        lemma_step_balanced(t, s0);
        lemma_balanced_concat(bump(t, s0).0, acc);
        lemma_bal_node(flush(t, s).0, node, bump(t, s0).0 + acc);
    }
    Ok(())
}

/// `comma_chain = seq_chain (`,` seq_chain)*`: n-ary, lenient about a
/// trailing `,`; without a `,` no chain node is built.
#[verifier::rlimit(60)]
fn comma_chain(p: &mut Parser) -> (r: Result<(), ()>)
    requires
        old(p).wf(),
    ensures
        follows(*old(p), *final(p), rule(old(p).toks(), old(p).n(), 13, old(p).st()), r),
    decreases 27nat,
{
    let ghost t = p.toks();
    let ghost n = p.n();
    let ghost s = p.st();
    let ghost ev0 = p.evs();
    proof {
        lemma_next_sig(t, s.pos);
    }
    p.flush_trivia();
    let ghost s0 = p.st();
    let ghost base = p.evs();
    let cp = p.events.len();
    let r1 = parse_rule(p, 12);
    if r1.is_err() {
        return Err(());
    }
    let ghost e1 = (rule(t, n, 12, s0)->Ok_0).0;
    let ghost s1 = p.st();
    if !p.at(SyntaxKind::COMMA) {
        proof {
            assert(p.evs() =~= ev0 + (flush(t, s).0 + e1));
            lemma_step_balanced(t, s);
            lemma_balanced_concat(flush(t, s).0, e1);
        }
        return Ok(());
    }
    p.events.insert(cp, Event::Start(SyntaxKind::COMMA_CHAIN));
    proof {
        lemma_insert_between(base, e1, Event::Start(SyntaxKind::COMMA_CHAIN));
        lemma_tokens_of_insert(base, e1, Event::Start(SyntaxKind::COMMA_CHAIN));
    }
    let ghost base2 = p.evs();
    let ghost mut acc: Seq<Event> = Seq::empty();
    proof {
        lemma_balanced_tokens(acc);
        assert(base2 =~= base2 + acc);
        assert(comma_rest(t, n, s1) =~~= prepend(acc, comma_rest(t, n, s1)));
    }
    loop
        invariant_except_break
            peek(t, p.st()) == Some(SyntaxKind::COMMA),
            comma_rest(t, n, s1) == prepend(acc, comma_rest(t, n, p.st())),
        invariant
            p.wf(),
            p.toks() == t,
            p.n() == n,
            t == old(p).toks(),
            n == old(p).n(),
            s == old(p).st(),
            ev0 == old(p).evs(),
            p.evs() == base2 + acc,
            p.st().pos > s.pos,
            balanced(acc),
            rule(t, n, 13, s) == (match comma_rest(t, n, s1) {
                Ok((e2, s2)) => Ok((flush(t, s).0 + wrap(SyntaxKind::COMMA_CHAIN, e1 + e2), s2)),
                Err(e) => Err(e),
            }),
        ensures
            p.wf(),
            p.toks() == t,
            p.n() == n,
            p.evs() == base2 + acc,
            p.st().pos > s.pos,
            balanced(acc),
            comma_rest(t, n, s1) == Ok::<(Seq<Event>, PState), PState>((acc, p.st())),
        decreases p.tokens.len() - p.pos,
    {
        let ghost sc = p.st();
        let ghost ac = acc;
        p.bump();
        let ghost sb = p.st();
        let ghost b = bump(t, sc).0;
        if p.at_comma_chain_end() {
            proof {
                lemma_next_sig(t, sb.pos);
            }
            p.flush_trivia();
            proof {
                lemma_step_balanced(t, sc);
                lemma_step_balanced(t, sb);
                lemma_bal3(ac, b, flush(t, sb).0);
                assert(ac + b + flush(t, sb).0 =~= ac + (b + flush(t, sb).0));
                acc = ac + (b + flush(t, sb).0);
                assert(p.evs() =~= base2 + acc);
            }
            break ;
        }
        let r2 = parse_rule(p, 12);
        if r2.is_err() {
            return Err(());
        }
        let ghost e = (rule(t, n, 12, sb)->Ok_0).0;
        proof {
            lemma_step_balanced(t, sc);
            lemma_bal3(ac, b, e);
            assert(ac + b + e =~= ac + (b + e));
            acc = ac + (b + e);
            assert(p.evs() =~= base2 + acc);
        }
        if !p.at(SyntaxKind::COMMA) {
            break ;
        }
        proof {
            lemma_prepend_prepend(ac, b + e, comma_rest(t, n, p.st()));
        }
    }
    p.finish_node();
    proof {
        assert(p.evs() =~= ev0 + (flush(t, s).0 + wrap(SyntaxKind::COMMA_CHAIN, e1 + acc)));
        lemma_step_balanced(t, s);
        lemma_balanced_concat(e1, acc);
        lemma_bal_node(flush(t, s).0, SyntaxKind::COMMA_CHAIN, e1 + acc);
    }
    Ok(())
}

/// `seq_chain = arrow (`;` arrow)*`: n-ary, lenient about a trailing `;`
/// and about `;;` runs; without a `;` no chain node is built.
#[verifier::rlimit(60)]
fn seq_chain(p: &mut Parser) -> (r: Result<(), ()>)
    requires
        old(p).wf(),
    ensures
        follows(*old(p), *final(p), rule(old(p).toks(), old(p).n(), 12, old(p).st()), r),
    decreases 25nat,
{
    let ghost t = p.toks();
    let ghost n = p.n();
    let ghost s = p.st();
    let ghost ev0 = p.evs();
    proof {
        lemma_next_sig(t, s.pos);
    }
    p.flush_trivia();
    let ghost s0 = p.st();
    let ghost base = p.evs();
    let cp = p.events.len();
    let r1 = parse_rule(p, 11);
    if r1.is_err() {
        return Err(());
    }
    let ghost e1 = (rule(t, n, 11, s0)->Ok_0).0;
    let ghost s1 = p.st();
    if !p.at(SyntaxKind::SEMICOLON) {
        proof {
            assert(p.evs() =~= ev0 + (flush(t, s).0 + e1));
            lemma_step_balanced(t, s);
            lemma_balanced_concat(flush(t, s).0, e1);
        }
        return Ok(());
    }
    p.events.insert(cp, Event::Start(SyntaxKind::SEMI_CHAIN));
    proof {
        lemma_insert_between(base, e1, Event::Start(SyntaxKind::SEMI_CHAIN));
        lemma_tokens_of_insert(base, e1, Event::Start(SyntaxKind::SEMI_CHAIN));
    }
    let ghost base2 = p.evs();
    let ghost mut acc: Seq<Event> = Seq::empty();
    proof {
        lemma_balanced_tokens(acc);
        assert(base2 =~= base2 + acc);
        assert(seq_rest(t, n, s1) =~~= prepend(acc, seq_rest(t, n, s1)));
    }
    loop
        invariant_except_break
            peek(t, p.st()) == Some(SyntaxKind::SEMICOLON),
            seq_rest(t, n, s1) == prepend(acc, seq_rest(t, n, p.st())),
        invariant
            p.wf(),
            p.toks() == t,
            p.n() == n,
            t == old(p).toks(),
            n == old(p).n(),
            s == old(p).st(),
            ev0 == old(p).evs(),
            p.evs() == base2 + acc,
            p.st().pos > s.pos,
            balanced(acc),
            rule(t, n, 12, s) == (match seq_rest(t, n, s1) {
                Ok((e2, s2)) => Ok((flush(t, s).0 + wrap(SyntaxKind::SEMI_CHAIN, e1 + e2), s2)),
                Err(e) => Err(e),
            }),
        ensures
            p.wf(),
            p.toks() == t,
            p.n() == n,
            p.evs() == base2 + acc,
            p.st().pos > s.pos,
            balanced(acc),
            seq_rest(t, n, s1) == Ok::<(Seq<Event>, PState), PState>((acc, p.st())),
        decreases p.tokens.len() - p.pos,
    {
        let ghost sc = p.st();
        let ghost ac = acc;
        let ghost mut run: Seq<Event> = Seq::empty();
        p.bump();
        proof {
            run = bump(t, sc).0;
            lemma_step_balanced(t, sc);
        }
        while p.at(SyntaxKind::SEMICOLON)
            invariant
                p.wf(),
                p.toks() == t,
                p.n() == n,
                p.evs() == base2 + ac + run,
                balanced(run),
                balanced(ac),
                p.st().pos > sc.pos,
                sc.pos > s.pos,
                semis(t, sc) == (if peek(t, p.st()) == Some(SyntaxKind::SEMICOLON) {
                    (run + semis(t, p.st()).0, semis(t, p.st()).1)
                } else {
                    (run, p.st())
                }),
            decreases p.tokens.len() - p.pos,
        {
            let ghost sr = p.st();
            let ghost rn = run;
            p.bump();
            proof {
                lemma_step_balanced(t, sr);
                lemma_balanced_concat(rn, bump(t, sr).0);
                run = rn + bump(t, sr).0;
                assert(p.evs() =~= base2 + ac + run);
                assert(rn + (bump(t, sr).0 + semis(t, p.st()).0) =~= run + semis(t, p.st()).0);
            }
        }
        let ghost sm = p.st();
        if p.at_seq_chain_end() {
            proof {
                lemma_next_sig(t, sm.pos);
            }
            p.flush_trivia();
            proof {
                lemma_step_balanced(t, sm);
                lemma_bal3(ac, run, flush(t, sm).0);
                assert(ac + run + flush(t, sm).0 =~= ac + (run + flush(t, sm).0));
                acc = ac + (run + flush(t, sm).0);
                assert(p.evs() =~= base2 + acc);
            }
            break ;
        }
        let r2 = parse_rule(p, 11);
        if r2.is_err() {
            return Err(());
        }
        let ghost e = (rule(t, n, 11, sm)->Ok_0).0;
        proof {
            lemma_bal3(ac, run, e);
            assert(ac + run + e =~= ac + (run + e));
            acc = ac + (run + e);
            assert(p.evs() =~= base2 + acc);
        }
        if !p.at(SyntaxKind::SEMICOLON) {
            break ;
        }
        proof {
            lemma_prepend_prepend(ac, run + e, seq_rest(t, n, p.st()));
        }
    }
    p.finish_node();
    proof {
        assert(p.evs() =~= ev0 + (flush(t, s).0 + wrap(SyntaxKind::SEMI_CHAIN, e1 + acc)));
        lemma_step_balanced(t, s);
        lemma_balanced_concat(e1, acc);
        lemma_bal_node(flush(t, s).0, SyntaxKind::SEMI_CHAIN, e1 + acc);
    }
    Ok(())
}

/// Every failure of [`parse_source`] carries a non-empty message: a
/// structural headline, an `expected …` clause, or `unexpected token`.
pub proof fn lemma_message_nonempty(src: &str, e: ParseError)
    requires
        (exists|f: DelimFault| describes_fault(e, resolved(src), src, f)) || (exists|s: PState|
            describes_failure(e, resolved(src), src, s)),
    ensures
        message_of(opt_text(e.headline), texts(e.expected@), opt_text(e.found)).len() > 0,
{
    reveal_strlit("unmatched closing delimiter");
    reveal_strlit("mismatched closing delimiter");
    reveal_strlit("unclosed delimiter");
    reveal_strlit("unexpected token");
    reveal_strlit("expected ");
    reveal_strlit("expected one of ");
    let labels = texts(e.expected@);
    match phrase_of(labels) {
        Some(p) => {
            if labels.len() == 1 {
                assert(p == "expected "@ + labels[0]);
            } else if labels.len() == 2 {
                assert(p == "expected "@ + labels[0] + " or "@ + labels[1]);
            } else {
                assert(p.len() >= "expected one of "@.len());
            }
        },
        None => {},
    }
}

} // verus!
