//! The compact-tree front end's parser: reads the [`crate::lexer`] token
//! stream into preorder events following [`crate::cst_grammar`] step for
//! step. Fail-fast: the first violation of the grammar ends the parse.

use vstd::prelude::*;
use vstd::string::StringSliceAdditionalSpecFns;
use vstd::utf8::{is_char_boundary, valid_utf8};

use crate::cst_grammar::{
    FEvent, FRes, FTok, at_closer_or_eof, at_level_op, bump, bump_as, chain_rest, constructor_of,
    constructor_token, delim_label, flush, is_level_op, is_prefix_op, left_rest,
    is_call_before, close_of, lemma_next_sig, lemma_token_events_empty, pair_then_semi, top_arrow, lemma_token_events_snoc, next_sig, peek, peek2,
    prepend, rule, semis, token_events, wrap,
};
use crate::cst::Cst;
use crate::cst_grammar;
use crate::cst::cst_model;
use crate::cst_lower::{from_root, root_m};
use crate::ftree::{FElem, FNode, build_forest, elems_events, lemma_root_balanced};
use crate::kind::SyntaxKind as TreeKind;
use crate::lex::lemma_src_bytes;
use crate::token_cover::{index_run, lemma_root_covers, lemma_token_indices_wrap, token_indices};
use crate::tree::Tok;
use crate::lex::{lemma_token_start_end, lemma_token_start_mono, lemma_token_start_step, token_start, total_len};
use crate::lexer::{Token, lex, starts_on_boundaries, texts_concat, token_pairs, tokens_from};
use crate::parse::{
    DelimFault, ints, is_closer_label, lemma_toks_text_whole, message_of, opt_text, phrase_of, text_at, texts, tiles,
    toks_text,
};
use crate::syntax::SyntaxKind;

pub use crate::parse::ParseError;

verus! {

/// The grammar's view of a token stream.
pub open spec fn ftoks(tokens: Seq<Token>) -> Seq<FTok> {
    tokens.map_values(|t: Token| (t.kind, t.text@))
}

/// The texts of a list of labels.
pub open spec fn strs(v: Seq<&'static str>) -> Seq<Seq<char>> {
    v.map_values(|s: &'static str| s@)
}

/// The parser's working state: the token stream, the cursor, and the
/// events emitted so far.
pub struct FParser<'s> {
    tokens: Vec<Token<'s>>,
    pos: usize,
    events: Vec<FEvent>,
}

impl<'s> FParser<'s> {
    /// The grammar's view of the token stream.
    pub closed spec fn toks(&self) -> Seq<FTok> {
        ftoks(self.tokens@)
    }

    /// The cursor.
    pub closed spec fn at_index(&self) -> int {
        self.pos as int
    }

    /// The events emitted so far.
    pub closed spec fn evs(&self) -> Seq<FEvent> {
        self.events@
    }

    /// The cursor lies within the stream.
    pub closed spec fn wf(&self) -> bool {
        self.pos <= self.tokens.len()
    }

    /// `self` and `other` read the same tokens.
    pub closed spec fn same_input(&self, other: &FParser<'s>) -> bool {
        self.tokens@ == other.tokens@
    }

    /// The index of the first significant token at or after `i`.
    fn next_sig(&self, i: usize) -> (j: usize)
        requires
            i <= self.tokens.len(),
        ensures
            j == next_sig(self.toks(), i as int),
    {
        let mut j = i;
        while j < self.tokens.len() && self.tokens[j].kind.is_trivia()
            invariant
                i <= j <= self.tokens.len(),
                next_sig(self.toks(), j as int) == next_sig(self.toks(), i as int),
            decreases self.tokens.len() - j,
        {
            j = j + 1;
        }
        j
    }

    /// The kind of the next significant token.
    fn peek(&self) -> (r: Option<SyntaxKind>)
        requires
            self.wf(),
        ensures
            r == peek(self.toks(), self.at_index()),
    {
        let j = self.next_sig(self.pos);
        if j < self.tokens.len() {
            Some(self.tokens[j].kind)
        } else {
            None
        }
    }

    /// Whether the next significant token is of `kind`.
    fn at(&self, kind: SyntaxKind) -> (b: bool)
        requires
            self.wf(),
        ensures
            b == (peek(self.toks(), self.at_index()) == Some(kind)),
    {
        match self.peek() {
            Some(k) => k == kind,
            None => false,
        }
    }

    /// Whether the next token is a closer or the end of input.
    fn at_closer_or_eof(&self) -> (b: bool)
        requires
            self.wf(),
        ensures
            b == at_closer_or_eof(self.toks(), self.at_index()),
    {
        match self.peek() {
            Some(k) => k.is_closer(),
            None => true,
        }
    }

    /// Whether the next token is an operator of binary level `lvl`.
    fn at_level_op(&self, lvl: usize) -> (b: bool)
        requires
            self.wf(),
        ensures
            b == at_level_op(self.toks(), lvl as int, self.at_index()),
    {
        match self.peek() {
            Some(k) => is_level_op_exec(lvl, k),
            None => false,
        }
    }

    /// The literal constructor the next token spells when a `(` follows it.
    fn peek_literal_constructor(&self) -> (r: Option<SyntaxKind>)
        requires
            self.wf(),
            peek(self.toks(), self.at_index()) == Some(SyntaxKind::IDENT),
        ensures
            r == (if peek2(self.toks(), self.at_index()) == Some(SyntaxKind::L_PAREN) {
                constructor_of(self.toks()[next_sig(self.toks(), self.at_index())].1)
            } else {
                None
            }),
    {
        let j = self.next_sig(self.pos);
        proof {
            lemma_next_sig(self.toks(), self.pos as int);
        }
        let text = self.tokens[j].text;
        proof {
            assert(self.toks()[j as int].1 == text@);
        }
        let k = self.next_sig(j + 1);
        let paren_follows = k < self.tokens.len() && self.tokens[k].kind == SyntaxKind::L_PAREN;
        proof {
            if k < self.tokens.len() {
                assert(self.toks()[k as int].0 == self.tokens@[k as int].kind);
            }
        }
        if !paren_follows {
            return None;
        }
        if text.unicode_len() != 1 {
            proof {
                assert(text@ != seq!['l']);
                assert(text@ != seq!['m']);
            }
            return None;
        }
        let c = text.get_char(0);
        if c == 'l' {
            proof {
                assert(text@ =~= seq!['l']);
            }
            Some(SyntaxKind::LIST_EXPR)
        } else if c == 'm' {
            proof {
                assert(text@ =~= seq!['m']);
            }
            Some(SyntaxKind::MAP_EXPR)
        } else {
            proof {
                assert(text@ != seq!['l']) by {
                    if text@ =~= seq!['l'] {
                        assert(text@[0] == 'l');
                    }
                }
                assert(text@ != seq!['m']) by {
                    if text@ =~= seq!['m'] {
                        assert(text@[0] == 'm');
                    }
                }
            }
            None
        }
    }

    /// The first `->` of `tokens[from..to]` that stands outside every
    /// bracket; `to` when there is none.
    fn top_arrow(&self, from: usize, to: usize) -> (a: usize)
        requires
            from <= to <= self.tokens.len(),
        ensures
            a == top_arrow(self.toks(), from as int, to as int, 0),
    {
        let ghost t = self.toks();
        let mut k = from;
        let mut d: usize = 0;
        while k < to
            invariant
                from <= k <= to <= self.tokens.len(),
                t == self.toks(),
                d <= k,
                top_arrow(t, k as int, to as int, d as nat) == top_arrow(t, from as int, to as int, 0),
            decreases to - k,
        {
            let kind = self.tokens[k].kind;
            proof {
                assert(t[k as int].0 == kind);
            }
            if d == 0 && kind == SyntaxKind::ARROW {
                return k;
            }
            if kind.is_opener() {
                d = d + 1;
            } else if kind.is_closer() && d > 0 {
                d = d - 1;
            }
            k = k + 1;
        }
        k
    }

    /// The index of the token from `from` on that closes a bracket opened
    /// just before it; the stream's length when none does.
    fn close_of(&self, from: usize) -> (c: usize)
        requires
            1 <= from <= self.tokens.len(),
        ensures
            c == close_of(self.toks(), from as int, 1),
    {
        let ghost t = self.toks();
        let mut k = from;
        let mut d: usize = 1;
        while k < self.tokens.len()
            invariant
                1 <= from <= k <= self.tokens.len(),
                t == self.toks(),
                1 <= d <= k - from + 1,
                close_of(t, k as int, d as nat) == close_of(t, from as int, 1),
            decreases self.tokens.len() - k,
        {
            let kind = self.tokens[k].kind;
            proof {
                assert(t[k as int].0 == kind);
            }
            let nd = if kind.is_opener() {
                d + 1
            } else if kind.is_closer() {
                d - 1
            } else {
                d
            };
            if nd == 0 {
                return k;
            }
            d = nd;
            k = k + 1;
        }
        k
    }

    /// Whether the tokens from `i` up to index `a` are exactly a call.
    fn is_call_before(&self, i: usize, a: usize) -> (b: bool)
        requires
            i <= self.tokens.len(),
            a <= self.tokens.len(),
        ensures
            b == is_call_before(self.toks(), i as int, a as int),
    {
        let ghost t = self.toks();
        let s = self.next_sig(i);
        if s >= self.tokens.len() {
            return false;
        }
        let tok = self.tokens[s];
        proof {
            assert(t[s as int] == (tok.kind, tok.text@));
        }
        if tok.kind != SyntaxKind::IDENT {
            return false;
        }
        if tok.text.unicode_len() == 1 {
            let c = tok.text.get_char(0);
            if c == 'l' || c == 'm' {
                proof {
                    assert(tok.text@ =~= seq![c]);
                }
                return false;
            }
        }
        proof {
            assert(tok.text@ != seq!['l']) by {
                if tok.text@ =~= seq!['l'] {
                    assert(tok.text@[0] == 'l');
                }
            }
            assert(tok.text@ != seq!['m']) by {
                if tok.text@ =~= seq!['m'] {
                    assert(tok.text@[0] == 'm');
                }
            }
        }
        let q = self.next_sig(s + 1);
        if q >= self.tokens.len() {
            return false;
        }
        proof {
            assert(t[q as int].0 == self.tokens@[q as int].kind);
        }
        if self.tokens[q].kind != SyntaxKind::L_PAREN {
            return false;
        }
        let c = self.close_of(q + 1);
        if c >= self.tokens.len() {
            return false;
        }
        self.next_sig(c + 1) == a
    }

    /// Emits all pending trivia tokens.
    fn flush_trivia(&mut self)
        requires
            old(self).wf(),
        ensures
            final(self).wf(),
            final(self).same_input(old(self)),
            final(self).evs() == old(self).evs() + flush(old(self).toks(), old(self).at_index()).0,
            final(self).at_index() == flush(old(self).toks(), old(self).at_index()).1,
            peek(final(self).toks(), final(self).at_index()) == peek(
                old(self).toks(),
                old(self).at_index(),
            ),
            peek2(final(self).toks(), final(self).at_index()) == peek2(
                old(self).toks(),
                old(self).at_index(),
            ),
            next_sig(final(self).toks(), final(self).at_index()) == final(self).at_index(),
            next_sig(old(self).toks(), old(self).at_index()) == final(self).at_index(),
    {
        let ghost s = self.pos as int;
        let ghost ev0 = self.events@;
        let ghost t = self.toks();
        proof {
            lemma_token_events_empty(t, s);
            assert(self.events@ =~= ev0 + token_events(t, s, s));
        }
        while self.pos < self.tokens.len() && self.tokens[self.pos].kind.is_trivia()
            invariant
                self.wf(),
                self.toks() == t,
                self.tokens@ == old(self).tokens@,
                0 <= s <= self.pos,
                next_sig(t, self.pos as int) == next_sig(t, s),
                self.events@ == ev0 + token_events(t, s, self.pos as int),
            decreases self.tokens.len() - self.pos,
        {
            let kind = self.tokens[self.pos].kind;
            self.events.push(FEvent::Token(self.pos, kind));
            proof {
                assert(t[self.pos as int].0 == kind);
                lemma_token_events_snoc(t, s, self.pos as int);
                assert(self.events@ =~= ev0 + token_events(t, s, self.pos + 1));
            }
            self.pos = self.pos + 1;
        }
        proof {
            lemma_next_sig(t, s);
        }
    }

    /// Emits the pending trivia and then the next significant token.
    fn bump(&mut self)
        requires
            old(self).wf(),
            peek(old(self).toks(), old(self).at_index()) is Some,
        ensures
            final(self).wf(),
            final(self).same_input(old(self)),
            final(self).evs() == old(self).evs() + bump(old(self).toks(), old(self).at_index()).0,
            final(self).at_index() == bump(old(self).toks(), old(self).at_index()).1,
            final(self).pos > old(self).pos,
    {
        let ghost s = self.pos as int;
        let ghost t = self.toks();
        proof {
            lemma_next_sig(t, s);
        }
        self.flush_trivia();
        let kind = self.tokens[self.pos].kind;
        self.events.push(FEvent::Token(self.pos, kind));
        proof {
            assert(t[self.pos as int].0 == kind);
            lemma_token_events_snoc(t, s, self.pos as int);
            assert(self.events@ =~= old(self).events@ + bump(t, s).0);
        }
        self.pos = self.pos + 1;
    }

    /// Emits the pending trivia and then the next significant token,
    /// reclassified as `kind`.
    fn bump_as(&mut self, kind: SyntaxKind)
        requires
            old(self).wf(),
            peek(old(self).toks(), old(self).at_index()) is Some,
        ensures
            final(self).wf(),
            final(self).same_input(old(self)),
            final(self).evs() == old(self).evs() + bump_as(
                old(self).toks(),
                old(self).at_index(),
                kind,
            ).0,
            final(self).at_index() == bump_as(old(self).toks(), old(self).at_index(), kind).1,
            final(self).pos > old(self).pos,
    {
        let ghost s = self.pos as int;
        let ghost t = self.toks();
        proof {
            lemma_next_sig(t, s);
        }
        self.flush_trivia();
        self.events.push(FEvent::Token(self.pos, kind));
        proof {
            assert(self.events@ =~= old(self).events@ + bump_as(t, s, kind).0);
        }
        self.pos = self.pos + 1;
    }

    /// Opens a node of `kind` after flushing pending trivia.
    fn start_node(&mut self, kind: SyntaxKind)
        requires
            old(self).wf(),
        ensures
            final(self).wf(),
            final(self).same_input(old(self)),
            final(self).evs() == old(self).evs() + flush(old(self).toks(), old(self).at_index()).0
                + seq![FEvent::Start(kind)],
            final(self).at_index() == flush(old(self).toks(), old(self).at_index()).1,
            peek(final(self).toks(), final(self).at_index()) == peek(
                old(self).toks(),
                old(self).at_index(),
            ),
            peek2(final(self).toks(), final(self).at_index()) == peek2(
                old(self).toks(),
                old(self).at_index(),
            ),
            next_sig(old(self).toks(), old(self).at_index()) == final(self).at_index(),
    {
        self.flush_trivia();
        self.events.push(FEvent::Start(kind));
    }

    /// Closes the innermost open node.
    fn finish_node(&mut self)
        requires
            old(self).wf(),
        ensures
            final(self).wf(),
            final(self).same_input(old(self)),
            final(self).evs() == old(self).evs().push(FEvent::Finish),
            final(self).at_index() == old(self).at_index(),
    {
        self.events.push(FEvent::Finish);
    }
}

/// The operator tokens of binary level `lvl`.
fn is_level_op_exec(lvl: usize, k: SyntaxKind) -> (b: bool)
    ensures
        b == is_level_op(lvl as int, k),
{
    match lvl {
        1 => k == SyntaxKind::TILDE || k == SyntaxKind::COLON,
        3 => k == SyntaxKind::CARET,
        4 => k == SyntaxKind::STAR || k == SyntaxKind::SLASH || k == SyntaxKind::PERCENT,
        5 => k == SyntaxKind::PLUS || k == SyntaxKind::MINUS,
        6 => k == SyntaxKind::LT_EQ || k == SyntaxKind::GT_EQ || k == SyntaxKind::LT || k
            == SyntaxKind::GT,
        7 => k == SyntaxKind::EQ2 || k == SyntaxKind::BANG_EQ,
        8 => k == SyntaxKind::AMP2,
        9 => k == SyntaxKind::PIPE2,
        10 => k == SyntaxKind::EQ || k == SyntaxKind::PLUS_EQ || k == SyntaxKind::LT_GT,
        11 => k == SyntaxKind::ARROW,
        _ => false,
    }
}

/// The literal label of a delimiter kind.
pub fn delim_label_exec(k: SyntaxKind) -> (r: &'static str)
    ensures
        r@ == delim_label(k),
{
    match k {
        SyntaxKind::L_PAREN => "`(`",
        SyntaxKind::R_PAREN => "`)`",
        SyntaxKind::L_BRACK => "`[`",
        SyntaxKind::R_BRACK => "`]`",
        SyntaxKind::L_BRACE => "`{`",
        _ => "`}`",
    }
}

/// The parser went from `pre` to `post` with outcome `r` as the grammar
/// result `res` says: on success it emitted exactly the result's events and
/// moved past at least one token; on failure it stands at the failure's
/// token with the failure's labels.
pub closed spec fn follows<'s>(
    pre: FParser<'s>,
    post: FParser<'s>,
    res: FRes,
    r: Result<(), Vec<&'static str>>,
) -> bool {
    &&& post.wf()
    &&& post.same_input(&pre)
    &&& match res {
        Ok((e, j)) => {
            &&& r is Ok
            &&& post.evs() == pre.evs() + e
            &&& post.at_index() == j
            &&& j > pre.at_index()
        },
        Err((j, labels)) => r matches Err(v) && post.at_index() == j && strs(v@) == labels,
    }
}

/// Like [`follows`], without the promise of progress: for the argument
/// list, which may be empty.
pub closed spec fn follows_maybe_empty<'s>(
    pre: FParser<'s>,
    post: FParser<'s>,
    res: FRes,
    r: Result<(), Vec<&'static str>>,
) -> bool {
    &&& post.wf()
    &&& post.same_input(&pre)
    &&& match res {
        Ok((e, j)) => {
            &&& r is Ok
            &&& post.evs() == pre.evs() + e
            &&& post.at_index() == j
            &&& j >= pre.at_index()
        },
        Err((j, labels)) => r matches Err(v) && post.at_index() == j && strs(v@) == labels,
    }
}

/// The contextual keyword token of a literal constructor's node kind.
fn constructor_token_exec(node: SyntaxKind) -> (k: SyntaxKind)
    ensures
        k == constructor_token(node),
{
    if node == SyntaxKind::LIST_EXPR {
        SyntaxKind::L_KW
    } else {
        SyntaxKind::M_KW
    }
}

/// Inserting `x` between `a` and `b`.
proof fn lemma_insert_between(a: Seq<FEvent>, b: Seq<FEvent>, x: FEvent)
    ensures
        (a + b).insert(a.len() as int, x) == a + seq![x] + b,
{
    assert((a + b).insert(a.len() as int, x) =~= a + seq![x] + b);
}

/// Emitting `a` then `b` before a result.
proof fn lemma_prepend_prepend(a: Seq<FEvent>, b: Seq<FEvent>, r: FRes)
    ensures
        prepend(a, prepend(b, r)) == prepend(a + b, r),
{
    match r {
        Ok((x, j)) => {
            assert(a + (b + x) =~= (a + b) + x);
        },
        Err(_) => {},
    }
}

/// Parses rule `lvl` of the precedence ladder.
fn parse_rule(p: &mut FParser, lvl: usize) -> (r: Result<(), Vec<&'static str>>)
    requires
        old(p).wf(),
        lvl <= 13,
    ensures
        follows(*old(p), *final(p), rule(old(p).toks(), lvl as int, old(p).at_index()), r),
    decreases old(p).tokens.len() - old(p).pos, 2 * lvl + 6,
{
    if lvl == 13 || lvl == 12 {
        chain(p, lvl, false)
    } else if lvl == 11 || lvl == 10 || lvl == 3 {
        right_level(p, lvl)
    } else if lvl == 2 {
        unary(p)
    } else if lvl == 0 {
        primary(p)
    } else {
        left_level(p, lvl)
    }
}

/// No key/value pair at `s` is followed by a `;` (see [`pair_then_semi`]).
#[verifier::opaque]
spec fn no_pair_semi(t: Seq<FTok>, s: int) -> bool {
    pair_then_semi(t, s) is None
}

/// A `,` (`lvl` 13) or `;` (`lvl` 12) chain: items joined left-associatively
/// into `BIN_EXPR`s, lenient about a trailing separator and `;;` runs.
#[verifier::rlimit(100)]
#[verifier::spinoff_prover]
fn chain(p: &mut FParser, lvl: usize, pairs: bool) -> (r: Result<(), Vec<&'static str>>)
    requires
        old(p).wf(),
        lvl == 12 || lvl == 13,
        pairs ==> lvl == 12,
    ensures
        follows(
            *old(p),
            *final(p),
            if pairs && pair_then_semi(old(p).toks(), old(p).at_index()) is Some {
                Err((pair_then_semi(old(p).toks(), old(p).at_index())->Some_0, seq!["`,`"@, "`}`"@]))
            } else {
                rule(old(p).toks(), lvl as int, old(p).at_index())
            },
            r,
        ),
    decreases old(p).tokens.len() - old(p).pos, 2 * lvl + 5,
{
    let ghost t = p.toks();
    let ghost s = p.at_index();
    let ghost ev0 = p.evs();
    proof {
        lemma_next_sig(t, s);
    }
    p.flush_trivia();
    let ghost s0 = p.at_index();
    let cp_pos = p.pos;
    let ghost base = p.evs();
    let cp = p.events.len();
    let r1 = parse_rule(p, lvl - 1);
    if r1.is_err() {
        proof {
            if pairs {
                
            }
        }
        return r1;
    }
    let ghost e1 = (rule(t, lvl - 1, s0)->Ok_0).0;
    let ghost s1 = p.at_index();
    if pairs && p.at(SyntaxKind::SEMICOLON) {
        let end = p.pos;
        let a = p.top_arrow(cp_pos, end);
        if a < end && !p.is_call_before(cp_pos, a) {
            let v = vec!["`,`", "`}`"];
            proof {
                assert(strs(v@) =~= seq!["`,`"@, "`}`"@]);
                
            }
            return Err(v);
        }
    }
    proof {
        if pairs {
            reveal(no_pair_semi);
        }
    }
    let sep = if lvl == 13 {
        SyntaxKind::COMMA
    } else {
        SyntaxKind::SEMICOLON
    };
    let ghost mut acc = e1;
    loop
        invariant_except_break
            chain_rest(t, lvl as int, s1, e1) == chain_rest(t, lvl as int, p.at_index(), acc),
        invariant
            p.wf(),
            p.toks() == t,
            p.tokens@ == old(p).tokens@,
            t == old(p).toks(),
            s == old(p).at_index(),
            ev0 == old(p).evs(),
            lvl == 12 || lvl == 13,
            sep == (if lvl == 13 {
                SyntaxKind::COMMA
            } else {
                SyntaxKind::SEMICOLON
            }),
            cp == base.len(),
            base == ev0 + flush(t, s).0,
            p.evs() == base + acc,
            p.at_index() > s,
            pairs ==> no_pair_semi(t, s),
            rule(t, lvl as int, s) == (match chain_rest(t, lvl as int, s1, e1) {
                Ok((e2, s2)) => Ok((flush(t, s).0 + e2, s2)),
                Err(f) => Err(f),
            }),
        ensures
            p.wf(),
            p.toks() == t,
            p.tokens@ == old(p).tokens@,
            p.evs() == base + acc,
            p.at_index() > s,
            chain_rest(t, lvl as int, s1, e1) == Ok::<(Seq<FEvent>, int), (int, Seq<Seq<char>>)>(
                (acc, p.at_index()),
            ),
        decreases p.tokens.len() - p.pos,
    {
        if !p.at(sep) {
            break ;
        }
        let ghost sc = p.at_index();
        let ghost ac = acc;
        let ghost mut run: Seq<FEvent> = Seq::empty();
        p.bump();
        proof {
            run = bump(t, sc).0;
        }
        if lvl == 12 {
            while p.at(SyntaxKind::SEMICOLON)
                invariant
                    p.wf(),
                    p.toks() == t,
                    p.tokens@ == old(p).tokens@,
                    p.evs() == base + ac + run,
                    p.at_index() > sc,
                    sc > s,
                    semis(t, sc) == (if peek(t, p.at_index()) == Some(SyntaxKind::SEMICOLON) {
                        (run + semis(t, p.at_index()).0, semis(t, p.at_index()).1)
                    } else {
                        (run, p.at_index())
                    }),
                decreases p.tokens.len() - p.pos,
            {
                let ghost sr = p.at_index();
                let ghost rn = run;
                p.bump();
                proof {
                    run = rn + bump(t, sr).0;
                    assert(p.evs() =~= base + ac + run);
                    assert(rn + (bump(t, sr).0 + semis(t, p.at_index()).0) =~= run + semis(
                        t,
                        p.at_index(),
                    ).0);
                }
            }
        }
        let ghost sm = p.at_index();
        if p.at_closer_or_eof() || (lvl == 12 && p.at(SyntaxKind::COMMA)) {
            proof {
                acc = ac + run;
                assert(p.evs() =~= base + acc);
            }
            break ;
        }
        p.events.insert(cp, FEvent::Start(SyntaxKind::BIN_EXPR));
        proof {
            lemma_insert_between(base, ac + run, FEvent::Start(SyntaxKind::BIN_EXPR));
        }
        let r2 = parse_rule(p, lvl - 1);
        if r2.is_err() {
            proof {
                reveal(no_pair_semi);
            }
            return r2;
        }
        let ghost e = (rule(t, lvl - 1, sm)->Ok_0).0;
        p.finish_node();
        proof {
            acc = wrap(SyntaxKind::BIN_EXPR, ac + run + e);
            assert(p.evs() =~= base + acc);
        }
    }
    proof {
        reveal(no_pair_semi);
        assert(p.evs() =~= ev0 + (flush(t, s).0 + acc));
    }
    Ok(())
}

/// A right-associative binary level: `operand (op rhs)?`, where the rhs
/// re-enters the level.
#[verifier::rlimit(60)]
fn right_level(p: &mut FParser, lvl: usize) -> (r: Result<(), Vec<&'static str>>)
    requires
        old(p).wf(),
        lvl == 3 || lvl == 10 || lvl == 11,
    ensures
        follows(*old(p), *final(p), rule(old(p).toks(), lvl as int, old(p).at_index()), r),
    decreases old(p).tokens.len() - old(p).pos, 2 * lvl + 5,
{
    let ghost t = p.toks();
    let ghost s = p.at_index();
    let ghost ev0 = p.evs();
    proof {
        lemma_next_sig(t, s);
    }
    p.flush_trivia();
    let ghost s0 = p.at_index();
    let ghost base = p.evs();
    let cp = p.events.len();
    let r1 = parse_rule(p, lvl - 1);
    if r1.is_err() {
        return r1;
    }
    let ghost e1 = (rule(t, lvl - 1, s0)->Ok_0).0;
    let ghost s1 = p.at_index();
    if p.at_level_op(lvl) {
        p.events.insert(cp, FEvent::Start(SyntaxKind::BIN_EXPR));
        proof {
            lemma_insert_between(base, e1, FEvent::Start(SyntaxKind::BIN_EXPR));
        }
        p.bump();
        let ghost s2 = p.at_index();
        let r2 = parse_rule(p, lvl);
        if r2.is_err() {
            return r2;
        }
        let ghost e2 = (rule(t, lvl as int, s2)->Ok_0).0;
        p.finish_node();
        proof {
            assert(p.evs() =~= ev0 + (flush(t, s).0 + wrap(
                SyntaxKind::BIN_EXPR,
                e1 + bump(t, s1).0 + e2,
            )));
        }
    } else {
        proof {
            assert(p.evs() =~= ev0 + (flush(t, s).0 + e1));
        }
    }
    Ok(())
}

/// A left-associative binary level: `operand (op operand)*`, each link
/// wrapped in a `BIN_EXPR` around everything since the level's start.
#[verifier::rlimit(60)]
fn left_level(p: &mut FParser, lvl: usize) -> (r: Result<(), Vec<&'static str>>)
    requires
        old(p).wf(),
        lvl == 1 || 4 <= lvl <= 9,
    ensures
        follows(*old(p), *final(p), rule(old(p).toks(), lvl as int, old(p).at_index()), r),
    decreases old(p).tokens.len() - old(p).pos, 2 * lvl + 5,
{
    let ghost t = p.toks();
    let ghost s = p.at_index();
    let ghost ev0 = p.evs();
    proof {
        lemma_next_sig(t, s);
    }
    p.flush_trivia();
    let ghost s0 = p.at_index();
    let ghost base = p.evs();
    let cp = p.events.len();
    let r1 = parse_rule(p, lvl - 1);
    if r1.is_err() {
        return r1;
    }
    let ghost e1 = (rule(t, lvl - 1, s0)->Ok_0).0;
    let ghost s1 = p.at_index();
    let ghost mut acc = e1;
    loop
        invariant_except_break
            left_rest(t, lvl as int, s1, e1) == left_rest(t, lvl as int, p.at_index(), acc),
        invariant
            p.wf(),
            p.toks() == t,
            p.tokens@ == old(p).tokens@,
            t == old(p).toks(),
            s == old(p).at_index(),
            ev0 == old(p).evs(),
            lvl == 1 || 4 <= lvl <= 9,
            cp == base.len(),
            base == ev0 + flush(t, s).0,
            p.evs() == base + acc,
            p.at_index() > s,
            rule(t, lvl as int, s) == (match left_rest(t, lvl as int, s1, e1) {
                Ok((e2, s2)) => Ok((flush(t, s).0 + e2, s2)),
                Err(f) => Err(f),
            }),
        ensures
            p.wf(),
            p.toks() == t,
            p.tokens@ == old(p).tokens@,
            p.evs() == base + acc,
            p.at_index() > s,
            left_rest(t, lvl as int, s1, e1) == Ok::<(Seq<FEvent>, int), (int, Seq<Seq<char>>)>(
                (acc, p.at_index()),
            ),
        decreases p.tokens.len() - p.pos,
    {
        if !p.at_level_op(lvl) {
            break ;
        }
        p.events.insert(cp, FEvent::Start(SyntaxKind::BIN_EXPR));
        proof {
            lemma_insert_between(base, acc, FEvent::Start(SyntaxKind::BIN_EXPR));
        }
        let ghost sc = p.at_index();
        p.bump();
        let ghost sb = p.at_index();
        let r2 = parse_rule(p, lvl - 1);
        if r2.is_err() {
            return r2;
        }
        let ghost e = (rule(t, lvl - 1, sb)->Ok_0).0;
        p.finish_node();
        proof {
            acc = wrap(SyntaxKind::BIN_EXPR, acc + bump(t, sc).0 + e);
            assert(p.evs() =~= base + acc);
        }
    }
    proof {
        assert(p.evs() =~= ev0 + (flush(t, s).0 + acc));
    }
    Ok(())
}

/// `unary = (`-` | `+` | `!` | `...`)* get`.
fn unary(p: &mut FParser) -> (r: Result<(), Vec<&'static str>>)
    requires
        old(p).wf(),
    ensures
        follows(*old(p), *final(p), rule(old(p).toks(), 2, old(p).at_index()), r),
    decreases old(p).tokens.len() - old(p).pos, 9nat,
{
    let ghost t = p.toks();
    let ghost s = p.at_index();
    let ghost ev0 = p.evs();
    proof {
        lemma_next_sig(t, s);
    }
    let is_prefix = match p.peek() {
        Some(k) => k == SyntaxKind::MINUS || k == SyntaxKind::PLUS || k == SyntaxKind::BANG || k
            == SyntaxKind::DOT3,
        None => false,
    };
    if is_prefix {
        p.start_node(SyntaxKind::PREFIX_EXPR);
        let ghost s0 = p.at_index();
        p.bump();
        let ghost s1 = p.at_index();
        let r1 = unary(p);
        if r1.is_err() {
            return r1;
        }
        let ghost e1 = (rule(t, 2, s1)->Ok_0).0;
        p.finish_node();
        proof {
            assert(p.evs() =~= ev0 + (flush(t, s).0 + wrap(
                SyntaxKind::PREFIX_EXPR,
                bump(t, s0).0 + e1,
            )));
        }
        Ok(())
    } else {
        parse_rule(p, 1)
    }
}

/// `primary`: a literal, a literal constructor `l(…)` / `m(…)`, a name or
/// call, a parenthesized body, a list or a map.
#[verifier::rlimit(100)]
#[verifier::spinoff_prover]
fn primary(p: &mut FParser) -> (r: Result<(), Vec<&'static str>>)
    requires
        old(p).wf(),
    ensures
        follows(*old(p), *final(p), rule(old(p).toks(), 0, old(p).at_index()), r),
    decreases old(p).tokens.len() - old(p).pos, 5nat,
{
    let ghost t = p.toks();
    let ghost s = p.at_index();
    let ghost ev0 = p.evs();
    proof {
        assert(rule(t, 0, s) == cst_grammar::primary(t, s));
        lemma_next_sig(t, s);
    }
    match p.peek() {
        Some(SyntaxKind::NUMBER) | Some(SyntaxKind::STRING) => {
            p.start_node(SyntaxKind::LITERAL);
            let ghost s0 = p.at_index();
            p.bump();
            p.finish_node();
            proof {
                assert(p.evs() =~= ev0 + (flush(t, s).0 + wrap(
                    SyntaxKind::LITERAL,
                    bump(t, s0).0,
                )));
            }
            Ok(())
        },
        Some(SyntaxKind::IDENT) => {
            match p.peek_literal_constructor() {
                Some(node) => {
                    p.start_node(node);
                    let ghost s0 = p.at_index();
                    let kw = constructor_token_exec(node);
                    p.bump_as(kw);
                    let ghost s1 = p.at_index();
                    let r1 = delimited_tail(p, SyntaxKind::R_PAREN);
                    if r1.is_err() {
                        return r1;
                    }
                    let ghost d = (cst_grammar::delimited_tail(t, s1, SyntaxKind::R_PAREN)->Ok_0).0;
                    p.finish_node();
                    proof {
                        assert(p.evs() =~= ev0 + (flush(t, s).0 + wrap(
                            node,
                            bump_as(t, s0, kw).0 + d,
                        )));
                    }
                    Ok(())
                },
                None => {
                    p.flush_trivia();
                    let ghost base = p.evs();
                    let cp = p.events.len();
                    p.start_node(SyntaxKind::NAME_REF);
                    let ghost s0 = p.at_index();
                    p.bump();
                    p.finish_node();
                    let ghost name = wrap(SyntaxKind::NAME_REF, bump(t, s0).0);
                    proof {
                        lemma_token_events_empty(t, s0);
                        assert(p.evs() =~= base + name);
                    }
                    if p.at(SyntaxKind::L_PAREN) {
                        p.events.insert(cp, FEvent::Start(SyntaxKind::CALL_EXPR));
                        proof {
                            lemma_insert_between(base, name, FEvent::Start(SyntaxKind::CALL_EXPR));
                        }
                        let ghost s1 = p.at_index();
                        let r1 = delimited(p, SyntaxKind::ARG_LIST, SyntaxKind::R_PAREN);
                        if r1.is_err() {
                            return r1;
                        }
                        let ghost d = (cst_grammar::delimited(
                            t,
                            s1,
                            SyntaxKind::ARG_LIST,
                            SyntaxKind::R_PAREN,
                        )->Ok_0).0;
                        p.finish_node();
                        proof {
                            assert(p.evs() =~= ev0 + (flush(t, s).0 + wrap(
                                SyntaxKind::CALL_EXPR,
                                name + d,
                            )));
                        }
                    } else {
                        proof {
                            assert(p.evs() =~= ev0 + (flush(t, s).0 + name));
                        }
                    }
                    Ok(())
                },
            }
        },
        Some(SyntaxKind::L_PAREN) => {
            p.start_node(SyntaxKind::PAREN_EXPR);
            let ghost s0 = p.at_index();
            p.bump();
            let ghost s1 = p.at_index();
            let r1 = parse_rule(p, 13);
            if r1.is_err() {
                return r1;
            }
            let ghost e1 = (rule(t, 13, s1)->Ok_0).0;
            if !p.at(SyntaxKind::R_PAREN) {
                let v = vec!["an operator", "`)`"];
                proof {
                    assert(strs(v@) =~= seq!["an operator"@, "`)`"@]);
                }
                return Err(v);
            }
            let ghost s2 = p.at_index();
            p.bump();
            p.finish_node();
            proof {
                assert(p.evs() =~= ev0 + (flush(t, s).0 + wrap(
                    SyntaxKind::PAREN_EXPR,
                    bump(t, s0).0 + e1 + bump(t, s2).0,
                )));
            }
            Ok(())
        },
        Some(SyntaxKind::L_BRACK) => delimited(p, SyntaxKind::LIST_EXPR, SyntaxKind::R_BRACK),
        Some(SyntaxKind::L_BRACE) => delimited(p, SyntaxKind::MAP_EXPR, SyntaxKind::R_BRACE),
        _ => {
            let v = vec!["expression"];
            proof {
                assert(strs(v@) =~= seq!["expression"@]);
            }
            Err(v)
        },
    }
}

/// A `node` around an opener (the next token), its items and `close`.
fn delimited(p: &mut FParser, node: SyntaxKind, close: SyntaxKind) -> (r: Result<
    (),
    Vec<&'static str>,
>)
    requires
        old(p).wf(),
        peek(old(p).toks(), old(p).at_index()) is Some,
    ensures
        follows(
            *old(p),
            *final(p),
            cst_grammar::delimited(old(p).toks(), old(p).at_index(), node, close),
            r,
        ),
    decreases old(p).tokens.len() - old(p).pos, 4nat,
{
    let ghost t = p.toks();
    let ghost s = p.at_index();
    let ghost ev0 = p.evs();
    proof {
        lemma_next_sig(t, s);
    }
    p.start_node(node);
    let ghost s0 = p.at_index();
    let r1 = delimited_tail(p, close);
    if r1.is_err() {
        return r1;
    }
    let ghost d = (cst_grammar::delimited_tail(t, s0, close)->Ok_0).0;
    p.finish_node();
    proof {
        assert(p.evs() =~= ev0 + (flush(t, s).0 + wrap(node, d)));
    }
    Ok(())
}

/// The opener (the next token), the items, and the closer `close`.
fn delimited_tail(p: &mut FParser, close: SyntaxKind) -> (r: Result<(), Vec<&'static str>>)
    requires
        old(p).wf(),
        peek(old(p).toks(), old(p).at_index()) is Some,
    ensures
        follows(
            *old(p),
            *final(p),
            cst_grammar::delimited_tail(old(p).toks(), old(p).at_index(), close),
            r,
        ),
    decreases old(p).tokens.len() - old(p).pos, 3nat,
{
    let ghost t = p.toks();
    let ghost s = p.at_index();
    let ghost ev0 = p.evs();
    p.bump();
    let ghost s1 = p.at_index();
    let r1 = args(p, close);
    if r1.is_err() {
        return r1;
    }
    let ghost a = (cst_grammar::args(t, s1, close)->Ok_0).0;
    if !p.at(close) {
        let v = vec![delim_label_exec(close)];
        proof {
            assert(strs(v@) =~= seq![delim_label(close)]);
        }
        return Err(v);
    }
    let ghost s2 = p.at_index();
    p.bump();
    proof {
        assert(p.evs() =~= ev0 + (bump(t, s).0 + a + bump(t, s2).0));
    }
    Ok(())
}

/// The comma-separated items between delimiters, up to a closer or the end
/// of input.
#[verifier::rlimit(60)]
fn args(p: &mut FParser, close: SyntaxKind) -> (r: Result<(), Vec<&'static str>>)
    requires
        old(p).wf(),
    ensures
        follows_maybe_empty(
            *old(p),
            *final(p),
            cst_grammar::args(old(p).toks(), old(p).at_index(), close),
            r,
        ),
    decreases old(p).tokens.len() - old(p).pos, 31nat,
{
    let ghost t = p.toks();
    let ghost s = p.at_index();
    let ghost ev0 = p.evs();
    let ghost mut acc: Seq<FEvent> = Seq::empty();
    proof {
        assert(ev0 =~= ev0 + acc);
        assert(cst_grammar::args(t, s, close) =~~= prepend(acc, cst_grammar::args(t, s, close)));
    }
    loop
        invariant_except_break
            cst_grammar::args(t, s, close) == prepend(acc, cst_grammar::args(t, p.at_index(), close)),
        invariant
            p.wf(),
            p.toks() == t,
            p.tokens@ == old(p).tokens@,
            t == old(p).toks(),
            s == old(p).at_index(),
            ev0 == old(p).evs(),
            p.evs() == ev0 + acc,
            p.at_index() >= s,
        ensures
            p.wf(),
            p.toks() == t,
            p.tokens@ == old(p).tokens@,
            p.evs() == ev0 + acc,
            p.at_index() >= s,
            cst_grammar::args(t, s, close) == Ok::<(Seq<FEvent>, int), (int, Seq<Seq<char>>)>(
                (acc, p.at_index()),
            ),
        decreases p.tokens.len() - p.pos,
    {
        let ghost sc = p.at_index();
        let ghost ac = acc;
        if p.at_closer_or_eof() {
            proof {
                assert(acc =~= acc + Seq::<FEvent>::empty());
            }
            break ;
        }
        let ghost item_events: Seq<FEvent>;
        if !p.at(SyntaxKind::COMMA) {
            let r1 = chain(p, 12, close == SyntaxKind::R_BRACE);
            if r1.is_err() {
                return r1;
            }
            proof {
                item_events = (rule(t, 12, sc)->Ok_0).0;
            }
        } else {
            proof {
                item_events = Seq::empty();
                assert(p.evs() =~= ev0 + ac + item_events);
            }
        }
        let ghost si = p.at_index();
        if p.at(SyntaxKind::COMMA) {
            p.bump();
            proof {
                let b = bump(t, si).0;
                lemma_prepend_prepend(ac, item_events + b, cst_grammar::args(t, p.at_index(), close));
                acc = ac + (item_events + b);
                assert(p.evs() =~= ev0 + acc);
            }
        } else if p.at_closer_or_eof() {
            proof {
                acc = ac + item_events;
                assert(p.evs() =~= ev0 + acc);
            }
            break ;
        } else {
            let v = vec!["an operator", delim_label_exec(close)];
            proof {
                assert(strs(v@) =~= seq!["an operator"@, delim_label(close)]);
            }
            return Err(v);
        }
    }
    Ok(())
}

/// Parses the whole token stream: a `ROOT` node around the top-level chain
/// and any trailing trivia.
fn parse_root(p: &mut FParser) -> (r: Result<(), Vec<&'static str>>)
    requires
        old(p).wf(),
        old(p).pos == 0,
        old(p).evs().len() == 0,
    ensures
        final(p).wf(),
        final(p).same_input(old(p)),
        match cst_grammar::root(old(p).toks()) {
            Ok((e, j)) => r is Ok && final(p).evs() == e && final(p).at_index() == j,
            Err((j, labels)) => r matches Err(v) && final(p).at_index() == j && strs(v@) == labels,
        },
{
    let ghost t = p.toks();
    p.events.push(FEvent::Start(SyntaxKind::ROOT));
    let r1 = parse_rule(p, 13);
    if r1.is_err() {
        return r1;
    }
    let ghost e1 = (rule(t, 13, 0)->Ok_0).0;
    let ghost s1 = p.at_index();
    proof {
        lemma_next_sig(t, s1);
    }
    p.flush_trivia();
    if p.peek().is_some() {
        let v = vec!["an operator", "end of input"];
        proof {
            assert(strs(v@) =~= seq!["an operator"@, "end of input"@]);
        }
        return Err(v);
    }
    p.finish_node();
    proof {
        assert(p.evs() =~= wrap(SyntaxKind::ROOT, e1 + flush(t, s1).0));
    }
    Ok(())
}

// ====================================================================
// The front end's entry points
// ====================================================================

/// The front end's token stream of `src`: each token's kind and text.
pub open spec fn front_toks(src: &str) -> Seq<FTok> {
    toks_over(src, tokens_from(src.spec_bytes(), 0))
}

/// The grammar's view of a stream of (kind, length) pairs laid end to end
/// over `src`: each token's kind and the text of its bytes.
pub open spec fn toks_over(src: &str, l: Seq<(SyntaxKind, int)>) -> Seq<FTok> {
    Seq::new(
        l.len(),
        |i: int| (l[i].0, text_at(src, token_start(l, i), token_start(l, i) + l[i].1)),
    )
}

/// The byte offset where token `i` of `src`'s stream starts.
pub open spec fn front_start(src: &str, i: int) -> int {
    token_start(tokens_from(src.spec_bytes(), 0), i)
}

/// The byte offset just past token `i` of `src`'s stream.
pub open spec fn front_end(src: &str, i: int) -> int {
    front_start(src, i) + tokens_from(src.spec_bytes(), 0)[i].1
}

/// What the lexer hands the front end: the stream of [`front_toks`], each
/// token at its place in the source.
proof fn lemma_lexed_front(src: &str, toks: Seq<Token>)
    requires
        token_pairs(toks) == tokens_from(src.spec_bytes(), 0),
        forall|i: int|
            0 <= i < toks.len() ==> {
                &&& (#[trigger] toks[i]).start == token_start(token_pairs(toks), i)
                &&& toks[i].text.spec_bytes().len() > 0
                &&& toks[i].text@ == text_at(
                    src,
                    toks[i].start as int,
                    toks[i].start + toks[i].text.spec_bytes().len(),
                )
            },
        total_len(token_pairs(toks)) == src.spec_bytes().len(),
    ensures
        ftoks(toks) == front_toks(src),
        forall|i: int|
            0 <= i < toks.len() ==> {
                &&& (#[trigger] toks[i]).start == front_start(src, i)
                &&& toks[i].start + toks[i].text.spec_bytes().len() == front_end(src, i)
                &&& front_end(src, i) <= src.spec_bytes().len()
            },
{
    let l = tokens_from(src.spec_bytes(), 0);
    assert(ftoks(toks) =~= front_toks(src)) by {
        assert forall|i: int| 0 <= i < toks.len() implies ftoks(toks)[i] == front_toks(src)[i] by {
            assert(token_pairs(toks)[i] == l[i]);
        }
    }
    assert forall|i: int| 0 <= i < toks.len() implies {
        &&& (#[trigger] toks[i]).start == front_start(src, i)
        &&& toks[i].start + toks[i].text.spec_bytes().len() == front_end(src, i)
        &&& front_end(src, i) <= src.spec_bytes().len()
    } by {
        assert(token_pairs(toks)[i] == l[i]);
        lemma_token_start_step(l, i);
        assert forall|k: int| 0 <= k < l.len() implies (#[trigger] l[k]).1 >= 0 by {
            assert(token_pairs(toks)[k] == l[k]);
        }
        lemma_token_start_mono(l, i + 1, l.len() as int);
        lemma_token_start_end(l);
    }
}

/// The texts of the tokens at `idx`, in order.
pub open spec fn indexed_text(toks: Seq<FTok>, idx: Seq<int>) -> Seq<char>
    decreases idx.len(),
{
    if idx.len() == 0 {
        seq![]
    } else {
        indexed_text(toks, idx.drop_last()) + toks[idx.last()].1
    }
}

/// The source text a front-end tree spells: the texts of its tokens, read
/// in order.
pub open spec fn tree_text(src: &str, children: Seq<FElem>) -> Seq<char> {
    indexed_text(front_toks(src), token_indices(elems_events(children)))
}

/// The byte ranges of a stream of (kind, length) pairs laid end to end.
spec fn ranges_of(l: Seq<(SyntaxKind, int)>) -> Seq<Tok> {
    Seq::new(
        l.len(),
        |i: int|
            Tok {
                kind: TreeKind::ERROR,
                start: token_start(l, i) as usize,
                end: token_start(l, i + 1) as usize,
            },
    )
}

/// The first `m` tokens of a stream spell what their byte ranges spell.
proof fn lemma_indexed_text_prefix(src: &str, l: Seq<(SyntaxKind, int)>, m: int)
    requires
        0 <= m <= l.len(),
        forall|i: int| 0 <= i <= l.len() ==> 0 <= #[trigger] token_start(l, i) <= usize::MAX,
    ensures
        indexed_text(toks_over(src, l), index_run(0, m)) == toks_text(src, ranges_of(l).take(m)),
    decreases m,
{
    let t = ranges_of(l);
    if m == 0 {
        assert(index_run(0, 0) =~= Seq::<int>::empty());
        assert(t.take(0) =~= Seq::<Tok>::empty());
    } else {
        lemma_indexed_text_prefix(src, l, m - 1);
        assert(index_run(0, m).drop_last() =~= index_run(0, m - 1));
        assert(index_run(0, m).last() == m - 1);
        assert(t.take(m).drop_last() =~= t.take(m - 1));
        assert(t.take(m).last() == t[m - 1]);
        lemma_token_start_step(l, m - 1);
        assert(0 <= token_start(l, m - 1) <= usize::MAX);
        assert(0 <= token_start(l, m) <= usize::MAX);
    }
}

/// Byte ranges that start on character boundaries, follow one another and
/// run from the start of the source to its end tile the source.
#[verifier::rlimit(40)]
proof fn lemma_ranges_tile(src: &str, t: Seq<Tok>)
    requires
        valid_utf8(src.spec_bytes()),
        is_char_boundary(src.spec_bytes(), src.spec_bytes().len() as int),
        forall|i: int|
            0 <= i < t.len() ==> {
                &&& (#[trigger] t[i]).start < t[i].end <= src.spec_bytes().len()
                &&& is_char_boundary(src.spec_bytes(), t[i].start as int)
            },
        forall|i: int| 0 < i < t.len() ==> (#[trigger] t[i]).start == t[i - 1].end,
        t.len() > 0 ==> t[0].start == 0 && t[t.len() - 1].end == src.spec_bytes().len(),
        t.len() == 0 ==> src.spec_bytes().len() == 0,
    ensures
        tiles(t, src),
{
    reveal(tiles);
    let n = t.len() as int;
    assert forall|i: int| 0 <= i < n implies is_char_boundary(
        src.spec_bytes(),
        (#[trigger] t[i]).end as int,
    ) by {
        if i < n - 1 {
            assert(t[i + 1].start == t[i + 1 - 1].end);
        }
    }
    if n > 0 {
        assert(t.last() == t[n - 1]);
    }
}

/// Where the tokens of a stream of non-empty tokens lie: between the start
/// and the end of the stream.
proof fn lemma_token_starts_bounded(l: Seq<(SyntaxKind, int)>)
    requires
        forall|i: int| 0 <= i < l.len() ==> (#[trigger] l[i]).1 > 0,
    ensures
        forall|i: int|
            0 <= i <= l.len() ==> 0 <= #[trigger] token_start(l, i) <= total_len(l),
{
    lemma_token_start_end(l);
    assert(l.take(0) =~= Seq::<(SyntaxKind, int)>::empty());
    assert forall|i: int| 0 <= i <= l.len() implies 0 <= #[trigger] token_start(l, i) <= total_len(
        l,
    ) by {
        lemma_token_start_mono(l, 0, i);
        lemma_token_start_mono(l, i, l.len() as int);
    }
}

/// The byte ranges of a stream of non-empty tokens laid end to end over the
/// whole source, each starting on a character boundary, tile the source.
#[verifier::rlimit(40)]
proof fn lemma_ranges_of_tile(src: &str, l: Seq<(SyntaxKind, int)>)
    requires
        src.spec_bytes().len() <= usize::MAX,
        forall|i: int| 0 <= i < l.len() ==> (#[trigger] l[i]).1 > 0,
        forall|i: int|
            0 <= i < l.len() ==> is_char_boundary(src.spec_bytes(), #[trigger] token_start(l, i)),
        total_len(l) == src.spec_bytes().len(),
        forall|i: int|
            0 <= i <= l.len() ==> 0 <= #[trigger] token_start(l, i) <= total_len(l),
    ensures
        tiles(ranges_of(l), src),
{
    lemma_src_bytes(src);
    let n = l.len() as int;
    let t = ranges_of(l);
    lemma_token_start_end(l);
    assert forall|i: int| 0 <= i < n implies {
        &&& (#[trigger] t[i]).start < t[i].end <= src.spec_bytes().len()
        &&& is_char_boundary(src.spec_bytes(), t[i].start as int)
    } by {
        lemma_token_start_step(l, i);
        assert(0 <= token_start(l, i) <= total_len(l));
        assert(0 <= token_start(l, i + 1) <= total_len(l));
    }
    assert forall|i: int| 0 < i < n implies (#[trigger] t[i]).start == t[i - 1].end by {
        assert(0 <= token_start(l, i) <= total_len(l));
    }
    if n > 0 {
        assert(0 <= token_start(l, n) <= total_len(l));
        assert(0 <= token_start(l, 0) <= total_len(l));
        assert(l.take(0) =~= Seq::<(SyntaxKind, int)>::empty());
    }
    lemma_ranges_tile(src, t);
}

/// A stream of non-empty tokens laid end to end over the whole source, each
/// starting on a character boundary, spells the whole source.
proof fn lemma_stream_text_whole(src: &str, l: Seq<(SyntaxKind, int)>)
    requires
        src.spec_bytes().len() <= usize::MAX,
        forall|i: int| 0 <= i < l.len() ==> (#[trigger] l[i]).1 > 0,
        forall|i: int|
            0 <= i < l.len() ==> is_char_boundary(src.spec_bytes(), #[trigger] token_start(l, i)),
        total_len(l) == src.spec_bytes().len(),
    ensures
        indexed_text(toks_over(src, l), index_run(0, l.len() as int)) == src@,
{
    lemma_token_starts_bounded(l);
    lemma_ranges_of_tile(src, l);
    lemma_toks_text_whole(src, ranges_of(l));
    lemma_indexed_text_prefix(src, l, l.len() as int);
    assert(ranges_of(l).take(l.len() as int) =~= ranges_of(l));
}

/// The lexed stream spells the whole source.
proof fn lemma_front_text_whole(src: &str, toks: Seq<Token>)
    requires
        token_pairs(toks) == tokens_from(src.spec_bytes(), 0),
        forall|i: int|
            0 <= i < toks.len() ==> {
                &&& (#[trigger] toks[i]).start == token_start(token_pairs(toks), i)
                &&& toks[i].text.spec_bytes().len() > 0
            },
        total_len(token_pairs(toks)) == src.spec_bytes().len(),
        starts_on_boundaries(src, toks),
        src.spec_bytes().len() <= usize::MAX,
    ensures
        indexed_text(front_toks(src), index_run(0, front_toks(src).len() as int)) == src@,
{
    reveal(starts_on_boundaries);
    let l = token_pairs(toks);
    assert forall|i: int| 0 <= i < l.len() implies (#[trigger] l[i]).1 > 0 by {
        assert(toks[i].text.spec_bytes().len() > 0);
    }
    assert forall|i: int| 0 <= i < l.len() implies is_char_boundary(
        src.spec_bytes(),
        #[trigger] token_start(l, i),
    ) by {
        assert(toks[i].start == token_start(l, i));
    }
    lemma_stream_text_whole(src, l);
}

/// The first `m` lexed tokens' texts are what the grammar's view of them
/// spells.
proof fn lemma_indexed_is_concat(toks: Seq<Token>, m: int)
    requires
        0 <= m <= toks.len(),
    ensures
        indexed_text(ftoks(toks), index_run(0, m)) == texts_concat(toks.take(m)),
    decreases m,
{
    if m == 0 {
        assert(index_run(0, 0) =~= Seq::<int>::empty());
        assert(toks.take(0) =~= Seq::<Token>::empty());
    } else {
        lemma_indexed_is_concat(toks, m - 1);
        assert(index_run(0, m).drop_last() =~= index_run(0, m - 1));
        assert(index_run(0, m).last() == m - 1);
        assert(toks.take(m).drop_last() =~= toks.take(m - 1));
        assert(toks.take(m).last() == toks[m - 1]);
    }
}

/// Lexing is lossless: the lexed tokens' texts, concatenated, are the
/// source.
pub(crate) proof fn lemma_lexed_text(src: &str, toks: Seq<Token>)
    requires
        token_pairs(toks) == tokens_from(src.spec_bytes(), 0),
        forall|i: int|
            0 <= i < toks.len() ==> {
                &&& (#[trigger] toks[i]).start == token_start(token_pairs(toks), i)
                &&& toks[i].text.spec_bytes().len() > 0
                &&& toks[i].text@ == text_at(
                    src,
                    toks[i].start as int,
                    toks[i].start + toks[i].text.spec_bytes().len(),
                )
            },
        total_len(token_pairs(toks)) == src.spec_bytes().len(),
        starts_on_boundaries(src, toks),
        src.spec_bytes().len() <= usize::MAX,
    ensures
        texts_concat(toks) == src@,
{
    lemma_front_text_whole(src, toks);
    lemma_lexed_front(src, toks);
    lemma_indexed_is_concat(toks, toks.len() as int);
    assert(toks.take(toks.len() as int) =~= toks);
}

/// The closing delimiter kind that matches an opener (identity for
/// non-openers).
pub open spec fn front_closer_for(open: SyntaxKind) -> SyntaxKind {
    match open {
        SyntaxKind::L_PAREN => SyntaxKind::R_PAREN,
        SyntaxKind::L_BRACK => SyntaxKind::R_BRACK,
        SyntaxKind::L_BRACE => SyntaxKind::R_BRACE,
        other => other,
    }
}

/// The closing delimiter kind that matches an opener (identity for
/// non-openers).
fn closer_for(open: SyntaxKind) -> (c: SyntaxKind)
    ensures
        c == front_closer_for(open),
{
    match open {
        SyntaxKind::L_PAREN => SyntaxKind::R_PAREN,
        SyntaxKind::L_BRACK => SyntaxKind::R_BRACK,
        SyntaxKind::L_BRACE => SyntaxKind::R_BRACE,
        other => other,
    }
}

/// The first unbalanced delimiter of `toks` from index `i` on, given the
/// indices of the openers still open before `i` (innermost last).
pub open spec fn front_delim_fault(toks: Seq<FTok>, i: int, stack: Seq<int>) -> Option<DelimFault>
    decreases toks.len() - i,
{
    if i < 0 || i >= toks.len() {
        if stack.len() > 0 {
            Some(DelimFault::Unclosed(stack[0]))
        } else {
            None
        }
    } else if toks[i].0.spec_is_opener() {
        front_delim_fault(toks, i + 1, stack.push(i))
    } else if toks[i].0.spec_is_closer() {
        if stack.len() == 0 {
            Some(DelimFault::Unmatched(i))
        } else if front_closer_for(toks[stack.last()].0) != toks[i].0 {
            Some(DelimFault::Mismatched(i, stack.last()))
        } else {
            front_delim_fault(toks, i + 1, stack.drop_last())
        }
    } else {
        front_delim_fault(toks, i + 1, stack)
    }
}

/// `e` is the structural error for `fault` in the token stream of `src`.
pub open spec fn describes_front_fault(e: ParseError, src: &str, fault: DelimFault) -> bool {
    let toks = front_toks(src);
    &&& e.help is None
    &&& match fault {
        DelimFault::Unmatched(c) => {
            &&& e.span.start == front_start(src, c) && e.span.end == front_end(src, c)
            &&& e.expected@.len() == 0
            &&& opt_text(e.found) == Some(toks[c].1)
            &&& opt_text(e.headline) == Some("unmatched closing delimiter"@)
            &&& e.secondary is None
        },
        DelimFault::Mismatched(c, o) => {
            &&& e.span.start == front_start(src, c) && e.span.end == front_end(src, c)
            &&& texts(e.expected@) == seq![delim_label(front_closer_for(toks[o].0))]
            &&& opt_text(e.found) == Some(toks[c].1)
            &&& opt_text(e.headline) == Some("mismatched closing delimiter"@)
            &&& e.secondary matches Some((r, l)) && r.start == front_start(src, o) && r.end
                == front_end(src, o) && l@ == "unclosed "@ + delim_label(toks[o].0)
        },
        DelimFault::Unclosed(o) => {
            &&& e.span.start == front_start(src, o) && e.span.end == front_end(src, o)
            &&& texts(e.expected@) == seq![delim_label(front_closer_for(toks[o].0))]
            &&& e.found is None
            &&& opt_text(e.headline) == Some("unclosed delimiter"@)
            &&& e.secondary is None
        },
    }
}

/// Scans the token stream for the first unbalanced delimiter (a stray
/// closer, a wrong closer, or an opener that never closes) and describes it
/// structurally; `None` when every bracket balances. Delimiters inside
/// strings and comments lex as part of single tokens and are never seen.
fn check_delimiters(src: &str, tokens: &Vec<Token>) -> (r: Option<ParseError>)
    requires
        ftoks(tokens@) == front_toks(src),
        forall|i: int|
            0 <= i < tokens.len() ==> {
                &&& (#[trigger] tokens@[i]).start == front_start(src, i)
                &&& tokens@[i].start + tokens@[i].text.spec_bytes().len() == front_end(src, i)
                &&& front_end(src, i) <= src.spec_bytes().len()
            },
    ensures
        match front_delim_fault(front_toks(src), 0, seq![]) {
            None => r is None,
            Some(f) => r matches Some(e) && describes_front_fault(e, src, f),
        },
{
    let ghost t = front_toks(src);
    let n = src.as_bytes().len();
    let mut stack: Vec<usize> = Vec::new();
    let mut i: usize = 0;
    proof {
        assert(ints(stack@) =~= Seq::<int>::empty());
    }
    while i < tokens.len()
        invariant
            n == src.spec_bytes().len(),
            t == front_toks(src),
            ftoks(tokens@) == t,
            forall|i: int|
                0 <= i < tokens.len() ==> {
                    &&& (#[trigger] tokens@[i]).start == front_start(src, i)
                    &&& tokens@[i].start + tokens@[i].text.spec_bytes().len() == front_end(src, i)
                    &&& front_end(src, i) <= src.spec_bytes().len()
                },
            i <= tokens.len(),
            front_delim_fault(t, 0, seq![]) == front_delim_fault(t, i as int, ints(stack@)),
            forall|k: int|
                0 <= k < stack.len() ==> (#[trigger] stack@[k]) < i && t[stack@[k] as int].0.spec_is_opener(),
        decreases tokens.len() - i,
    {
        let tok = tokens[i];
        proof {
            assert(t[i as int] == (tok.kind, tok.text@));
        }
        if tok.kind.is_opener() {
            let ghost before = stack@;
            stack.push(i);
            proof {
                assert(ints(stack@) =~= ints(before).push(i as int));
            }
        } else if tok.kind.is_closer() {
            let ghost before = stack@;
            match stack.pop() {
                None => {
                    return Some(
                        ParseError {
                            span: tok.range(),
                            expected: Vec::new(),
                            found: Some(tok.text.to_string()),
                            headline: Some(String::from_str("unmatched closing delimiter")),
                            secondary: None,
                            help: None,
                        },
                    );
                },
                Some(o) => {
                    proof {
                        assert(ints(before).last() == o as int);
                        assert(ints(stack@) =~= ints(before).drop_last());
                        assert(before[before.len() - 1] == o);
                    }
                    let open = tokens[o];
                    proof {
                        assert(t[o as int] == (open.kind, open.text@));
                    }
                    if closer_for(open.kind) != tok.kind {
                        let mut label = String::from_str("unclosed ");
                        label.append(delim_label_exec(open.kind));
                        let mut expected: Vec<String> = Vec::new();
                        expected.push(String::from_str(delim_label_exec(closer_for(open.kind))));
                        proof {
                            assert(texts(expected@) =~= seq![
                                delim_label(front_closer_for(open.kind)),
                            ]);
                        }
                        return Some(
                            ParseError {
                                span: tok.range(),
                                expected,
                                found: Some(tok.text.to_string()),
                                headline: Some(String::from_str("mismatched closing delimiter")),
                                secondary: Some((open.range(), label)),
                                help: None,
                            },
                        );
                    }
                },
            }
        }
        i = i + 1;
    }
    if stack.len() > 0 {
        let o = stack[0];
        proof {
            assert(ints(stack@)[0] == o as int);
        }
        let open = tokens[o];
        proof {
            assert(t[o as int] == (open.kind, open.text@));
        }
        let mut expected: Vec<String> = Vec::new();
        expected.push(String::from_str(delim_label_exec(closer_for(open.kind))));
        proof {
            assert(texts(expected@) =~= seq![delim_label(front_closer_for(open.kind))]);
        }
        return Some(
            ParseError {
                span: open.range(),
                expected,
                found: None,
                headline: Some(String::from_str("unclosed delimiter")),
                secondary: None,
                help: None,
            },
        );
    }
    None
}


/// How many delimiters are still open after a lexed stream, a surplus
/// closer saturating at zero.
pub open spec fn front_open_depth(l: Seq<(SyntaxKind, int)>) -> nat
    decreases l.len(),
{
    if l.len() == 0 {
        0
    } else {
        let d = front_open_depth(l.drop_last());
        let k = l.last().0;
        if k.spec_is_opener() {
            d + 1
        } else if k.spec_is_closer() {
            if d == 0 {
                0
            } else {
                (d - 1) as nat
            }
        } else {
            d
        }
    }
}

/// Whether `src` has at least one delimiter still open: a `(`, `[` or `{`
/// with no matching closer yet. A surplus or mismatched closer does not
/// count as open. Delimiters inside strings and comments are ignored.
#[verifier::rlimit(30)]
pub fn has_open_delimiter(src: &str) -> (b: bool)
    ensures
        b == (front_open_depth(tokens_from(src.spec_bytes(), 0)) > 0),
{
    let toks = lex(src);
    let ghost l = tokens_from(src.spec_bytes(), 0);
    let mut depth: usize = 0;
    let mut i: usize = 0;
    proof {
        assert(l.take(0) =~= Seq::<(SyntaxKind, int)>::empty());
    }
    while i < toks.len()
        invariant
            token_pairs(toks@) == l,
            i <= toks.len(),
            depth <= i,
            depth == front_open_depth(l.take(i as int)),
        decreases toks.len() - i,
    {
        let k = toks[i].kind;
        proof {
            assert(l.take(i + 1).drop_last() =~= l.take(i as int));
            assert(l.take(i + 1).last().0 == k);
        }
        if k.is_opener() {
            depth = depth + 1;
        } else if k.is_closer() {
            depth = depth.saturating_sub(1);
        }
        i = i + 1;
    }
    proof {
        assert(l.take(toks.len() as int) =~= l);
    }
    depth > 0
}

/// While the delimiter pre-pass meets no fault, its stack of open
/// delimiters is as deep as the count of open delimiters: if it meets none
/// at all, nothing is left open.
proof fn lemma_no_fault_closes_all(src: &str, i: int, stack: Seq<int>)
    requires
        0 <= i <= front_toks(src).len(),
        stack.len() == front_open_depth(tokens_from(src.spec_bytes(), 0).take(i)),
        front_delim_fault(front_toks(src), i, stack) is None,
    ensures
        front_open_depth(tokens_from(src.spec_bytes(), 0)) == 0,
    decreases front_toks(src).len() - i,
{
    let l = tokens_from(src.spec_bytes(), 0);
    let t = front_toks(src);
    if i == t.len() {
        assert(l.take(i) =~= l);
    } else {
        assert(l.take(i + 1).drop_last() =~= l.take(i));
        assert(l.take(i + 1).last() == l[i]);
        assert(t[i].0 == l[i].0);
        if t[i].0.spec_is_opener() {
            lemma_no_fault_closes_all(src, i + 1, stack.push(i));
        } else if t[i].0.spec_is_closer() {
            lemma_no_fault_closes_all(src, i + 1, stack.drop_last());
        } else {
            lemma_no_fault_closes_all(src, i + 1, stack);
        }
    }
}

/// An input that [`has_open_delimiter`] reports as still open never
/// parses: the delimiter pre-pass of [`parse`] and [`parse_source`] reports
/// a fault for it.
pub proof fn lemma_open_delimiter_is_a_fault(src: &str)
    ensures
        front_open_depth(tokens_from(src.spec_bytes(), 0)) > 0 ==> front_delim_fault(
            front_toks(src),
            0,
            seq![],
        ) is Some,
{
    let l = tokens_from(src.spec_bytes(), 0);
    assert(l.take(0) =~= Seq::<(SyntaxKind, int)>::empty());
    if front_delim_fault(front_toks(src), 0, seq![]) is None {
        lemma_no_fault_closes_all(src, 0, seq![]);
    }
}

/// Whether a token can begin an expression.
pub open spec fn front_begins_expr(k: SyntaxKind) -> bool {
    k == SyntaxKind::NUMBER || k == SyntaxKind::STRING || k == SyntaxKind::IDENT || k
        == SyntaxKind::L_PAREN || k == SyntaxKind::L_BRACK || k == SyntaxKind::L_BRACE || k
        == SyntaxKind::MINUS || k == SyntaxKind::PLUS || k == SyntaxKind::BANG || k
        == SyntaxKind::DOT3
}

/// Whether a token can begin an expression: the set whose appearance where
/// a closer was due signals a dropped separator.
fn begins_expr(k: SyntaxKind) -> (b: bool)
    ensures
        b == front_begins_expr(k),
{
    match k {
        SyntaxKind::NUMBER | SyntaxKind::STRING | SyntaxKind::IDENT | SyntaxKind::L_PAREN
        | SyntaxKind::L_BRACK | SyntaxKind::L_BRACE | SyntaxKind::MINUS | SyntaxKind::PLUS
        | SyntaxKind::BANG | SyntaxKind::DOT3 => true,
        _ => false,
    }
}

/// Whether a dropped comma explains the failure: a closer was expected and
/// the token found can begin an expression (`[1 2]`).
pub open spec fn front_suggests_comma(labels: Seq<Seq<char>>, found: Option<SyntaxKind>) -> bool {
    &&& exists|i: int| 0 <= i < labels.len() && is_closer_label(#[trigger] labels[i])
    &&& found matches Some(k) && front_begins_expr(k)
}

/// Guesses a dropped comma: inside a list, call or map a forgotten `,`
/// surfaces as an expression token where a closer was expected.
fn missing_comma_help(expected: &Vec<String>, found: Option<SyntaxKind>) -> (r: Option<String>)
    ensures
        front_suggests_comma(texts(expected@), found) ==> (r matches Some(h) && h@
            == "missing `,`"@),
        !front_suggests_comma(texts(expected@), found) ==> r is None,
{
    let close_brack = String::from_str("`]`");
    let close_paren = String::from_str("`)`");
    let close_brace = String::from_str("`}`");
    let mut closer_expected = false;
    let mut i: usize = 0;
    while i < expected.len()
        invariant
            i <= expected.len(),
            close_brack@ == "`]`"@,
            close_paren@ == "`)`"@,
            close_brace@ == "`}`"@,
            closer_expected <==> exists|j: int|
                0 <= j < i && is_closer_label(#[trigger] texts(expected@)[j]),
        decreases expected.len() - i,
    {
        let e = &expected[i];
        proof {
            assert(texts(expected@)[i as int] == e@);
        }
        if *e == close_brack || *e == close_paren || *e == close_brace {
            closer_expected = true;
        }
        i = i + 1;
    }
    if !closer_expected {
        return None;
    }
    let found_begins_expr = match found {
        Some(k) => begins_expr(k),
        None => false,
    };
    if found_begins_expr {
        Some(String::from_str("missing `,`"))
    } else {
        None
    }
}

/// The index of the last significant token before index `k`, or `-1` when
/// only trivia precedes it.
pub open spec fn prev_sig(toks: Seq<FTok>, k: int) -> int
    decreases k,
{
    if k <= 0 {
        -1
    } else if !toks[k - 1].0.spec_is_trivia() {
        k - 1
    } else {
        prev_sig(toks, k - 1)
    }
}

/// The labels reported for a failure at significant token `k`: a bare name
/// just before it could have been a call, so `` `(` `` leads them there.
pub open spec fn front_labels(toks: Seq<FTok>, k: int, labels: Seq<Seq<char>>) -> Seq<Seq<char>> {
    let p = prev_sig(toks, k);
    if 0 <= p < toks.len() && toks[p].0 == SyntaxKind::IDENT {
        seq!["`(`"@] + labels
    } else {
        labels
    }
}

/// Whether the failure at token `k` is an unlexable token right after
/// whitespace: its report then takes the whitespace in.
pub open spec fn folds_space(toks: Seq<FTok>, k: int) -> bool {
    &&& 0 < k < toks.len()
    &&& toks[k].0 == SyntaxKind::ERROR
    &&& toks[k - 1].0 == SyntaxKind::WHITESPACE
}

/// `e` is the error for a grammar failure at token index `j` of the stream
/// of `src`, with `labels` expected there: it points at the next
/// significant token (or the end of input), together with the whitespace
/// before it when that token is unlexable, leads the labels with `` `(` ``
/// after a bare name, and suggests a dropped comma where one explains it.
pub open spec fn describes_front_failure(
    e: ParseError,
    src: &str,
    j: int,
    labels: Seq<Seq<char>>,
) -> bool {
    let toks = front_toks(src);
    let k = next_sig(toks, j);
    let l = front_labels(toks, k, labels);
    &&& texts(e.expected@) == l
    &&& e.headline is None
    &&& e.secondary is None
    &&& if 0 <= k < toks.len() {
        &&& e.span.end == front_end(src, k)
        &&& folds_space(toks, k) ==> e.span.start == front_start(src, k - 1) && opt_text(e.found)
            == Some(toks[k - 1].1 + toks[k].1)
        &&& !folds_space(toks, k) ==> e.span.start == front_start(src, k) && opt_text(e.found)
            == Some(toks[k].1)
        &&& front_suggests_comma(l, Some(toks[k].0)) ==> (e.help matches Some(h) && h@
            == "missing `,`"@)
        &&& !front_suggests_comma(l, Some(toks[k].0)) ==> e.help is None
    } else {
        &&& e.span.start == src.spec_bytes().len() && e.span.end == src.spec_bytes().len()
        &&& e.found is None
        &&& e.help is None
    }
}

/// The error at the next significant token from `pos` (or the end of
/// input), with the given expectation labels, led by `` `(` `` after a bare
/// name, and, where it applies, the missing-comma help.
fn err_here(src: &str, tokens: &Vec<Token>, pos: usize, labels: Vec<&'static str>) -> (e: Box<
    ParseError,
>)
    requires
        pos <= tokens.len(),
        ftoks(tokens@) == front_toks(src),
        forall|i: int|
            0 <= i < tokens.len() ==> {
                &&& (#[trigger] tokens@[i]).start == front_start(src, i)
                &&& tokens@[i].start + tokens@[i].text.spec_bytes().len() == front_end(src, i)
                &&& front_end(src, i) <= src.spec_bytes().len()
            },
    ensures
        describes_front_failure(*e, src, pos as int, strs(labels@)),
{
    let ghost t = front_toks(src);
    let n = src.as_bytes().len();
    let mut k = pos;
    while k < tokens.len() && tokens[k].kind.is_trivia()
        invariant
            pos <= k <= tokens.len(),
            ftoks(tokens@) == t,
            next_sig(t, k as int) == next_sig(t, pos as int),
        decreases tokens.len() - k,
    {
        proof {
            assert(t[k as int].0 == tokens@[k as int].kind);
        }
        k = k + 1;
    }
    proof {
        if k < tokens.len() {
            assert(t[k as int].0 == tokens@[k as int].kind);
        }
    }
    let mut q = k;
    while q > 0 && tokens[q - 1].kind.is_trivia()
        invariant
            q <= k <= tokens.len(),
            ftoks(tokens@) == t,
            prev_sig(t, q as int) == prev_sig(t, k as int),
        decreases q,
    {
        proof {
            assert(t[q - 1].0 == tokens@[q - 1].kind);
        }
        q = q - 1;
    }
    let after_name = q > 0 && tokens[q - 1].kind == SyntaxKind::IDENT;
    proof {
        if q > 0 {
            assert(t[q - 1].0 == tokens@[q - 1].kind);
        }
    }
    let mut expected: Vec<String> = Vec::new();
    if after_name {
        expected.push(String::from_str("`(`"));
    }
    let ghost lead = texts(expected@);
    proof {
        assert(lead + strs(labels@).take(0) =~= lead);
        assert(lead + strs(labels@) == front_labels(t, k as int, strs(labels@)));
    }
    let mut i: usize = 0;
    while i < labels.len()
        invariant
            i <= labels.len(),
            texts(expected@) == lead + strs(labels@).take(i as int),
        decreases labels.len() - i,
    {
        let ghost before = expected@;
        let x = String::from_str(labels[i]);
        expected.push(x);
        proof {
            assert(x@ == labels@[i as int]@);
            assert(texts(expected@) =~= texts(before).push(x@));
            assert(strs(labels@).take(i + 1) =~= strs(labels@).take(i as int).push(labels@[i as int]@));
            assert(texts(expected@) =~= lead + strs(labels@).take(i + 1));
        }
        i = i + 1;
    }
    proof {
        assert(strs(labels@).take(labels.len() as int) =~= strs(labels@));
    }
    if k < tokens.len() {
        let tok = tokens[k];
        proof {
            assert(t[k as int] == (tok.kind, tok.text@));
        }
        let help = missing_comma_help(&expected, Some(tok.kind));
        let fold = k > 0 && tok.kind == SyntaxKind::ERROR && tokens[k - 1].kind == SyntaxKind::WHITESPACE;
        if fold {
            let space = tokens[k - 1];
            proof {
                assert(t[k - 1] == (space.kind, space.text@));
            }
            Box::new(
                ParseError {
                    span: space.start..tok.end(),
                    expected,
                    found: Some(String::from_str(space.text).concat(tok.text)),
                    headline: None,
                    secondary: None,
                    help,
                },
            )
        } else {
            Box::new(
                ParseError {
                    span: tok.range(),
                    expected,
                    found: Some(tok.text.to_string()),
                    headline: None,
                    secondary: None,
                    help,
                },
            )
        }
    } else {
        let help = missing_comma_help(&expected, None);
        Box::new(
            ParseError { span: n..n, expected, found: None, headline: None, secondary: None, help },
        )
    }
}

/// The front end's syntax tree of a successful parse's events: a `ROOT`
/// node around a balanced body.
fn tree_of(events: &Vec<FEvent>) -> (n: FNode)
    requires
        events@.len() >= 2,
        crate::ftree::fbalanced(events@.subrange(1, events@.len() - 1)),
    ensures
        n.kind == SyntaxKind::ROOT,
        elems_events(n.children@) == events@.subrange(1, events@.len() - 1),
{
    let ghost ev = events@;
    let n = events.len();
    let mut body: Vec<FEvent> = Vec::new();
    let mut i: usize = 1;
    while i + 1 < n
        invariant
            n == events.len(),
            ev == events@,
            n >= 2,
            1 <= i <= n - 1,
            body@ == ev.subrange(1, i as int),
        decreases n - i,
    {
        body.push(events[i]);
        proof {
            assert(body@ =~= ev.subrange(1, i + 1));
        }
        i = i + 1;
    }
    match build_forest(&body) {
        Some(forest) => FNode { kind: SyntaxKind::ROOT, children: forest },
        None => FNode { kind: SyntaxKind::ROOT, children: Vec::new() },
    }
}

/// Parses `src` to the front end's syntax tree: a `ROOT` node whose
/// preorder walk is the grammar's, every token of the source (trivia
/// included) in source order.
///
/// A delimiter pre-pass first reports the first unbalanced bracket
/// structurally; otherwise the grammar runs fail-fast, and the first
/// violation is reported with what was expected there.
pub fn parse(src: &str) -> (r: Result<FNode, Box<ParseError>>)
    ensures
        match front_delim_fault(front_toks(src), 0, seq![]) {
            Some(f) => r matches Err(e) && describes_front_fault(*e, src, f),
            None => match cst_grammar::root(front_toks(src)) {
                Err((j, labels)) => r matches Err(e) && describes_front_failure(*e, src, j, labels),
                Ok((ev, _)) => r matches Ok(n) && n.kind == SyntaxKind::ROOT && elems_events(
                    n.children@,
                ) == ev.subrange(1, ev.len() - 1),
            },
        },
        r matches Ok(n) ==> token_indices(elems_events(n.children@)) == index_run(
            0,
            front_toks(src).len() as int,
        ),
        r matches Ok(n) ==> tree_text(src, n.children@) == src@,
{
    let tokens = lex(src);
    proof {
        lemma_lexed_front(src, tokens@);
    }
    if let Some(err) = check_delimiters(src, &tokens) {
        return Err(Box::new(err));
    }
    let ghost t = front_toks(src);
    let mut p = FParser { tokens, pos: 0, events: Vec::new() };
    let res = parse_root(&mut p);
    if let Err(labels) = res {
        return Err(err_here(src, &p.tokens, p.pos, labels));
    }
    proof {
        lemma_root_balanced(t);
        lemma_root_covers(t);
        let ev = p.evs();
        lemma_token_indices_wrap(SyntaxKind::ROOT, ev.subrange(1, ev.len() - 1));
        lemma_front_text_whole(src, tokens@);
    }
    Ok(tree_of(&p.events))
}

/// Parses `src` to the compact tree: [`parse`], then the lowering of the
/// syntax tree ([`from_root`]).
pub fn parse_source(src: &str) -> (r: Result<Cst<'_>, Box<ParseError>>)
    ensures
        match front_delim_fault(front_toks(src), 0, seq![]) {
            Some(f) => r matches Err(e) && describes_front_fault(*e, src, f),
            None => match cst_grammar::root(front_toks(src)) {
                Err((j, labels)) => r matches Err(e) && describes_front_failure(*e, src, j, labels),
                Ok((ev, _)) => r matches Ok(c) && exists|f: Seq<FElem>|
                    #[trigger] elems_events(f) == ev.subrange(1, ev.len() - 1) && cst_model(c)
                        == root_m(front_toks(src), f),
            },
        },
{
    let root = match parse(src) {
        Err(e) => return Err(e),
        Ok(n) => n,
    };
    let tokens = lex(src);
    proof {
        lemma_lexed_front(src, tokens@);
    }
    let c = from_root(&tokens, &root.children);
    Ok(c)
}

/// Every failure of [`parse_source`] carries a non-empty message: a
/// structural headline, an `expected …` clause, or `unexpected token`.
pub proof fn lemma_front_message_nonempty(src: &str, e: ParseError)
    requires
        (exists|f: DelimFault| describes_front_fault(e, src, f)) || (exists|j: int, l: Seq<Seq<char>>|
            describes_front_failure(e, src, j, l)),
    ensures
        message_of(opt_text(e.headline), texts(e.expected@), opt_text(e.found)).len() > 0,
{
    reveal_strlit("unmatched closing delimiter");
    reveal_strlit("mismatched closing delimiter");
    reveal_strlit("unclosed delimiter");
    reveal_strlit("unexpected token");
    reveal_strlit("expected ");
    reveal_strlit("expected one of ");
    let labels = texts(e.expected@);
    match phrase_of(labels) {
        Some(p) => {
            if labels.len() == 1 {
                assert(p == "expected "@ + labels[0]);
            } else if labels.len() == 2 {
                assert(p == "expected "@ + labels[0] + " or "@ + labels[1]);
            } else {
                assert(p.len() >= "expected one of "@.len());
            }
        },
        None => {},
    }
}

} // verus!
