//! The grammar of the compact-tree front end, as a specification: a
//! recursive-descent reading of its token stream into preorder tree events.
//!
//! The ladder is that of [`crate::grammar`], with these differences: the
//! `,` and `;` chains nest as left-associative `BIN_EXPR`s; `l(…)` and
//! `m(…)` spell list and map literals; an omitted argument is simply absent;
//! and a failure names a fixed set of expectations for its position instead
//! of a recorded one.

use vstd::prelude::*;

use crate::syntax::SyntaxKind;

verus! {

/// One step of a preorder walk over the front end's tree. A token is named
/// by its index in the stream and the kind it is emitted as.
#[derive(Debug, Clone, Copy, PartialEq, Eq, Structural)]
pub enum FEvent {
    Start(SyntaxKind),
    Token(usize, SyntaxKind),
    Finish,
}

/// A token as the grammar sees it: its kind and its text.
pub type FTok = (SyntaxKind, Seq<char>);

/// What a rule yields: the events it emits and the next token index, or the
/// token index of the failure and the labels expected there.
pub type FRes = Result<(Seq<FEvent>, int), (int, Seq<Seq<char>>)>;

/// The index of the first significant token at or after `i`.
pub open spec fn next_sig(toks: Seq<FTok>, i: int) -> int
    decreases toks.len() - i,
{
    if 0 <= i < toks.len() && toks[i].0.spec_is_trivia() {
        next_sig(toks, i + 1)
    } else {
        i
    }
}

/// The kind of the `n`-th significant token at or after `i` (`n` is 0 or 1).
pub open spec fn peek(toks: Seq<FTok>, i: int) -> Option<SyntaxKind> {
    let j = next_sig(toks, i);
    if 0 <= j < toks.len() {
        Some(toks[j].0)
    } else {
        None
    }
}

/// The kind of the significant token after the next one.
pub open spec fn peek2(toks: Seq<FTok>, i: int) -> Option<SyntaxKind> {
    let j = next_sig(toks, i);
    if 0 <= j < toks.len() {
        peek(toks, j + 1)
    } else {
        None
    }
}

/// The token events of `toks[i..j]`, each under its own kind.
pub open spec fn token_events(toks: Seq<FTok>, i: int, j: int) -> Seq<FEvent>
    decreases j - i,
{
    if 0 <= i < j && j <= toks.len() {
        seq![FEvent::Token(i as usize, toks[i].0)] + token_events(toks, i + 1, j)
    } else {
        seq![]
    }
}

/// Emits the pending trivia.
pub open spec fn flush(toks: Seq<FTok>, i: int) -> (Seq<FEvent>, int) {
    (token_events(toks, i, next_sig(toks, i)), next_sig(toks, i))
}

/// Emits the pending trivia and then the next significant token.
pub open spec fn bump(toks: Seq<FTok>, i: int) -> (Seq<FEvent>, int) {
    (token_events(toks, i, next_sig(toks, i) + 1), next_sig(toks, i) + 1)
}

/// Emits the pending trivia and then the next significant token as `kind`.
pub open spec fn bump_as(toks: Seq<FTok>, i: int, kind: SyntaxKind) -> (Seq<FEvent>, int) {
    (
        token_events(toks, i, next_sig(toks, i)) + seq![FEvent::Token(next_sig(toks, i) as usize, kind)],
        next_sig(toks, i) + 1,
    )
}

/// Whether the next token is a closer or the end of input.
pub open spec fn at_closer_or_eof(toks: Seq<FTok>, i: int) -> bool {
    match peek(toks, i) {
        None => true,
        Some(k) => k.spec_is_closer(),
    }
}

/// `j` lies strictly past `i` and within the stream.
pub open spec fn progressed(toks: Seq<FTok>, i: int, j: int) -> bool {
    i < j <= toks.len()
}

/// Wraps `body` in a node of `kind`.
pub open spec fn wrap(kind: SyntaxKind, body: Seq<FEvent>) -> Seq<FEvent> {
    seq![FEvent::Start(kind)] + body + seq![FEvent::Finish]
}

/// `r` with `e` emitted before it.
pub open spec fn prepend(e: Seq<FEvent>, r: FRes) -> FRes {
    match r {
        Ok((x, j)) => Ok((e + x, j)),
        Err(f) => Err(f),
    }
}

/// The operator tokens of binary level `lvl`.
pub open spec fn is_level_op(lvl: int, k: SyntaxKind) -> bool {
    if lvl == 1 {
        k == SyntaxKind::TILDE || k == SyntaxKind::COLON
    } else if lvl == 3 {
        k == SyntaxKind::CARET
    } else if lvl == 4 {
        k == SyntaxKind::STAR || k == SyntaxKind::SLASH || k == SyntaxKind::PERCENT
    } else if lvl == 5 {
        k == SyntaxKind::PLUS || k == SyntaxKind::MINUS
    } else if lvl == 6 {
        k == SyntaxKind::LT_EQ || k == SyntaxKind::GT_EQ || k == SyntaxKind::LT || k
            == SyntaxKind::GT
    } else if lvl == 7 {
        k == SyntaxKind::EQ2 || k == SyntaxKind::BANG_EQ
    } else if lvl == 8 {
        k == SyntaxKind::AMP2
    } else if lvl == 9 {
        k == SyntaxKind::PIPE2
    } else if lvl == 10 {
        k == SyntaxKind::EQ || k == SyntaxKind::PLUS_EQ || k == SyntaxKind::LT_GT
    } else if lvl == 11 {
        k == SyntaxKind::ARROW
    } else {
        false
    }
}

/// Whether the next token is an operator of level `lvl`.
pub open spec fn at_level_op(toks: Seq<FTok>, lvl: int, i: int) -> bool {
    match peek(toks, i) {
        Some(k) => is_level_op(lvl, k),
        None => false,
    }
}

/// The prefix operators.
pub open spec fn is_prefix_op(k: SyntaxKind) -> bool {
    k == SyntaxKind::MINUS || k == SyntaxKind::PLUS || k == SyntaxKind::BANG || k
        == SyntaxKind::DOT3
}

/// Whether `lvl` is a right-associative binary level.
pub open spec fn is_right_level(lvl: int) -> bool {
    lvl == 3 || lvl == 10 || lvl == 11
}

/// Whether `lvl` is a left-associative binary level.
pub open spec fn is_left_level(lvl: int) -> bool {
    lvl == 1 || (4 <= lvl <= 9)
}

/// The literal label of a delimiter kind.
pub open spec fn delim_label(k: SyntaxKind) -> Seq<char> {
    match k {
        SyntaxKind::L_PAREN => "`(`"@,
        SyntaxKind::R_PAREN => "`)`"@,
        SyntaxKind::L_BRACK => "`[`"@,
        SyntaxKind::R_BRACK => "`]`"@,
        SyntaxKind::L_BRACE => "`{`"@,
        _ => "`}`"@,
    }
}

/// The literal constructor an identifier spells, if any: `l` for a list,
/// `m` for a map.
pub open spec fn constructor_of(text: Seq<char>) -> Option<SyntaxKind> {
    if text == seq!['l'] {
        Some(SyntaxKind::LIST_EXPR)
    } else if text == seq!['m'] {
        Some(SyntaxKind::MAP_EXPR)
    } else {
        None
    }
}

/// The contextual keyword token of a literal constructor's node kind.
pub open spec fn constructor_token(node: SyntaxKind) -> SyntaxKind {
    if node == SyntaxKind::LIST_EXPR {
        SyntaxKind::L_KW
    } else {
        SyntaxKind::M_KW
    }
}

/// Rule `lvl` of the ladder (0 ..= 13) at token index `i`.
pub open spec fn rule(toks: Seq<FTok>, lvl: int, i: int) -> FRes
    decreases toks.len() - i, lvl + 3,
{
    if i < 0 || i > toks.len() || lvl < 0 || lvl > 13 {
        Err((i, seq![]))
    } else if lvl == 13 || lvl == 12 {
        let (t, i0) = flush(toks, i);
        if !(i <= i0 <= toks.len()) {
            Err((i0, seq![]))
        } else {
            match rule(toks, lvl - 1, i0) {
                Err(f) => Err(f),
                Ok((e1, i1)) => if !progressed(toks, i, i1) {
                    Err((i1, seq![]))
                } else {
                    match chain_rest(toks, lvl, i1, e1) {
                        Err(f) => Err(f),
                        Ok((e2, i2)) => Ok((t + e2, i2)),
                    }
                },
            }
        }
    } else if is_right_level(lvl) {
        let (t, i0) = flush(toks, i);
        if !(i <= i0 <= toks.len()) {
            Err((i0, seq![]))
        } else {
            match rule(toks, lvl - 1, i0) {
                Err(f) => Err(f),
                Ok((e1, i1)) => if at_level_op(toks, lvl, i1) {
                    let (b, i2) = bump(toks, i1);
                    if !progressed(toks, i, i2) {
                        Err((i2, seq![]))
                    } else {
                        match rule(toks, lvl, i2) {
                            Err(f) => Err(f),
                            Ok((e2, i3)) => Ok((t + wrap(SyntaxKind::BIN_EXPR, e1 + b + e2), i3)),
                        }
                    }
                } else {
                    Ok((t + e1, i1))
                },
            }
        }
    } else if is_left_level(lvl) {
        let (t, i0) = flush(toks, i);
        if !(i <= i0 <= toks.len()) {
            Err((i0, seq![]))
        } else {
            match rule(toks, lvl - 1, i0) {
                Err(f) => Err(f),
                Ok((e1, i1)) => if !progressed(toks, i, i1) {
                    Err((i1, seq![]))
                } else {
                    match left_rest(toks, lvl, i1, e1) {
                        Err(f) => Err(f),
                        Ok((e2, i2)) => Ok((t + e2, i2)),
                    }
                },
            }
        }
    } else if lvl == 2 {
        match peek(toks, i) {
            Some(k) => if is_prefix_op(k) {
                let (t, i0) = flush(toks, i);
                let (b, i1) = bump(toks, i0);
                if !progressed(toks, i, i1) {
                    Err((i1, seq![]))
                } else {
                    match rule(toks, 2, i1) {
                        Err(f) => Err(f),
                        Ok((e1, i2)) => Ok((t + wrap(SyntaxKind::PREFIX_EXPR, b + e1), i2)),
                    }
                }
            } else {
                rule(toks, 1, i)
            },
            None => rule(toks, 1, i),
        }
    } else {
        primary(toks, i)
    }
}

/// The links of a `,` (`lvl` 13) or `;` (`lvl` 12) chain after an item,
/// each wrapped into a `BIN_EXPR` around everything since the chain's start
/// (`acc`). A trailing separator is allowed; a run of `;` counts as one.
pub open spec fn chain_rest(toks: Seq<FTok>, lvl: int, i: int, acc: Seq<FEvent>) -> FRes
    decreases toks.len() - i, 20int,
{
    let sep = if lvl == 13 {
        SyntaxKind::COMMA
    } else {
        SyntaxKind::SEMICOLON
    };
    if i < 0 || i > toks.len() || !(lvl == 12 || lvl == 13) {
        Err((i, seq![]))
    } else if peek(toks, i) == Some(sep) {
        let (b, i1) = if lvl == 13 {
            bump(toks, i)
        } else {
            semis(toks, i)
        };
        if !progressed(toks, i, i1) {
            Err((i1, seq![]))
        } else if at_closer_or_eof(toks, i1) || (lvl == 12 && peek(toks, i1) == Some(
            SyntaxKind::COMMA,
        )) {
            Ok((acc + b, i1))
        } else {
            match rule(toks, lvl - 1, i1) {
                Err(f) => Err(f),
                Ok((e, i2)) => if !progressed(toks, i, i2) {
                    Err((i2, seq![]))
                } else {
                    chain_rest(toks, lvl, i2, wrap(SyntaxKind::BIN_EXPR, acc + b + e))
                },
            }
        }
    } else {
        Ok((acc, i))
    }
}

/// A run of `;` tokens (the next token is `;`).
pub open spec fn semis(toks: Seq<FTok>, i: int) -> (Seq<FEvent>, int)
    decreases toks.len() - i,
{
    let (b, i1) = bump(toks, i);
    if progressed(toks, i, i1) && peek(toks, i1) == Some(SyntaxKind::SEMICOLON) {
        let (r, i2) = semis(toks, i1);
        (b + r, i2)
    } else {
        (b, i1)
    }
}

/// The links of a left-associative level after its first operand.
pub open spec fn left_rest(toks: Seq<FTok>, lvl: int, i: int, acc: Seq<FEvent>) -> FRes
    decreases toks.len() - i, 20int,
{
    if i < 0 || i > toks.len() || lvl < 1 || lvl > 13 {
        Err((i, seq![]))
    } else if at_level_op(toks, lvl, i) {
        let (b, i1) = bump(toks, i);
        if !progressed(toks, i, i1) {
            Err((i1, seq![]))
        } else {
            match rule(toks, lvl - 1, i1) {
                Err(f) => Err(f),
                Ok((e1, i2)) => if !progressed(toks, i, i2) {
                    Err((i2, seq![]))
                } else {
                    left_rest(toks, lvl, i2, wrap(SyntaxKind::BIN_EXPR, acc + b + e1))
                },
            }
        }
    } else {
        Ok((acc, i))
    }
}

/// `primary`: a literal, a literal constructor `l(…)` / `m(…)`, a name or
/// call, a parenthesized body, a list or a map.
pub open spec fn primary(toks: Seq<FTok>, i: int) -> FRes
    decreases toks.len() - i, 2int,
{
    if i < 0 || i > toks.len() {
        Err((i, seq![]))
    } else {
        match peek(toks, i) {
            Some(k) => if k == SyntaxKind::NUMBER || k == SyntaxKind::STRING {
                let (t, i0) = flush(toks, i);
                let (b, i1) = bump(toks, i0);
                Ok((t + wrap(SyntaxKind::LITERAL, b), i1))
            } else if k == SyntaxKind::IDENT {
                let j = next_sig(toks, i);
                if peek2(toks, i) == Some(SyntaxKind::L_PAREN) && constructor_of(toks[j].1) is Some {
                    let node = constructor_of(toks[j].1)->Some_0;
                    let (t, i0) = flush(toks, i);
                    let (b, i1) = bump_as(toks, i0, constructor_token(node));
                    if !progressed(toks, i, i1) {
                        Err((i1, seq![]))
                    } else {
                        match delimited_tail(toks, i1, SyntaxKind::R_PAREN) {
                            Err(f) => Err(f),
                            Ok((d, i2)) => Ok((t + wrap(node, b + d), i2)),
                        }
                    }
                } else {
                    let (t, i0) = flush(toks, i);
                    let (b, i1) = bump(toks, i0);
                    if peek(toks, i1) == Some(SyntaxKind::L_PAREN) {
                        if !progressed(toks, i, i1) {
                            Err((i1, seq![]))
                        } else {
                            match delimited(toks, i1, SyntaxKind::ARG_LIST, SyntaxKind::R_PAREN) {
                                Err(f) => Err(f),
                                Ok((d, i2)) => Ok(
                                    (
                                        t + wrap(
                                            SyntaxKind::CALL_EXPR,
                                            wrap(SyntaxKind::NAME_REF, b) + d,
                                        ),
                                        i2,
                                    ),
                                ),
                            }
                        }
                    } else {
                        Ok((t + wrap(SyntaxKind::NAME_REF, b), i1))
                    }
                }
            } else if k == SyntaxKind::L_PAREN {
                let (t, i0) = flush(toks, i);
                let (b, i1) = bump(toks, i0);
                if !progressed(toks, i, i1) {
                    Err((i1, seq![]))
                } else {
                    match rule(toks, 13, i1) {
                        Err(f) => Err(f),
                        Ok((e1, i2)) => if peek(toks, i2) == Some(SyntaxKind::R_PAREN) {
                            let (b2, i3) = bump(toks, i2);
                            Ok((t + wrap(SyntaxKind::PAREN_EXPR, b + e1 + b2), i3))
                        } else {
                            Err((i2, seq!["an operator"@, "`)`"@]))
                        },
                    }
                }
            } else if k == SyntaxKind::L_BRACK {
                delimited(toks, i, SyntaxKind::LIST_EXPR, SyntaxKind::R_BRACK)
            } else if k == SyntaxKind::L_BRACE {
                delimited(toks, i, SyntaxKind::MAP_EXPR, SyntaxKind::R_BRACE)
            } else {
                Err((i, seq!["expression"@]))
            },
            None => Err((i, seq!["expression"@])),
        }
    }
}

/// A `node` around an opener (the next token), its items and `close`.
pub open spec fn delimited(toks: Seq<FTok>, i: int, node: SyntaxKind, close: SyntaxKind) -> FRes
    decreases toks.len() - i, 1int,
{
    let (t, i0) = flush(toks, i);
    if !(i <= i0 <= toks.len()) {
        Err((i0, seq![]))
    } else {
        match delimited_tail(toks, i0, close) {
            Err(f) => Err(f),
            Ok((d, i1)) => Ok((t + wrap(node, d), i1)),
        }
    }
}

/// The opener (the next token), the items, and the closer `close`.
pub open spec fn delimited_tail(toks: Seq<FTok>, i: int, close: SyntaxKind) -> FRes
    decreases toks.len() - i, 0int,
{
    let (b, i1) = bump(toks, i);
    if !progressed(toks, i, i1) {
        Err((i1, seq![]))
    } else {
        match args(toks, i1, close) {
            Err(f) => Err(f),
            Ok((a, i2)) => if peek(toks, i2) == Some(close) {
                let (b2, i3) = bump(toks, i2);
                Ok((b + a + b2, i3))
            } else {
                Err((i2, seq![delim_label(close)]))
            },
        }
    }
}

/// The bracket depth after a token of kind `k` at depth `d`: an opener goes
/// one deeper, a closer one shallower.
pub open spec fn next_depth(d: nat, k: SyntaxKind) -> nat {
    if k.spec_is_opener() {
        d + 1
    } else if k.spec_is_closer() && d > 0 {
        (d - 1) as nat
    } else {
        d
    }
}

/// The index of the first `->` among `toks[k..end]` that stands outside
/// every bracket, `d` being the depth at `k`; `end` when there is none.
pub open spec fn top_arrow(toks: Seq<FTok>, k: int, end: int, d: nat) -> int
    decreases end - k,
{
    if k < 0 || k >= end || k >= toks.len() {
        end
    } else if d == 0 && toks[k].0 == SyntaxKind::ARROW {
        k
    } else {
        top_arrow(toks, k + 1, end, next_depth(d, toks[k].0))
    }
}

/// The index of the token from `k` on that brings the depth `d` back to 0:
/// the closer of a bracket opened before `k`; the stream's length when no
/// token does.
pub open spec fn close_of(toks: Seq<FTok>, k: int, d: nat) -> int
    decreases toks.len() - k,
{
    if k < 0 || k >= toks.len() {
        toks.len() as int
    } else if next_depth(d, toks[k].0) == 0 {
        k
    } else {
        close_of(toks, k + 1, next_depth(d, toks[k].0))
    }
}

/// Whether the tokens from `i` up to index `a` are exactly a call: a name
/// that is not a literal constructor, its `(`, the arguments and the
/// matching `)`.
pub open spec fn is_call_before(toks: Seq<FTok>, i: int, a: int) -> bool {
    let s = next_sig(toks, i);
    let q = next_sig(toks, s + 1);
    &&& 0 <= s < toks.len()
    &&& toks[s].0 == SyntaxKind::IDENT
    &&& constructor_of(toks[s].1) is None
    &&& 0 <= q < toks.len()
    &&& toks[q].0 == SyntaxKind::L_PAREN
    &&& next_sig(toks, close_of(toks, q + 1, 1) + 1) == a
}

/// For a map item at `i` that opens with a key/value pair whose key is not
/// a call, and where a `;` follows the pair's value: the index the pair
/// ends at, where the `;` is next.
pub open spec fn pair_then_semi(toks: Seq<FTok>, i: int) -> Option<int>
    decreases toks.len() - i, 18int,
{
    if i < 0 || i > toks.len() {
        None
    } else {
        let i0 = next_sig(toks, i);
        proof {
            lemma_next_sig(toks, i);
        }
        match rule(toks, 11, i0) {
            Ok((_, j)) => if peek(toks, j) == Some(SyntaxKind::SEMICOLON) {
                let a = top_arrow(toks, i0, j, 0);
                if a < j && !is_call_before(toks, i0, a) {
                    Some(j)
                } else {
                    None
                }
            } else {
                None
            },
            Err(_) => None,
        }
    }
}

/// The comma-separated items between delimiters, up to a closer or the end
/// of input; an omitted item is simply absent.
pub open spec fn args(toks: Seq<FTok>, i: int, close: SyntaxKind) -> FRes
    decreases toks.len() - i, 20int,
{
    if i < 0 || i > toks.len() {
        Err((i, seq![]))
    } else if at_closer_or_eof(toks, i) {
        Ok((seq![], i))
    } else {
        let item: FRes = if peek(toks, i) == Some(SyntaxKind::COMMA) {
            Ok((seq![], i))
        } else if close == SyntaxKind::R_BRACE && pair_then_semi(toks, i) is Some {
            // In a `{…}` map, a key/value pair whose key is not a call
            // cannot be followed by `;`.
            Err((pair_then_semi(toks, i)->Some_0, seq!["`,`"@, "`}`"@]))
        } else {
            rule(toks, 12, i)
        };
        match item {
            Err(f) => Err(f),
            Ok((e1, i1)) => if !(i <= i1 <= toks.len()) {
                Err((i1, seq![]))
            } else if peek(toks, i1) == Some(SyntaxKind::COMMA) {
                let (b, i2) = bump(toks, i1);
                if !progressed(toks, i, i2) {
                    Err((i2, seq![]))
                } else {
                    prepend(e1 + b, args(toks, i2, close))
                }
            } else if at_closer_or_eof(toks, i1) {
                Ok((e1, i1))
            } else {
                Err((i1, seq!["an operator"@, delim_label(close)]))
            },
        }
    }
}

/// The whole program: a `ROOT` node around the top-level chain and any
/// trailing trivia; input left over fails with `an operator` or `end of
/// input` expected.
pub open spec fn root(toks: Seq<FTok>) -> FRes {
    match rule(toks, 13, 0) {
        Err(f) => Err(f),
        Ok((e1, i1)) => {
            let (f, i2) = flush(toks, i1);
            if peek(toks, i2).is_some() {
                Err((i2, seq!["an operator"@, "end of input"@]))
            } else {
                Ok((wrap(SyntaxKind::ROOT, e1 + f), i2))
            }
        },
    }
}

/// `next_sig` lands in `i ..= len`, on a significant token or the end, past
/// trivia only.
pub proof fn lemma_next_sig(toks: Seq<FTok>, i: int)
    requires
        0 <= i <= toks.len(),
    ensures
        i <= next_sig(toks, i) <= toks.len(),
        next_sig(toks, i) < toks.len() ==> !toks[next_sig(toks, i)].0.spec_is_trivia(),
        next_sig(toks, next_sig(toks, i)) == next_sig(toks, i),
    decreases toks.len() - i,
{
    if i < toks.len() && toks[i].0.spec_is_trivia() {
        lemma_next_sig(toks, i + 1);
    }
}

/// Appending one token to a run of token events.
pub proof fn lemma_token_events_snoc(toks: Seq<FTok>, i: int, j: int)
    requires
        0 <= i <= j < toks.len(),
    ensures
        token_events(toks, i, j + 1) == token_events(toks, i, j).push(
            FEvent::Token(j as usize, toks[j].0),
        ),
    decreases j - i,
{
    if i == j {
        assert(token_events(toks, i + 1, j + 1) =~= Seq::<FEvent>::empty());
        assert(token_events(toks, i, j) =~= Seq::<FEvent>::empty());
        assert(token_events(toks, i, j + 1) =~= seq![FEvent::Token(j as usize, toks[j].0)]);
    } else {
        lemma_token_events_snoc(toks, i + 1, j);
        assert(token_events(toks, i, j + 1) =~= token_events(toks, i, j).push(
            FEvent::Token(j as usize, toks[j].0),
        ));
    }
}

/// An empty run of token events.
pub proof fn lemma_token_events_empty(toks: Seq<FTok>, i: int)
    ensures
        token_events(toks, i, i) == Seq::<FEvent>::empty(),
{
    assert(token_events(toks, i, i) =~= Seq::<FEvent>::empty());
}

} // verus!
