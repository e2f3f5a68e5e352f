//! The front end's grammar keeps every token: what a rule emits for the
//! tokens it consumes holds each of them exactly once, in order, trivia
//! included, so a successful parse holds the whole token stream.

use vstd::prelude::*;

use crate::cst_grammar::{
    FEvent, FTok, args, at_closer_or_eof, at_level_op, bump, bump_as, chain_rest, constructor_of,
    constructor_token, delimited, delimited_tail, flush, is_left_level, is_prefix_op,
    is_right_level, lemma_next_sig, lemma_token_events_empty, left_rest, next_sig, peek, peek2,
    primary, progressed, root, rule, semis, token_events, wrap,
};
use crate::syntax::SyntaxKind;

verus! {

/// The token indices an event sequence carries, in order.
pub open spec fn token_indices(e: Seq<FEvent>) -> Seq<int>
    decreases e.len(),
{
    if e.len() == 0 {
        seq![]
    } else {
        token_indices(e.drop_last()) + match e.last() {
            FEvent::Token(x, _) => seq![x as int],
            _ => seq![],
        }
    }
}

/// The indices `i, i + 1, …, j - 1`.
pub open spec fn index_run(i: int, j: int) -> Seq<int> {
    Seq::new((j - i) as nat, |k: int| i + k)
}

/// `e` holds the tokens `i .. j`, each exactly once and in order.
pub open spec fn covers(e: Seq<FEvent>, i: int, j: int) -> bool {
    &&& i <= j
    &&& token_indices(e) == index_run(i, j)
}

/// The token indices of a concatenation are the concatenated indices.
pub proof fn lemma_token_indices_concat(a: Seq<FEvent>, b: Seq<FEvent>)
    ensures
        token_indices(a + b) == token_indices(a) + token_indices(b),
    decreases b.len(),
{
    if b.len() == 0 {
        assert(a + b =~= a);
        assert(token_indices(a) + token_indices(b) =~= token_indices(a));
    } else {
        assert((a + b).drop_last() =~= a + b.drop_last());
        assert((a + b).last() == b.last());
        lemma_token_indices_concat(a, b.drop_last());
        let tail = match b.last() {
            FEvent::Token(x, _) => seq![x as int],
            _ => Seq::<int>::empty(),
        };
        assert(token_indices(a) + token_indices(b.drop_last()) + tail =~= token_indices(a) + (
        token_indices(b.drop_last()) + tail));
    }
}

/// A single event's token indices.
proof fn lemma_token_indices_one(x: FEvent)
    ensures
        token_indices(seq![x]) == match x {
            FEvent::Token(t, _) => seq![t as int],
            _ => Seq::<int>::empty(),
        },
{
    assert(seq![x].drop_last() =~= Seq::<FEvent>::empty());
    assert(seq![x].last() == x);
    assert(token_indices(Seq::<FEvent>::empty()) =~= Seq::<int>::empty());
    match x {
        FEvent::Token(t, _) => assert(Seq::<int>::empty() + seq![t as int] =~= seq![t as int]),
        _ => assert(Seq::<int>::empty() + Seq::<int>::empty() =~= Seq::<int>::empty()),
    }
}

/// Adjacent covers join.
pub proof fn lemma_covers_concat(a: Seq<FEvent>, b: Seq<FEvent>, i: int, j: int, k: int)
    requires
        covers(a, i, j),
        covers(b, j, k),
    ensures
        covers(a + b, i, k),
{
    lemma_token_indices_concat(a, b);
    assert(index_run(i, j) + index_run(j, k) =~= index_run(i, k));
}

/// Three adjacent covers join.
proof fn lemma_covers3(
    a: Seq<FEvent>,
    b: Seq<FEvent>,
    c: Seq<FEvent>,
    i: int,
    j: int,
    k: int,
    l: int,
)
    requires
        covers(a, i, j),
        covers(b, j, k),
        covers(c, k, l),
    ensures
        covers(a + b + c, i, l),
{
    lemma_covers_concat(a, b, i, j, k);
    lemma_covers_concat(a + b, c, i, k, l);
}

/// Wrapping in a node keeps the tokens.
pub proof fn lemma_covers_wrap(kind: SyntaxKind, x: Seq<FEvent>, i: int, j: int)
    requires
        covers(x, i, j),
    ensures
        covers(wrap(kind, x), i, j),
{
    lemma_token_indices_one(FEvent::Start(kind));
    lemma_token_indices_one(FEvent::Finish);
    lemma_token_indices_concat(seq![FEvent::Start(kind)], x);
    lemma_token_indices_concat(seq![FEvent::Start(kind)] + x, seq![FEvent::Finish]);
    assert(Seq::<int>::empty() + index_run(i, j) + Seq::<int>::empty() =~= index_run(i, j));
}

/// A node carries the tokens of its body.
pub proof fn lemma_token_indices_wrap(kind: SyntaxKind, x: Seq<FEvent>)
    ensures
        token_indices(wrap(kind, x)) == token_indices(x),
{
    lemma_token_indices_one(FEvent::Start(kind));
    lemma_token_indices_one(FEvent::Finish);
    lemma_token_indices_concat(seq![FEvent::Start(kind)], x);
    lemma_token_indices_concat(seq![FEvent::Start(kind)] + x, seq![FEvent::Finish]);
    assert(Seq::<int>::empty() + token_indices(x) + Seq::<int>::empty() =~= token_indices(x));
}

/// A run before a node around a run that follows it.
proof fn lemma_covers_then_wrap(
    a: Seq<FEvent>,
    kind: SyntaxKind,
    x: Seq<FEvent>,
    i: int,
    j: int,
    k: int,
)
    requires
        covers(a, i, j),
        covers(x, j, k),
    ensures
        covers(a + wrap(kind, x), i, k),
{
    lemma_covers_wrap(kind, x, j, k);
    lemma_covers_concat(a, wrap(kind, x), i, j, k);
}

/// The token events of `toks[i..j]` hold exactly those tokens.
pub proof fn lemma_covers_token_events(toks: Seq<FTok>, i: int, j: int)
    requires
        0 <= i <= j <= toks.len(),
        toks.len() <= usize::MAX,
    ensures
        covers(token_events(toks, i, j), i, j),
    decreases j - i,
{
    if i == j {
        lemma_token_events_empty(toks, i);
        assert(token_indices(Seq::<FEvent>::empty()) =~= index_run(i, j));
    } else {
        lemma_covers_token_events(toks, i + 1, j);
        let x = FEvent::Token(i as usize, toks[i].0);
        lemma_token_indices_one(x);
        lemma_token_indices_concat(seq![x], token_events(toks, i + 1, j));
        assert(seq![i] + index_run(i + 1, j) =~= index_run(i, j));
    }
}

/// Flushing and bumping hold the tokens they step over; a bump steps over
/// the next significant token, when there is one.
proof fn lemma_steps_cover(toks: Seq<FTok>, i: int, kind: SyntaxKind)
    requires
        0 <= i <= toks.len(),
        toks.len() <= usize::MAX,
    ensures
        covers(flush(toks, i).0, i, flush(toks, i).1),
        flush(toks, i).1 <= toks.len(),
        next_sig(toks, i) < toks.len() ==> {
            &&& covers(bump(toks, i).0, i, bump(toks, i).1)
            &&& covers(bump_as(toks, i, kind).0, i, bump_as(toks, i, kind).1)
            &&& bump(toks, i).1 <= toks.len()
            &&& bump_as(toks, i, kind).1 == bump(toks, i).1
        },
{
    lemma_next_sig(toks, i);
    let j = next_sig(toks, i);
    lemma_covers_token_events(toks, i, j);
    if j < toks.len() {
        lemma_covers_token_events(toks, i, j + 1);
        let x = FEvent::Token(j as usize, kind);
        lemma_token_indices_one(x);
        lemma_token_indices_concat(token_events(toks, i, j), seq![x]);
        assert(index_run(i, j) + seq![j] =~= index_run(i, j + 1));
    }
}

/// A bump that lands within the stream stepped over a significant token.
proof fn lemma_bump_within(toks: Seq<FTok>, i: int)
    requires
        0 <= i <= toks.len(),
        bump(toks, i).1 <= toks.len(),
    ensures
        next_sig(toks, i) < toks.len(),
{
}

/// A next significant token means the cursor has not reached the end.
proof fn lemma_peek_some(toks: Seq<FTok>, i: int)
    requires
        0 <= i <= toks.len(),
        peek(toks, i) is Some,
    ensures
        next_sig(toks, i) < toks.len(),
{
}

/// A run of `;` holds the tokens it steps over.
proof fn lemma_semis_cover(toks: Seq<FTok>, i: int)
    requires
        0 <= i <= toks.len(),
        toks.len() <= usize::MAX,
        next_sig(toks, i) < toks.len(),
    ensures
        covers(semis(toks, i).0, i, semis(toks, i).1),
        semis(toks, i).1 <= toks.len(),
    decreases toks.len() - i,
{
    let (b, i1) = bump(toks, i);
    lemma_steps_cover(toks, i, SyntaxKind::SEMICOLON);
    if progressed(toks, i, i1) && peek(toks, i1) == Some(SyntaxKind::SEMICOLON) {
        lemma_semis_cover(toks, i1);
        lemma_covers_concat(b, semis(toks, i1).0, i, i1, semis(toks, i1).1);
    }
}

/// What rule `lvl` emits holds the tokens it consumes.
pub proof fn lemma_rule_covers(toks: Seq<FTok>, lvl: int, i: int)
    requires
        toks.len() <= usize::MAX,
    ensures
        rule(toks, lvl, i) matches Ok((e, j)) ==> 0 <= i <= j <= toks.len() && covers(e, i, j),
    decreases toks.len() - i, lvl + 3,
{
    if i < 0 || i > toks.len() || lvl < 0 || lvl > 13 {
    } else if lvl == 13 || lvl == 12 {
        let (t, i0) = flush(toks, i);
        lemma_steps_cover(toks, i, SyntaxKind::ROOT);
        if i <= i0 <= toks.len() {
            lemma_rule_covers(toks, lvl - 1, i0);
            match rule(toks, lvl - 1, i0) {
                Err(_) => {},
                Ok((e1, i1)) => if progressed(toks, i, i1) {
                    lemma_chain_covers(toks, lvl, i1, e1, i0);
                    match chain_rest(toks, lvl, i1, e1) {
                        Err(_) => {},
                        Ok((e2, i2)) => lemma_covers_concat(t, e2, i, i0, i2),
                    }
                },
            }
        }
    } else if is_right_level(lvl) {
        let (t, i0) = flush(toks, i);
        lemma_steps_cover(toks, i, SyntaxKind::ROOT);
        if i <= i0 <= toks.len() {
            lemma_rule_covers(toks, lvl - 1, i0);
            match rule(toks, lvl - 1, i0) {
                Err(_) => {},
                Ok((e1, i1)) => if at_level_op(toks, lvl, i1) {
                    let (b, i2) = bump(toks, i1);
                    lemma_peek_some(toks, i1);
                    lemma_steps_cover(toks, i1, SyntaxKind::ROOT);
                    if progressed(toks, i, i2) {
                        lemma_rule_covers(toks, lvl, i2);
                        match rule(toks, lvl, i2) {
                            Err(_) => {},
                            Ok((e2, i3)) => {
                                lemma_covers3(e1, b, e2, i0, i1, i2, i3);
                                lemma_covers_then_wrap(t, SyntaxKind::BIN_EXPR, e1 + b + e2, i, i0, i3);
                            },
                        }
                    }
                } else {
                    lemma_covers_concat(t, e1, i, i0, i1);
                },
            }
        }
    } else if is_left_level(lvl) {
        let (t, i0) = flush(toks, i);
        lemma_steps_cover(toks, i, SyntaxKind::ROOT);
        if i <= i0 <= toks.len() {
            lemma_rule_covers(toks, lvl - 1, i0);
            match rule(toks, lvl - 1, i0) {
                Err(_) => {},
                Ok((e1, i1)) => if progressed(toks, i, i1) {
                    lemma_left_covers(toks, lvl, i1, e1, i0);
                    match left_rest(toks, lvl, i1, e1) {
                        Err(_) => {},
                        Ok((e2, i2)) => lemma_covers_concat(t, e2, i, i0, i2),
                    }
                },
            }
        }
    } else if lvl == 2 {
        match peek(toks, i) {
            Some(k) => if is_prefix_op(k) {
                let (t, i0) = flush(toks, i);
                let (b, i1) = bump(toks, i0);
                lemma_steps_cover(toks, i, SyntaxKind::ROOT);
                lemma_peek_some(toks, i);
                lemma_next_sig(toks, i);
                lemma_steps_cover(toks, i0, SyntaxKind::ROOT);
                if progressed(toks, i, i1) {
                    lemma_rule_covers(toks, 2, i1);
                    match rule(toks, 2, i1) {
                        Err(_) => {},
                        Ok((e1, i2)) => {
                            lemma_covers_concat(b, e1, i0, i1, i2);
                            lemma_covers_then_wrap(t, SyntaxKind::PREFIX_EXPR, b + e1, i, i0, i2);
                        },
                    }
                }
            } else {
                lemma_rule_covers(toks, 1, i);
            },
            None => lemma_rule_covers(toks, 1, i),
        }
    } else {
        lemma_primary_covers(toks, i);
    }
}

/// What the links of a `,` or `;` chain emit, after a start that holds the
/// tokens from `s`, holds the tokens from `s` on.
proof fn lemma_chain_covers(toks: Seq<FTok>, lvl: int, i: int, acc: Seq<FEvent>, s: int)
    requires
        toks.len() <= usize::MAX,
        0 <= s <= i <= toks.len(),
        covers(acc, s, i),
    ensures
        chain_rest(toks, lvl, i, acc) matches Ok((e, j)) ==> s <= j <= toks.len() && covers(
            e,
            s,
            j,
        ),
    decreases toks.len() - i, 20int,
{
    let sep = if lvl == 13 {
        SyntaxKind::COMMA
    } else {
        SyntaxKind::SEMICOLON
    };
    if i < 0 || i > toks.len() || !(lvl == 12 || lvl == 13) {
    } else if peek(toks, i) == Some(sep) {
        let (b, i1) = if lvl == 13 {
            bump(toks, i)
        } else {
            semis(toks, i)
        };
        lemma_peek_some(toks, i);
        lemma_steps_cover(toks, i, SyntaxKind::ROOT);
        lemma_semis_cover(toks, i);
        if !progressed(toks, i, i1) {
        } else if at_closer_or_eof(toks, i1) || (lvl == 12 && peek(toks, i1) == Some(
            SyntaxKind::COMMA,
        )) {
            lemma_covers_concat(acc, b, s, i, i1);
        } else {
            lemma_rule_covers(toks, lvl - 1, i1);
            match rule(toks, lvl - 1, i1) {
                Err(_) => {},
                Ok((e, i2)) => if progressed(toks, i, i2) {
                    lemma_covers3(acc, b, e, s, i, i1, i2);
                    lemma_covers_wrap(SyntaxKind::BIN_EXPR, acc + b + e, s, i2);
                    lemma_chain_covers(toks, lvl, i2, wrap(SyntaxKind::BIN_EXPR, acc + b + e), s);
                },
            }
        }
    }
}

/// What the links of a left-associative level emit, after a start that
/// holds the tokens from `s`, holds the tokens from `s` on.
proof fn lemma_left_covers(toks: Seq<FTok>, lvl: int, i: int, acc: Seq<FEvent>, s: int)
    requires
        toks.len() <= usize::MAX,
        0 <= s <= i <= toks.len(),
        covers(acc, s, i),
    ensures
        left_rest(toks, lvl, i, acc) matches Ok((e, j)) ==> s <= j <= toks.len() && covers(
            e,
            s,
            j,
        ),
    decreases toks.len() - i, 20int,
{
    if i < 0 || i > toks.len() || lvl < 1 || lvl > 13 {
    } else if at_level_op(toks, lvl, i) {
        let (b, i1) = bump(toks, i);
        lemma_peek_some(toks, i);
        lemma_steps_cover(toks, i, SyntaxKind::ROOT);
        if progressed(toks, i, i1) {
            lemma_rule_covers(toks, lvl - 1, i1);
            match rule(toks, lvl - 1, i1) {
                Err(_) => {},
                Ok((e1, i2)) => if progressed(toks, i, i2) {
                    lemma_covers3(acc, b, e1, s, i, i1, i2);
                    lemma_covers_wrap(SyntaxKind::BIN_EXPR, acc + b + e1, s, i2);
                    lemma_left_covers(toks, lvl, i2, wrap(SyntaxKind::BIN_EXPR, acc + b + e1), s);
                },
            }
        }
    }
}

/// What `primary` emits holds the tokens it consumes.
proof fn lemma_primary_covers(toks: Seq<FTok>, i: int)
    requires
        toks.len() <= usize::MAX,
    ensures
        primary(toks, i) matches Ok((e, j)) ==> 0 <= i <= j <= toks.len() && covers(e, i, j),
    decreases toks.len() - i, 2int,
{
    if i < 0 || i > toks.len() {
    } else {
        match peek(toks, i) {
            Some(k) => {
                let (t, i0) = flush(toks, i);
                lemma_peek_some(toks, i);
                lemma_next_sig(toks, i);
                lemma_steps_cover(toks, i, SyntaxKind::ROOT);
                if k == SyntaxKind::NUMBER || k == SyntaxKind::STRING {
                    let (b, i1) = bump(toks, i0);
                    lemma_steps_cover(toks, i0, SyntaxKind::ROOT);
                    lemma_covers_then_wrap(t, SyntaxKind::LITERAL, b, i, i0, i1);
                } else if k == SyntaxKind::IDENT {
                    let j = next_sig(toks, i);
                    if peek2(toks, i) == Some(SyntaxKind::L_PAREN) && constructor_of(toks[j].1) is Some {
                        let node = constructor_of(toks[j].1)->Some_0;
                        let (b, i1) = bump_as(toks, i0, constructor_token(node));
                        lemma_steps_cover(toks, i0, constructor_token(node));
                        if progressed(toks, i, i1) {
                            lemma_delimited_tail_covers(toks, i1, SyntaxKind::R_PAREN);
                            match delimited_tail(toks, i1, SyntaxKind::R_PAREN) {
                                Err(_) => {},
                                Ok((d, i2)) => {
                                    lemma_covers_concat(b, d, i0, i1, i2);
                                    lemma_covers_then_wrap(t, node, b + d, i, i0, i2);
                                },
                            }
                        }
                    } else {
                        let (b, i1) = bump(toks, i0);
                        lemma_steps_cover(toks, i0, SyntaxKind::ROOT);
                        lemma_covers_wrap(SyntaxKind::NAME_REF, b, i0, i1);
                        if peek(toks, i1) == Some(SyntaxKind::L_PAREN) {
                            if progressed(toks, i, i1) {
                                lemma_delimited_covers(
                                    toks,
                                    i1,
                                    SyntaxKind::ARG_LIST,
                                    SyntaxKind::R_PAREN,
                                );
                                match delimited(toks, i1, SyntaxKind::ARG_LIST, SyntaxKind::R_PAREN) {
                                    Err(_) => {},
                                    Ok((d, i2)) => {
                                        lemma_covers_concat(wrap(SyntaxKind::NAME_REF, b), d, i0, i1, i2);
                                        lemma_covers_then_wrap(
                                            t,
                                            SyntaxKind::CALL_EXPR,
                                            wrap(SyntaxKind::NAME_REF, b) + d,
                                            i,
                                            i0,
                                            i2,
                                        );
                                    },
                                }
                            }
                        } else {
                            lemma_covers_then_wrap(t, SyntaxKind::NAME_REF, b, i, i0, i1);
                        }
                    }
                } else if k == SyntaxKind::L_PAREN {
                    let (b, i1) = bump(toks, i0);
                    lemma_steps_cover(toks, i0, SyntaxKind::ROOT);
                    if progressed(toks, i, i1) {
                        lemma_rule_covers(toks, 13, i1);
                        match rule(toks, 13, i1) {
                            Err(_) => {},
                            Ok((e1, i2)) => if peek(toks, i2) == Some(SyntaxKind::R_PAREN) {
                                let (b2, i3) = bump(toks, i2);
                                lemma_peek_some(toks, i2);
                                lemma_steps_cover(toks, i2, SyntaxKind::ROOT);
                                lemma_covers3(b, e1, b2, i0, i1, i2, i3);
                                lemma_covers_then_wrap(t, SyntaxKind::PAREN_EXPR, b + e1 + b2, i, i0, i3);
                            },
                        }
                    }
                } else if k == SyntaxKind::L_BRACK {
                    lemma_delimited_covers(toks, i, SyntaxKind::LIST_EXPR, SyntaxKind::R_BRACK);
                } else if k == SyntaxKind::L_BRACE {
                    lemma_delimited_covers(toks, i, SyntaxKind::MAP_EXPR, SyntaxKind::R_BRACE);
                }
            },
            None => {},
        }
    }
}

/// What `delimited` emits holds the tokens it consumes.
proof fn lemma_delimited_covers(toks: Seq<FTok>, i: int, node: SyntaxKind, close: SyntaxKind)
    requires
        toks.len() <= usize::MAX,
        0 <= i <= toks.len(),
    ensures
        delimited(toks, i, node, close) matches Ok((e, j)) ==> i <= j <= toks.len() && covers(
            e,
            i,
            j,
        ),
    decreases toks.len() - i, 1int,
{
    let (t, i0) = flush(toks, i);
    lemma_steps_cover(toks, i, SyntaxKind::ROOT);
    if i <= i0 <= toks.len() {
        lemma_delimited_tail_covers(toks, i0, close);
        match delimited_tail(toks, i0, close) {
            Err(_) => {},
            Ok((d, i1)) => lemma_covers_then_wrap(t, node, d, i, i0, i1),
        }
    }
}

/// What `delimited_tail` emits holds the tokens it consumes.
proof fn lemma_delimited_tail_covers(toks: Seq<FTok>, i: int, close: SyntaxKind)
    requires
        toks.len() <= usize::MAX,
        0 <= i <= toks.len(),
    ensures
        delimited_tail(toks, i, close) matches Ok((e, j)) ==> i <= j <= toks.len() && covers(
            e,
            i,
            j,
        ),
    decreases toks.len() - i, 0int,
{
    let (b, i1) = bump(toks, i);
    if progressed(toks, i, i1) {
        lemma_bump_within(toks, i);
        lemma_steps_cover(toks, i, SyntaxKind::ROOT);
        lemma_args_covers(toks, i1, close);
        match args(toks, i1, close) {
            Err(_) => {},
            Ok((a, i2)) => if peek(toks, i2) == Some(close) {
                let (b2, i3) = bump(toks, i2);
                lemma_peek_some(toks, i2);
                lemma_steps_cover(toks, i2, SyntaxKind::ROOT);
                lemma_covers3(b, a, b2, i, i1, i2, i3);
            },
        }
    }
}

/// What an argument list emits holds the tokens it consumes.
proof fn lemma_args_covers(toks: Seq<FTok>, i: int, close: SyntaxKind)
    requires
        toks.len() <= usize::MAX,
    ensures
        args(toks, i, close) matches Ok((e, j)) ==> 0 <= i <= j <= toks.len() && covers(e, i, j),
    decreases toks.len() - i, 20int,
{
    if i < 0 || i > toks.len() {
    } else if at_closer_or_eof(toks, i) {
        assert(token_indices(Seq::<FEvent>::empty()) =~= index_run(i, i));
    } else {
        if peek(toks, i) == Some(SyntaxKind::COMMA) {
            assert(token_indices(Seq::<FEvent>::empty()) =~= index_run(i, i));
        } else {
            lemma_rule_covers(toks, 12, i);
        }
        let item: crate::cst_grammar::FRes = if peek(toks, i) == Some(SyntaxKind::COMMA) {
            Ok((seq![], i))
        } else if close == SyntaxKind::R_BRACE && crate::cst_grammar::pair_then_semi(toks, i) is Some {
            Err((crate::cst_grammar::pair_then_semi(toks, i)->Some_0, seq!["`,`"@, "`}`"@]))
        } else {
            rule(toks, 12, i)
        };
        match item {
            Err(_) => {},
            Ok((e1, i1)) => if !(i <= i1 <= toks.len()) {
            } else if peek(toks, i1) == Some(SyntaxKind::COMMA) {
                let (b, i2) = bump(toks, i1);
                lemma_peek_some(toks, i1);
                lemma_steps_cover(toks, i1, SyntaxKind::ROOT);
                if progressed(toks, i, i2) {
                    lemma_args_covers(toks, i2, close);
                    match args(toks, i2, close) {
                        Err(_) => {},
                        Ok((a, i3)) => lemma_covers3(e1, b, a, i, i1, i2, i3),
                    }
                }
            },
        }
    }
}

/// A successful parse holds the whole token stream: its events carry the
/// token indices `0, 1, …, len - 1`, each once and in order.
pub proof fn lemma_root_covers(toks: Seq<FTok>)
    requires
        toks.len() <= usize::MAX,
    ensures
        root(toks) matches Ok((e, _)) ==> covers(e, 0, toks.len() as int),
{
    lemma_rule_covers(toks, 13, 0);
    match rule(toks, 13, 0) {
        Err(_) => {},
        Ok((e1, i1)) => {
            let (f, i2) = flush(toks, i1);
            lemma_steps_cover(toks, i1, SyntaxKind::ROOT);
            lemma_next_sig(toks, i1);
            if peek(toks, i2).is_none() {
                lemma_next_sig(toks, i2);
                assert(i2 == toks.len());
                lemma_covers_concat(e1, f, 0, i1, i2);
                lemma_covers_wrap(SyntaxKind::ROOT, e1 + f, 0, i2);
            }
        },
    }
}

} // verus!
