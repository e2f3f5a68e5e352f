//! The front end's syntax tree, rebuilt from the parser's preorder events:
//! nodes of a [`SyntaxKind`] whose children are nodes and tokens, a token
//! named by its index in the token stream and the kind it was emitted as.

use vstd::prelude::*;

use crate::cst_grammar::{
    FEvent, FTok, args, at_closer_or_eof, at_level_op, bump, bump_as, chain_rest,
    constructor_of, constructor_token, delimited, delimited_tail, flush, is_left_level,
    is_prefix_op, is_right_level, left_rest, next_sig, peek, peek2, primary, progressed, root,
    rule, semis, token_events, wrap,
};
use crate::syntax::SyntaxKind;

verus! {

/// A child of a front-end node: a node or a token (its index in the token
/// stream and the kind it was emitted as).
#[derive(Debug)]
pub enum FElem {
    Node(FNode),
    Token(usize, SyntaxKind),
}

/// A front-end syntax node: its kind and its children in source order.
#[derive(Debug)]
pub struct FNode {
    pub kind: SyntaxKind,
    pub children: Vec<FElem>,
}

/// The preorder events of a sequence of sibling elements.
pub open spec fn elems_events(s: Seq<FElem>) -> Seq<FEvent>
    decreases s,
{
    if s.len() == 0 {
        seq![]
    } else {
        let rest = elems_events(s.subrange(1, s.len() as int));
        match s[0] {
            FElem::Token(i, k) => seq![FEvent::Token(i, k)] + rest,
            FElem::Node(n) => seq![FEvent::Start(n.kind)] + elems_events(n.children@) + seq![
                FEvent::Finish,
            ] + rest,
        }
    }
}

/// The preorder events of one element.
pub open spec fn elem_events(e: FElem) -> Seq<FEvent> {
    match e {
        FElem::Token(i, k) => seq![FEvent::Token(i, k)],
        FElem::Node(n) => seq![FEvent::Start(n.kind)] + elems_events(n.children@) + seq![
            FEvent::Finish,
        ],
    }
}

/// The events of a concatenation are the concatenated events.
pub proof fn lemma_elems_events_concat(a: Seq<FElem>, b: Seq<FElem>)
    ensures
        elems_events(a + b) == elems_events(a) + elems_events(b),
    decreases a.len(),
{
    if a.len() == 0 {
        assert(a + b =~= b);
    } else {
        assert((a + b).subrange(1, (a + b).len() as int) =~= a.subrange(1, a.len() as int) + b);
        lemma_elems_events_concat(a.subrange(1, a.len() as int), b);
    }
}

/// Pushing an element appends its events.
pub proof fn lemma_elems_events_push(a: Seq<FElem>, e: FElem)
    ensures
        elems_events(a.push(e)) == elems_events(a) + elem_events(e),
{
    assert(a.push(e) =~= a + seq![e]);
    lemma_elems_events_concat(a, seq![e]);
    assert(seq![e].subrange(1, 1) =~= Seq::<FElem>::empty());
    assert(elems_events(Seq::<FElem>::empty()) =~= Seq::<FEvent>::empty());
    assert(elems_events(seq![e]) =~= elem_events(e));
}

/// How many nodes an event sequence leaves open: starts minus finishes.
pub open spec fn fdepth(e: Seq<FEvent>) -> int
    decreases e.len(),
{
    if e.len() == 0 {
        0
    } else {
        fdepth(e.drop_last()) + match e.last() {
            FEvent::Start(_) => 1int,
            FEvent::Finish => -1int,
            FEvent::Token(_, _) => 0int,
        }
    }
}

/// Every node an event sequence opens it also closes, and it never closes
/// one it did not open.
pub open spec fn fbalanced(e: Seq<FEvent>) -> bool {
    &&& fdepth(e) == 0
    &&& forall|i: int| 0 <= i <= e.len() ==> fdepth(#[trigger] e.take(i)) >= 0
}

/// The depth of a concatenation is the sum of the depths.
pub proof fn lemma_fdepth_concat(a: Seq<FEvent>, b: Seq<FEvent>)
    ensures
        fdepth(a + b) == fdepth(a) + fdepth(b),
    decreases b.len(),
{
    if b.len() == 0 {
        assert(a + b =~= a);
    } else {
        assert((a + b).drop_last() =~= a + b.drop_last());
        lemma_fdepth_concat(a, b.drop_last());
    }
}

/// Balanced sequences concatenate to a balanced sequence.
pub proof fn lemma_fbalanced_concat(a: Seq<FEvent>, b: Seq<FEvent>)
    requires
        fbalanced(a),
        fbalanced(b),
    ensures
        fbalanced(a + b),
{
    lemma_fdepth_concat(a, b);
    assert forall|i: int| 0 <= i <= (a + b).len() implies fdepth(#[trigger] (a + b).take(i))
        >= 0 by {
        if i <= a.len() {
            assert((a + b).take(i) =~= a.take(i));
        } else {
            assert((a + b).take(i) =~= a + b.take(i - a.len()));
            lemma_fdepth_concat(a, b.take(i - a.len()));
            assert(a.take(a.len() as int) =~= a);
        }
    }
}

/// A balanced sequence wrapped in a node is balanced.
pub proof fn lemma_fbalanced_wrap(k: SyntaxKind, x: Seq<FEvent>)
    requires
        fbalanced(x),
    ensures
        fbalanced(seq![FEvent::Start(k)] + x + seq![FEvent::Finish]),
{
    let w = seq![FEvent::Start(k)] + x + seq![FEvent::Finish];
    assert(fdepth(Seq::<FEvent>::empty()) == 0);
    assert(seq![FEvent::Start(k)].drop_last() =~= Seq::<FEvent>::empty());
    assert(fdepth(seq![FEvent::Start(k)]) == 1);
    assert(seq![FEvent::Finish].drop_last() =~= Seq::<FEvent>::empty());
    assert(fdepth(seq![FEvent::Finish]) == -1);
    lemma_fdepth_concat(seq![FEvent::Start(k)], x);
    lemma_fdepth_concat(seq![FEvent::Start(k)] + x, seq![FEvent::Finish]);
    assert forall|i: int| 0 <= i <= w.len() implies fdepth(#[trigger] w.take(i)) >= 0 by {
        if i == 0 {
            assert(w.take(i) =~= Seq::<FEvent>::empty());
        } else if i <= x.len() + 1 {
            assert(w.take(i) =~= seq![FEvent::Start(k)] + x.take(i - 1));
            lemma_fdepth_concat(seq![FEvent::Start(k)], x.take(i - 1));
        } else {
            assert(w.take(i) =~= w);
        }
    }
}

/// A sequence of tokens alone is balanced.
pub proof fn lemma_fbalanced_tokens(e: Seq<FEvent>)
    requires
        forall|i: int| 0 <= i < e.len() ==> (#[trigger] e[i]) is Token,
    ensures
        fbalanced(e),
        forall|i: int| 0 <= i <= e.len() ==> fdepth(#[trigger] e.take(i)) == 0,
    decreases e.len(),
{
    if e.len() > 0 {
        lemma_fbalanced_tokens(e.drop_last());
        assert forall|i: int| 0 <= i <= e.len() implies fdepth(#[trigger] e.take(i)) == 0 by {
            if i < e.len() {
                assert(e.take(i) =~= e.drop_last().take(i));
            } else {
                assert(e.take(i) =~= e);
                assert(e.drop_last().take(e.len() - 1) =~= e.drop_last());
            }
        }
    } else {
        assert(e.take(0) =~= e);
    }
}

/// The events of an open stack of levels: the outermost level's children,
/// then for each deeper level its `Start` and its children so far.
pub open spec fn stack_events(f: Seq<(SyntaxKind, Vec<FElem>)>) -> Seq<FEvent>
    decreases f.len(),
{
    if f.len() == 0 {
        seq![]
    } else if f.len() == 1 {
        elems_events(f[0].1@)
    } else {
        stack_events(f.drop_last()) + seq![FEvent::Start(f.last().0)] + elems_events(
            f.last().1@,
        )
    }
}

/// The events of an open stack before its innermost level's children.
pub open spec fn stack_prefix(f: Seq<(SyntaxKind, Vec<FElem>)>) -> Seq<FEvent> {
    if f.len() <= 1 {
        seq![]
    } else {
        stack_events(f.drop_last()) + seq![FEvent::Start(f.last().0)]
    }
}

/// The events of a non-empty stack: its prefix, then the innermost
/// level's children.
proof fn lemma_stack_last(f: Seq<(SyntaxKind, Vec<FElem>)>)
    requires
        f.len() >= 1,
    ensures
        stack_events(f) == stack_prefix(f) + elems_events(f.last().1@),
{
    if f.len() == 1 {
        assert(f.last() == f[0]);
        assert(stack_prefix(f) + elems_events(f.last().1@) =~= elems_events(f[0].1@));
    }
}

/// A token added to the innermost level adds its event.
proof fn lemma_step_token(
    f0: Seq<(SyntaxKind, Vec<FElem>)>,
    f1: Seq<(SyntaxKind, Vec<FElem>)>,
    x: usize,
    k: SyntaxKind,
)
    requires
        f0.len() >= 1,
        f1.len() == f0.len(),
        f1.drop_last() == f0.drop_last(),
        f1.last().0 == f0.last().0,
        f1.last().1@ == f0.last().1@.push(FElem::Token(x, k)),
    ensures
        stack_events(f1) == stack_events(f0).push(FEvent::Token(x, k)),
{
    lemma_stack_last(f0);
    lemma_stack_last(f1);
    lemma_elems_events_push(f0.last().1@, FElem::Token(x, k));
    assert(stack_prefix(f1) == stack_prefix(f0));
    assert(stack_events(f1) =~= stack_events(f0).push(FEvent::Token(x, k)));
}

/// Closing the innermost level adds its node to the level around it.
proof fn lemma_step_finish(
    f0: Seq<(SyntaxKind, Vec<FElem>)>,
    f1: Seq<(SyntaxKind, Vec<FElem>)>,
    k: SyntaxKind,
    v: Vec<FElem>,
)
    requires
        f0.len() >= 2,
        f0.last() == (k, v),
        f1.len() == f0.len() - 1,
        f1.drop_last() == f0.drop_last().drop_last(),
        f1.last().0 == f0.drop_last().last().0,
        f1.last().1@ == f0.drop_last().last().1@.push(
            FElem::Node(FNode { kind: k, children: v }),
        ),
    ensures
        stack_events(f1) == stack_events(f0).push(FEvent::Finish),
{
    let g = f0.drop_last();
    let node = FElem::Node(FNode { kind: k, children: v });
    lemma_stack_last(g);
    lemma_stack_last(f1);
    lemma_elems_events_push(g.last().1@, node);
    assert(stack_prefix(f1) == stack_prefix(g));
    assert(stack_events(f0) == stack_events(g) + seq![FEvent::Start(k)] + elems_events(v@));
    assert(stack_events(f1) =~= stack_events(f0).push(FEvent::Finish));
}

/// Rebuilds the forest whose preorder events are `ev`; fails exactly when
/// `ev` is not balanced.
pub fn build_forest(ev: &Vec<FEvent>) -> (r: Option<Vec<FElem>>)
    ensures
        r matches Some(t) ==> elems_events(t@) == ev@,
        fbalanced(ev@) ==> r is Some,
{
    let mut frames: Vec<(SyntaxKind, Vec<FElem>)> = Vec::new();
    frames.push((SyntaxKind::ROOT, Vec::new()));
    let mut i: usize = 0;
    proof {
        assert(ev@.take(0) =~= Seq::<FEvent>::empty());
        assert(elems_events(Seq::<FElem>::empty()) =~= Seq::<FEvent>::empty());
    }
    while i < ev.len()
        invariant
            i <= ev.len(),
            frames.len() >= 1,
            stack_events(frames@) == ev@.take(i as int),
            frames.len() == fdepth(ev@.take(i as int)) + 1,
        decreases ev.len() - i,
    {
        let ghost pre = ev@.take(i as int);
        proof {
            assert(ev@.take(i + 1) =~= pre.push(ev@[i as int]));
            assert(ev@.take(i + 1).drop_last() =~= pre);
        }
        match ev[i] {
            FEvent::Token(x, k) => {
                let ghost f0 = frames@;
                let (lk, mut v) = frames.pop().unwrap();
                v.push(FElem::Token(x, k));
                frames.push((lk, v));
                proof {
                    assert(frames@.drop_last() =~= f0.drop_last());
                    lemma_step_token(f0, frames@, x, k);
                }
            },
            FEvent::Start(k) => {
                let ghost f0 = frames@;
                frames.push((k, Vec::new()));
                proof {
                    assert(frames@.drop_last() =~= f0);
                    assert(elems_events(Seq::<FElem>::empty()) =~= Seq::<FEvent>::empty());
                    assert(stack_events(frames@) =~= stack_events(f0).push(FEvent::Start(k)));
                }
            },
            FEvent::Finish => {
                if frames.len() < 2 {
                    return None;
                }
                let ghost f0 = frames@;
                let (k, v) = frames.pop().unwrap();
                let (pk, mut pv) = frames.pop().unwrap();
                let node = FElem::Node(FNode { kind: k, children: v });
                pv.push(node);
                frames.push((pk, pv));
                proof {
                    assert(frames@.drop_last() =~= f0.drop_last().drop_last());
                    lemma_step_finish(f0, frames@, k, v);
                }
            },
        }
        i = i + 1;
    }
    proof {
        assert(ev@.take(ev.len() as int) =~= ev@);
    }
    if frames.len() != 1 {
        return None;
    }
    let (_, top) = frames.pop().unwrap();
    Some(top)
}


/// Every event of `e` is a token.
pub open spec fn all_tokens(e: Seq<FEvent>) -> bool {
    forall|k: int| 0 <= k < e.len() ==> (#[trigger] e[k]) is Token
}

/// A run of token events holds tokens only.
proof fn lemma_token_events_all(toks: Seq<FTok>, i: int, j: int)
    ensures
        all_tokens(token_events(toks, i, j)),
    decreases j - i,
{
    if 0 <= i < j && j <= toks.len() {
        lemma_token_events_all(toks, i + 1, j);
        let r = token_events(toks, i + 1, j);
        assert forall|k: int| 0 <= k < token_events(toks, i, j).len() implies (
        #[trigger] token_events(toks, i, j)[k]) is Token by {
            if k > 0 {
                assert(token_events(toks, i, j)[k] == r[k - 1]);
            }
        }
    }
}

/// Tokens concatenate to tokens.
proof fn lemma_all_tokens_concat(a: Seq<FEvent>, b: Seq<FEvent>)
    requires
        all_tokens(a),
        all_tokens(b),
    ensures
        all_tokens(a + b),
{
    assert forall|k: int| 0 <= k < (a + b).len() implies (#[trigger] (a + b)[k]) is Token by {
        if k >= a.len() {
            assert((a + b)[k] == b[k - a.len()]);
        }
    }
}

/// Flushing and bumping emit tokens only.
proof fn lemma_steps_tokens(toks: Seq<FTok>, i: int, kind: SyntaxKind)
    ensures
        all_tokens(flush(toks, i).0),
        all_tokens(bump(toks, i).0),
        all_tokens(bump_as(toks, i, kind).0),
        fbalanced(flush(toks, i).0),
        fbalanced(bump(toks, i).0),
        fbalanced(bump_as(toks, i, kind).0),
{
    let j = next_sig(toks, i);
    lemma_token_events_all(toks, i, j);
    lemma_token_events_all(toks, i, j + 1);
    let x = seq![FEvent::Token(j as usize, kind)];
    assert(all_tokens(x));
    lemma_all_tokens_concat(token_events(toks, i, j), x);
    lemma_fbalanced_tokens(flush(toks, i).0);
    lemma_fbalanced_tokens(bump(toks, i).0);
    lemma_fbalanced_tokens(bump_as(toks, i, kind).0);
}

/// A run of `;` emits tokens only.
proof fn lemma_semis_tokens(toks: Seq<FTok>, i: int)
    ensures
        all_tokens(semis(toks, i).0),
        fbalanced(semis(toks, i).0),
    decreases toks.len() - i,
{
    let (b, i1) = bump(toks, i);
    lemma_steps_tokens(toks, i, SyntaxKind::SEMICOLON);
    if progressed(toks, i, i1) && peek(toks, i1) == Some(SyntaxKind::SEMICOLON) {
        lemma_semis_tokens(toks, i1);
        lemma_all_tokens_concat(b, semis(toks, i1).0);
    }
    lemma_fbalanced_tokens(semis(toks, i).0);
}

/// Three balanced runs in a row are balanced.
proof fn lemma_fbalanced3(a: Seq<FEvent>, b: Seq<FEvent>, c: Seq<FEvent>)
    requires
        fbalanced(a),
        fbalanced(b),
        fbalanced(c),
    ensures
        fbalanced(a + b + c),
{
    lemma_fbalanced_concat(a, b);
    lemma_fbalanced_concat(a + b, c);
}

/// A balanced run, then a node of `kind` around a balanced body.
proof fn lemma_fbalanced_then_wrap(a: Seq<FEvent>, kind: SyntaxKind, x: Seq<FEvent>)
    requires
        fbalanced(a),
        fbalanced(x),
    ensures
        fbalanced(a + wrap(kind, x)),
{
    lemma_fbalanced_wrap(kind, x);
    lemma_fbalanced_concat(a, wrap(kind, x));
}

/// What rule `lvl` emits is balanced.
proof fn lemma_rule_balanced(toks: Seq<FTok>, lvl: int, i: int)
    ensures
        rule(toks, lvl, i) matches Ok((e, _)) ==> fbalanced(e),
    decreases toks.len() - i, lvl + 3,
{
    if i < 0 || i > toks.len() || lvl < 0 || lvl > 13 {
    } else if lvl == 13 || lvl == 12 {
        let (t, i0) = flush(toks, i);
        lemma_steps_tokens(toks, i, SyntaxKind::ROOT);
        if i <= i0 <= toks.len() {
            lemma_rule_balanced(toks, lvl - 1, i0);
            match rule(toks, lvl - 1, i0) {
                Err(_) => {},
                Ok((e1, i1)) => if progressed(toks, i, i1) {
                    lemma_chain_balanced(toks, lvl, i1, e1);
                    match chain_rest(toks, lvl, i1, e1) {
                        Err(_) => {},
                        Ok((e2, _)) => lemma_fbalanced_concat(t, e2),
                    }
                },
            }
        }
    } else if is_right_level(lvl) {
        let (t, i0) = flush(toks, i);
        lemma_steps_tokens(toks, i, SyntaxKind::ROOT);
        if i <= i0 <= toks.len() {
            lemma_rule_balanced(toks, lvl - 1, i0);
            match rule(toks, lvl - 1, i0) {
                Err(_) => {},
                Ok((e1, i1)) => if at_level_op(toks, lvl, i1) {
                    let (b, i2) = bump(toks, i1);
                    lemma_steps_tokens(toks, i1, SyntaxKind::ROOT);
                    if progressed(toks, i, i2) {
                        lemma_rule_balanced(toks, lvl, i2);
                        match rule(toks, lvl, i2) {
                            Err(_) => {},
                            Ok((e2, _)) => {
                                lemma_fbalanced3(e1, b, e2);
                                lemma_fbalanced_then_wrap(t, SyntaxKind::BIN_EXPR, e1 + b + e2);
                            },
                        }
                    }
                } else {
                    lemma_fbalanced_concat(t, e1);
                },
            }
        }
    } else if is_left_level(lvl) {
        let (t, i0) = flush(toks, i);
        lemma_steps_tokens(toks, i, SyntaxKind::ROOT);
        if i <= i0 <= toks.len() {
            lemma_rule_balanced(toks, lvl - 1, i0);
            match rule(toks, lvl - 1, i0) {
                Err(_) => {},
                Ok((e1, i1)) => if progressed(toks, i, i1) {
                    lemma_left_balanced(toks, lvl, i1, e1);
                    match left_rest(toks, lvl, i1, e1) {
                        Err(_) => {},
                        Ok((e2, _)) => lemma_fbalanced_concat(t, e2),
                    }
                },
            }
        }
    } else if lvl == 2 {
        match peek(toks, i) {
            Some(k) => if is_prefix_op(k) {
                let (t, i0) = flush(toks, i);
                let (b, i1) = bump(toks, i0);
                lemma_steps_tokens(toks, i, SyntaxKind::ROOT);
                lemma_steps_tokens(toks, i0, SyntaxKind::ROOT);
                if progressed(toks, i, i1) {
                    lemma_rule_balanced(toks, 2, i1);
                    match rule(toks, 2, i1) {
                        Err(_) => {},
                        Ok((e1, _)) => {
                            lemma_fbalanced_concat(b, e1);
                            lemma_fbalanced_then_wrap(t, SyntaxKind::PREFIX_EXPR, b + e1);
                        },
                    }
                }
            } else {
                lemma_rule_balanced(toks, 1, i);
            },
            None => lemma_rule_balanced(toks, 1, i),
        }
    } else {
        lemma_primary_balanced(toks, i);
    }
}

/// What the links of a `,` or `;` chain emit, after a balanced start, is
/// balanced.
proof fn lemma_chain_balanced(toks: Seq<FTok>, lvl: int, i: int, acc: Seq<FEvent>)
    requires
        fbalanced(acc),
    ensures
        chain_rest(toks, lvl, i, acc) matches Ok((e, _)) ==> fbalanced(e),
    decreases toks.len() - i, 20int,
{
    let sep = if lvl == 13 {
        SyntaxKind::COMMA
    } else {
        SyntaxKind::SEMICOLON
    };
    if i < 0 || i > toks.len() || !(lvl == 12 || lvl == 13) {
    } else if peek(toks, i) == Some(sep) {
        let (b, i1) = if lvl == 13 {
            bump(toks, i)
        } else {
            semis(toks, i)
        };
        lemma_steps_tokens(toks, i, SyntaxKind::ROOT);
        lemma_semis_tokens(toks, i);
        if !progressed(toks, i, i1) {
        } else if at_closer_or_eof(toks, i1) || (lvl == 12 && peek(toks, i1) == Some(
            SyntaxKind::COMMA,
        )) {
            lemma_fbalanced_concat(acc, b);
        } else {
            lemma_rule_balanced(toks, lvl - 1, i1);
            match rule(toks, lvl - 1, i1) {
                Err(_) => {},
                Ok((e, i2)) => if progressed(toks, i, i2) {
                    lemma_fbalanced3(acc, b, e);
                    lemma_fbalanced_wrap(SyntaxKind::BIN_EXPR, acc + b + e);
                    lemma_chain_balanced(toks, lvl, i2, wrap(SyntaxKind::BIN_EXPR, acc + b + e));
                },
            }
        }
    }
}

/// What the links of a left-associative level emit, after a balanced start,
/// is balanced.
proof fn lemma_left_balanced(toks: Seq<FTok>, lvl: int, i: int, acc: Seq<FEvent>)
    requires
        fbalanced(acc),
    ensures
        left_rest(toks, lvl, i, acc) matches Ok((e, _)) ==> fbalanced(e),
    decreases toks.len() - i, 20int,
{
    if i < 0 || i > toks.len() || lvl < 1 || lvl > 13 {
    } else if at_level_op(toks, lvl, i) {
        let (b, i1) = bump(toks, i);
        lemma_steps_tokens(toks, i, SyntaxKind::ROOT);
        if progressed(toks, i, i1) {
            lemma_rule_balanced(toks, lvl - 1, i1);
            match rule(toks, lvl - 1, i1) {
                Err(_) => {},
                Ok((e1, i2)) => if progressed(toks, i, i2) {
                    lemma_fbalanced3(acc, b, e1);
                    lemma_fbalanced_wrap(SyntaxKind::BIN_EXPR, acc + b + e1);
                    lemma_left_balanced(toks, lvl, i2, wrap(SyntaxKind::BIN_EXPR, acc + b + e1));
                },
            }
        }
    }
}

/// What `primary` emits is balanced.
proof fn lemma_primary_balanced(toks: Seq<FTok>, i: int)
    ensures
        primary(toks, i) matches Ok((e, _)) ==> fbalanced(e),
    decreases toks.len() - i, 2int,
{
    if i < 0 || i > toks.len() {
    } else {
        match peek(toks, i) {
            Some(k) => {
                let (t, i0) = flush(toks, i);
                lemma_steps_tokens(toks, i, SyntaxKind::ROOT);
                if k == SyntaxKind::NUMBER || k == SyntaxKind::STRING {
                    let (b, i1) = bump(toks, i0);
                    lemma_steps_tokens(toks, i0, SyntaxKind::ROOT);
                    lemma_fbalanced_then_wrap(t, SyntaxKind::LITERAL, b);
                } else if k == SyntaxKind::IDENT {
                    let j = next_sig(toks, i);
                    if peek2(toks, i) == Some(SyntaxKind::L_PAREN) && constructor_of(toks[j].1) is Some {
                        let node = constructor_of(toks[j].1)->Some_0;
                        let (b, i1) = bump_as(toks, i0, constructor_token(node));
                        lemma_steps_tokens(toks, i0, constructor_token(node));
                        if progressed(toks, i, i1) {
                            lemma_delimited_tail_balanced(toks, i1, SyntaxKind::R_PAREN);
                            match delimited_tail(toks, i1, SyntaxKind::R_PAREN) {
                                Err(_) => {},
                                Ok((d, _)) => {
                                    lemma_fbalanced_concat(b, d);
                                    lemma_fbalanced_then_wrap(t, node, b + d);
                                },
                            }
                        }
                    } else {
                        let (b, i1) = bump(toks, i0);
                        lemma_steps_tokens(toks, i0, SyntaxKind::ROOT);
                        lemma_fbalanced_wrap(SyntaxKind::NAME_REF, b);
                        if peek(toks, i1) == Some(SyntaxKind::L_PAREN) {
                            if progressed(toks, i, i1) {
                                lemma_delimited_balanced(
                                    toks,
                                    i1,
                                    SyntaxKind::ARG_LIST,
                                    SyntaxKind::R_PAREN,
                                );
                                match delimited(toks, i1, SyntaxKind::ARG_LIST, SyntaxKind::R_PAREN) {
                                    Err(_) => {},
                                    Ok((d, _)) => {
                                        lemma_fbalanced_concat(wrap(SyntaxKind::NAME_REF, b), d);
                                        lemma_fbalanced_then_wrap(
                                            t,
                                            SyntaxKind::CALL_EXPR,
                                            wrap(SyntaxKind::NAME_REF, b) + d,
                                        );
                                    },
                                }
                            }
                        } else {
                            lemma_fbalanced_then_wrap(t, SyntaxKind::NAME_REF, b);
                        }
                    }
                } else if k == SyntaxKind::L_PAREN {
                    let (b, i1) = bump(toks, i0);
                    lemma_steps_tokens(toks, i0, SyntaxKind::ROOT);
                    if progressed(toks, i, i1) {
                        lemma_rule_balanced(toks, 13, i1);
                        match rule(toks, 13, i1) {
                            Err(_) => {},
                            Ok((e1, i2)) => if peek(toks, i2) == Some(SyntaxKind::R_PAREN) {
                                let (b2, _) = bump(toks, i2);
                                lemma_steps_tokens(toks, i2, SyntaxKind::ROOT);
                                lemma_fbalanced3(b, e1, b2);
                                lemma_fbalanced_then_wrap(t, SyntaxKind::PAREN_EXPR, b + e1 + b2);
                            },
                        }
                    }
                } else if k == SyntaxKind::L_BRACK {
                    lemma_delimited_balanced(toks, i, SyntaxKind::LIST_EXPR, SyntaxKind::R_BRACK);
                } else if k == SyntaxKind::L_BRACE {
                    lemma_delimited_balanced(toks, i, SyntaxKind::MAP_EXPR, SyntaxKind::R_BRACE);
                }
            },
            None => {},
        }
    }
}

/// What `delimited` emits is balanced.
proof fn lemma_delimited_balanced(toks: Seq<FTok>, i: int, node: SyntaxKind, close: SyntaxKind)
    ensures
        delimited(toks, i, node, close) matches Ok((e, _)) ==> fbalanced(e),
    decreases toks.len() - i, 1int,
{
    let (t, i0) = flush(toks, i);
    lemma_steps_tokens(toks, i, SyntaxKind::ROOT);
    if i <= i0 <= toks.len() {
        lemma_delimited_tail_balanced(toks, i0, close);
        match delimited_tail(toks, i0, close) {
            Err(_) => {},
            Ok((d, _)) => lemma_fbalanced_then_wrap(t, node, d),
        }
    }
}

/// What `delimited_tail` emits is balanced.
proof fn lemma_delimited_tail_balanced(toks: Seq<FTok>, i: int, close: SyntaxKind)
    ensures
        delimited_tail(toks, i, close) matches Ok((e, _)) ==> fbalanced(e),
    decreases toks.len() - i, 0int,
{
    let (b, i1) = bump(toks, i);
    lemma_steps_tokens(toks, i, SyntaxKind::ROOT);
    if progressed(toks, i, i1) {
        lemma_args_balanced(toks, i1, close);
        match args(toks, i1, close) {
            Err(_) => {},
            Ok((a, i2)) => if peek(toks, i2) == Some(close) {
                let (b2, _) = bump(toks, i2);
                lemma_steps_tokens(toks, i2, SyntaxKind::ROOT);
                lemma_fbalanced3(b, a, b2);
            },
        }
    }
}

/// What an argument list emits is balanced.
proof fn lemma_args_balanced(toks: Seq<FTok>, i: int, close: SyntaxKind)
    ensures
        args(toks, i, close) matches Ok((e, _)) ==> fbalanced(e),
    decreases toks.len() - i, 20int,
{
    if i < 0 || i > toks.len() {
    } else if at_closer_or_eof(toks, i) {
        lemma_fbalanced_tokens(Seq::<FEvent>::empty());
    } else {
        if peek(toks, i) == Some(SyntaxKind::COMMA) {
            lemma_fbalanced_tokens(Seq::<FEvent>::empty());
        } else {
            lemma_rule_balanced(toks, 12, i);
        }
        let item: crate::cst_grammar::FRes = if peek(toks, i) == Some(SyntaxKind::COMMA) {
            Ok((seq![], i))
        } else if close == SyntaxKind::R_BRACE && crate::cst_grammar::pair_then_semi(toks, i) is Some {
            Err((crate::cst_grammar::pair_then_semi(toks, i)->Some_0, seq!["`,`"@, "`}`"@]))
        } else {
            rule(toks, 12, i)
        };
        match item {
            Err(_) => {},
            Ok((e1, i1)) => if !(i <= i1 <= toks.len()) {
            } else if peek(toks, i1) == Some(SyntaxKind::COMMA) {
                let (b, i2) = bump(toks, i1);
                lemma_steps_tokens(toks, i1, SyntaxKind::ROOT);
                if progressed(toks, i, i2) {
                    lemma_args_balanced(toks, i2, close);
                    match args(toks, i2, close) {
                        Err(_) => {},
                        Ok((a, _)) => lemma_fbalanced3(e1, b, a),
                    }
                }
            },
        }
    }
}

/// The events of a successful parse are a `ROOT` node around a balanced
/// body.
pub proof fn lemma_root_balanced(toks: Seq<FTok>)
    ensures
        root(toks) matches Ok((e, _)) ==> {
            &&& e.len() >= 2
            &&& e == wrap(SyntaxKind::ROOT, e.subrange(1, e.len() - 1))
            &&& fbalanced(e.subrange(1, e.len() - 1))
        },
{
    lemma_rule_balanced(toks, 13, 0);
    match rule(toks, 13, 0) {
        Err(_) => {},
        Ok((e1, i1)) => {
            lemma_steps_tokens(toks, i1, SyntaxKind::ROOT);
            lemma_fbalanced_concat(e1, flush(toks, i1).0);
            let body = e1 + flush(toks, i1).0;
            let e = wrap(SyntaxKind::ROOT, body);
            assert(e.subrange(1, e.len() - 1) =~= body);
        },
    }
}

} // verus!
