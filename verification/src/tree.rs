//! The preorder events of the lossless syntax tree the parser builds: a
//! `Start` per node of a [`SyntaxKind`], a `Token` per token (a byte range
//! of the source), a `Finish` per node end.

use vstd::prelude::*;

use crate::kind::SyntaxKind;

verus! {

/// A token of the source: its kind and its byte range `start..end`.
#[derive(Debug, Clone, Copy, PartialEq, Eq, Structural)]
pub struct Tok {
    pub kind: SyntaxKind,
    pub start: usize,
    pub end: usize,
}

/// One step of a preorder walk over a syntax tree.
#[derive(Debug, Clone, Copy, PartialEq, Eq, Structural)]
pub enum Event {
    /// A node of this kind opens.
    Start(SyntaxKind),
    /// A token.
    Token(Tok),
    /// The innermost open node closes.
    Finish,
}

/// The tokens of an event sequence, in order.
pub open spec fn tokens_of(e: Seq<Event>) -> Seq<Tok>
    decreases e.len(),
{
    if e.len() == 0 {
        seq![]
    } else {
        let rest = tokens_of(e.drop_last());
        match e.last() {
            Event::Token(t) => rest.push(t),
            _ => rest,
        }
    }
}

/// The tokens of a concatenation are the concatenated tokens.
pub proof fn lemma_tokens_of_concat(a: Seq<Event>, b: Seq<Event>)
    ensures
        tokens_of(a + b) == tokens_of(a) + tokens_of(b),
    decreases b.len(),
{
    if b.len() == 0 {
        assert(a + b =~= a);
        assert(tokens_of(a) + tokens_of(b) =~= tokens_of(a));
    } else {
        assert((a + b).drop_last() =~= a + b.drop_last());
        lemma_tokens_of_concat(a, b.drop_last());
        match b.last() {
            Event::Token(t) => {
                assert(tokens_of(a) + tokens_of(b.drop_last()).push(t) =~= (tokens_of(a)
                    + tokens_of(b.drop_last())).push(t));
            },
            _ => {},
        }
    }
}

/// Pushing an event adds its token, if it is one.
pub proof fn lemma_tokens_of_push(a: Seq<Event>, x: Event)
    ensures
        tokens_of(a.push(x)) == (match x {
            Event::Token(t) => tokens_of(a).push(t),
            _ => tokens_of(a),
        }),
{
    assert(a.push(x).drop_last() =~= a);
}

/// Inserting a non-token event keeps the tokens.
pub proof fn lemma_tokens_of_insert(a: Seq<Event>, b: Seq<Event>, x: Event)
    requires
        !(x is Token),
    ensures
        tokens_of(a + seq![x] + b) == tokens_of(a + b),
{
    lemma_tokens_of_concat(a + seq![x], b);
    lemma_tokens_of_concat(a, b);
    lemma_tokens_of_push(a, x);
    assert(a + seq![x] =~= a.push(x));
}

/// How many nodes an event sequence leaves open: starts minus finishes.
pub open spec fn depth(e: Seq<Event>) -> int
    decreases e.len(),
{
    if e.len() == 0 {
        0
    } else {
        depth(e.drop_last()) + match e.last() {
            Event::Start(_) => 1int,
            Event::Finish => -1int,
            Event::Token(_) => 0int,
        }
    }
}

/// Every node an event sequence opens it also closes, and it never closes
/// one it did not open.
pub open spec fn balanced(e: Seq<Event>) -> bool {
    &&& depth(e) == 0
    &&& forall|i: int| 0 <= i <= e.len() ==> depth(#[trigger] e.take(i)) >= 0
}

/// The depth of a concatenation is the sum of the depths.
pub proof fn lemma_depth_concat(a: Seq<Event>, b: Seq<Event>)
    ensures
        depth(a + b) == depth(a) + depth(b),
    decreases b.len(),
{
    if b.len() == 0 {
        assert(a + b =~= a);
    } else {
        assert((a + b).drop_last() =~= a + b.drop_last());
        lemma_depth_concat(a, b.drop_last());
    }
}

/// Balanced sequences concatenate to a balanced sequence.
pub proof fn lemma_balanced_concat(a: Seq<Event>, b: Seq<Event>)
    requires
        balanced(a),
        balanced(b),
    ensures
        balanced(a + b),
{
    lemma_depth_concat(a, b);
    assert forall|i: int| 0 <= i <= (a + b).len() implies depth(#[trigger] (a + b).take(i)) >= 0 by {
        if i <= a.len() {
            assert((a + b).take(i) =~= a.take(i));
        } else {
            assert((a + b).take(i) =~= a + b.take(i - a.len()));
            lemma_depth_concat(a, b.take(i - a.len()));
            assert(a.take(a.len() as int) =~= a);
        }
    }
}

/// A balanced sequence wrapped in a node is balanced.
pub proof fn lemma_balanced_wrap(k: SyntaxKind, x: Seq<Event>)
    requires
        balanced(x),
    ensures
        balanced(seq![Event::Start(k)] + x + seq![Event::Finish]),
{
    let w = seq![Event::Start(k)] + x + seq![Event::Finish];
    assert(depth(Seq::<Event>::empty()) == 0);
    assert(seq![Event::Start(k)].drop_last() =~= Seq::<Event>::empty());
    assert(seq![Event::Start(k)].last() == Event::Start(k));
    assert(depth(seq![Event::Start(k)]) == 1);
    assert(seq![Event::Finish].last() == Event::Finish);
    assert(seq![Event::Finish].drop_last() =~= Seq::<Event>::empty());
    assert(depth(seq![Event::Finish]) == -1);
    lemma_depth_concat(seq![Event::Start(k)], x);
    lemma_depth_concat(seq![Event::Start(k)] + x, seq![Event::Finish]);
    assert forall|i: int| 0 <= i <= w.len() implies depth(#[trigger] w.take(i)) >= 0 by {
        if i == 0 {
            assert(w.take(i) =~= Seq::<Event>::empty());
        } else if i <= x.len() + 1 {
            assert(w.take(i) =~= seq![Event::Start(k)] + x.take(i - 1));
            lemma_depth_concat(seq![Event::Start(k)], x.take(i - 1));
        } else {
            assert(w.take(i) =~= w);
        }
    }
}

/// A sequence of tokens alone is balanced.
pub proof fn lemma_balanced_tokens(e: Seq<Event>)
    requires
        forall|i: int| 0 <= i < e.len() ==> (#[trigger] e[i]) is Token,
    ensures
        balanced(e),
        forall|i: int| 0 <= i <= e.len() ==> depth(#[trigger] e.take(i)) == 0,
    decreases e.len(),
{
    if e.len() > 0 {
        lemma_balanced_tokens(e.drop_last());
        assert forall|i: int| 0 <= i <= e.len() implies depth(#[trigger] e.take(i)) == 0 by {
            if i < e.len() {
                assert(e.take(i) =~= e.drop_last().take(i));
            } else {
                assert(e.take(i) =~= e);
                assert(e.drop_last().take(e.len() - 1) =~= e.drop_last());
            }
        }
    } else {
        assert(e.take(0) =~= e);
    }
}

} // verus!
