//! Lowering of the front end's syntax tree to the compact tree, with the
//! trivia attachment the compact tree's consumers rely on:
//!
//! - Trivia before an infix operator belongs to the operator's right operand
//!   (prepended to its leading), as does trivia after a `;`/`,` link.
//! - Trivia after any other operator is consumed at the right operand's
//!   leftmost non-binary node.
//! - In argument lists, trivia between items rides on the next item; trivia
//!   stranded before the closer is appended onto the last item, and an
//!   otherwise-empty list anchors it on a phantom `Empty`. An omitted
//!   argument (`f(a, , b)`) also becomes an `Empty`.
//! - Trivia around a trailing `;`/`,` is appended onto the preceding node.
//! - A `->` at the top level of a map item is that item's key/value arrow;
//!   any other `->` is a function definition.
//!
//! Trivia between a callee and its `(`, between an expression and a `)`
//! with no separator in between, and between consecutive `;`s has no place
//! in the compact tree.
//!
//! The meaning of a lowering is given over [`CstM`], the mathematical value
//! of a compact tree (see [`crate::cst`]).

use vstd::prelude::*;

use crate::cst::{
    op_text, unary_text, BinOp, Cst, CstKind, CstM, KindM, Trivia, TriviaM, UnaryOp, cst_model, csts_model, trivia_model,
    trivias_model,
};
use crate::cst_grammar::FTok;
use crate::ftree::{FElem, FNode};
use crate::lexer::Token;
use crate::parser::ftoks;
use crate::syntax::SyntaxKind;

verus! {

// --------------------------------------------------------------------
// Reading the tree
// --------------------------------------------------------------------

/// The text of token `i` of the stream (empty past its end).
pub open spec fn text_of(toks: Seq<FTok>, i: usize) -> Seq<char> {
    if i < toks.len() {
        toks[i as int].1
    } else {
        seq![]
    }
}

/// The compact-tree trivia an element contributes: a comment or a break;
/// whitespace and everything else contribute nothing.
pub open spec fn trivia_of(toks: Seq<FTok>, e: FElem) -> Seq<TriviaM> {
    match e {
        FElem::Token(i, k) => if k == SyntaxKind::BREAK {
            seq![TriviaM::Break]
        } else if k == SyntaxKind::COMMENT {
            seq![TriviaM::Comment(text_of(toks, i))]
        } else {
            seq![]
        },
        FElem::Node(_) => seq![],
    }
}

/// The compact-tree trivia of the elements `s[lo..hi]`, in order.
pub open spec fn band_m(toks: Seq<FTok>, s: Seq<FElem>, lo: int, hi: int) -> Seq<TriviaM>
    decreases hi - lo,
{
    if hi <= lo || lo < 0 || hi > s.len() {
        seq![]
    } else {
        band_m(toks, s, lo, hi - 1) + trivia_of(toks, s[hi - 1])
    }
}

/// What a search over sibling elements looks for.
#[derive(Clone, Copy)]
pub enum Probe {
    /// A node.
    Node,
    /// A significant (non-trivia) token.
    Sig,
    /// A node of this kind.
    NodeOf(SyntaxKind),
    /// An opening delimiter token.
    Opener,
    /// A closing delimiter token (of this kind, if one is given).
    Closer(Option<SyntaxKind>),
}

/// Whether element `e` is what `p` looks for.
pub open spec fn hits(p: Probe, e: FElem) -> bool {
    match p {
        Probe::Node => e is Node,
        Probe::Sig => e matches FElem::Token(_, k) && !k.spec_is_trivia(),
        Probe::NodeOf(k) => e matches FElem::Node(n) && n.kind == k,
        Probe::Opener => e matches FElem::Token(_, k) && k.spec_is_opener(),
        Probe::Closer(only) => e matches FElem::Token(_, k) && k.spec_is_closer() && (only is None
            || only == Some(k)),
    }
}

/// The first element among `s[i..]` that `p` looks for, or `s.len()`.
pub open spec fn first_at(s: Seq<FElem>, p: Probe, i: int) -> int
    decreases s.len() - i,
{
    if i < 0 || i >= s.len() {
        s.len() as int
    } else if hits(p, s[i]) {
        i
    } else {
        first_at(s, p, i + 1)
    }
}

/// The last element among `s[..j]` that `p` looks for, or -1.
pub open spec fn last_before(s: Seq<FElem>, p: Probe, j: int) -> int
    decreases j,
{
    if j <= 0 || j > s.len() {
        -1
    } else if hits(p, s[j - 1]) {
        j - 1
    } else {
        last_before(s, p, j - 1)
    }
}

/// The first node among `s[i..]`, or `s.len()`.
pub open spec fn first_node_at(s: Seq<FElem>, i: int) -> int {
    first_at(s, Probe::Node, i)
}

/// The last node among `s[..j]`, or -1.
pub open spec fn last_node_before(s: Seq<FElem>, j: int) -> int {
    last_before(s, Probe::Node, j)
}

/// The first significant token among `s[i..]`, or `s.len()`.
pub open spec fn first_sig_at(s: Seq<FElem>, i: int) -> int {
    first_at(s, Probe::Sig, i)
}

/// The last significant token among `s[..j]`, or -1.
pub open spec fn last_sig_before(s: Seq<FElem>, j: int) -> int {
    last_before(s, Probe::Sig, j)
}

/// The first node of kind `k` among `s[i..]`, or `s.len()`.
pub open spec fn find_node(s: Seq<FElem>, k: SyntaxKind, i: int) -> int {
    first_at(s, Probe::NodeOf(k), i)
}

/// The first opening delimiter among `s[i..]`, or `s.len()`.
pub open spec fn first_opener_at(s: Seq<FElem>, i: int) -> int {
    first_at(s, Probe::Opener, i)
}

/// The last closing delimiter (of kind `k` when `only` is `Some(k)`) among
/// `s[..j]`, or -1.
pub open spec fn last_closer_before(s: Seq<FElem>, only: Option<SyntaxKind>, j: int) -> int {
    last_before(s, Probe::Closer(only), j)
}

/// The kind of a token element (`ROOT` for a node).
pub open spec fn elem_kind(e: FElem) -> SyntaxKind {
    match e {
        FElem::Token(_, k) => k,
        FElem::Node(n) => n.kind,
    }
}

// --------------------------------------------------------------------
// Building values
// --------------------------------------------------------------------

/// A node with no leading trivia.
pub open spec fn bare_m(kind: KindM) -> CstM {
    CstM { leading: seq![], kind }
}

/// `c` with `band` placed before its leading trivia.
pub open spec fn with_leading_m(c: CstM, band: Seq<TriviaM>) -> CstM {
    CstM { leading: band + c.leading, kind: c.kind }
}

/// `c` with `band` placed before the leading trivia of its leftmost
/// non-binary descendant.
pub open spec fn prepend_deep_m(c: CstM, band: Seq<TriviaM>) -> CstM
    decreases c,
{
    match c.kind {
        KindM::Binary { op, lhs, rhs } => CstM {
            leading: c.leading,
            kind: KindM::Binary { op, lhs: Box::new(prepend_deep_m(*lhs, band)), rhs },
        },
        _ => with_leading_m(c, band),
    }
}

/// The binary operator of an operator token.
pub open spec fn binop_m(k: SyntaxKind) -> BinOp {
    match k {
        SyntaxKind::PLUS => BinOp::Add,
        SyntaxKind::MINUS => BinOp::Sub,
        SyntaxKind::STAR => BinOp::Mul,
        SyntaxKind::SLASH => BinOp::Div,
        SyntaxKind::PERCENT => BinOp::Rem,
        SyntaxKind::CARET => BinOp::Pow,
        SyntaxKind::EQ2 => BinOp::Eq,
        SyntaxKind::BANG_EQ => BinOp::NotEq,
        SyntaxKind::LT => BinOp::Lt,
        SyntaxKind::LT_EQ => BinOp::LtEq,
        SyntaxKind::GT => BinOp::Gt,
        SyntaxKind::GT_EQ => BinOp::GtEq,
        SyntaxKind::AMP2 => BinOp::And,
        SyntaxKind::PIPE2 => BinOp::Or,
        SyntaxKind::TILDE => BinOp::Match,
        SyntaxKind::COLON => BinOp::Get,
        SyntaxKind::EQ => BinOp::Assign,
        SyntaxKind::PLUS_EQ => BinOp::AddAssign,
        SyntaxKind::LT_GT => BinOp::Swap,
        SyntaxKind::SEMICOLON => BinOp::Semi,
        _ => BinOp::Comma,
    }
}

/// The prefix operator of an operator token.
pub open spec fn unop_m(k: SyntaxKind) -> UnaryOp {
    match k {
        SyntaxKind::MINUS => UnaryOp::Neg,
        SyntaxKind::PLUS => UnaryOp::Pos,
        SyntaxKind::BANG => UnaryOp::Not,
        _ => UnaryOp::Unpack,
    }
}

/// The right operand of an infix node whose operands sit at `lhs_at` and
/// `rhs_at` of `s`, its first operator token at `op_at` and its last at
/// `last_op_at`: trivia before the operator prepends onto the operand
/// itself; trivia after it sinks to the operand's leftmost node, except
/// after a `;` or `,` link, where both bands prepend onto the operand.
pub open spec fn route_rhs(
    toks: Seq<FTok>,
    s: Seq<FElem>,
    lhs_at: int,
    op_at: int,
    last_op_at: int,
    rhs_at: int,
    rhs: CstM,
) -> CstM {
    let before = band_m(toks, s, lhs_at + 1, op_at);
    let after = band_m(toks, s, last_op_at + 1, rhs_at);
    let op = elem_kind(s[op_at]);
    if op == SyntaxKind::SEMICOLON || op == SyntaxKind::COMMA {
        with_leading_m(rhs, before + after)
    } else {
        with_leading_m(prepend_deep_m(rhs, after), before)
    }
}

/// Whether the children `s` of an infix node have two operands and an
/// operator token between them.
pub open spec fn infix_ok(s: Seq<FElem>) -> bool {
    let lhs_at = first_node_at(s, 0);
    let rhs_at = last_node_before(s, s.len() as int);
    &&& 0 <= lhs_at < rhs_at < s.len()
    &&& lhs_at < first_sig_at(s, lhs_at + 1) < rhs_at
}

/// The state of a walk over an argument list: the items so far, the
/// trivia waiting for an anchor, whether the walk stands at an item
/// position, and whether the last separator was a `;`.
pub struct ItemsM {
    pub items: Seq<CstM>,
    pub pending: Seq<TriviaM>,
    pub expect_item: bool,
    pub prev_semi: bool,
}

/// `st` with the pending trivia appended onto the last item (kept pending
/// when there is no item yet).
pub open spec fn flush_onto_last_m(st: ItemsM) -> ItemsM {
    if st.items.len() > 0 {
        let last = st.items.last();
        ItemsM {
            items: st.items.drop_last().push(
                CstM { leading: last.leading + st.pending, kind: last.kind },
            ),
            pending: seq![],
            ..st
        }
    } else {
        st
    }
}

/// The items of a list whose walk ended in `st`: leftover trivia goes onto
/// the last item, or onto a phantom `Empty` in an otherwise-empty list.
pub open spec fn finish_items_m(st: ItemsM) -> Seq<CstM> {
    if st.pending.len() == 0 {
        st.items
    } else if st.items.len() == 0 {
        seq![CstM { leading: st.pending, kind: KindM::Empty }]
    } else {
        flush_onto_last_m(st).items
    }
}

/// The walk of the argument-list elements `s[lo..k]`; each node is an item
/// (a map item when `is_map`).
pub open spec fn items_m(toks: Seq<FTok>, s: Seq<FElem>, lo: int, k: int, is_map: bool) -> ItemsM
    decreases s, k,
{
    if k <= lo || lo < 0 || k > s.len() {
        ItemsM { items: seq![], pending: seq![], expect_item: true, prev_semi: false }
    } else {
        let st = items_m(toks, s, lo, k - 1, is_map);
        proof {
            assert(decreases_to!(s => s[k - 1]));
        }
        match s[k - 1] {
            FElem::Token(i, kind) => if kind.spec_is_trivia() {
                ItemsM { pending: st.pending + trivia_of(toks, s[k - 1]), ..st }
            } else if kind == SyntaxKind::COMMA {
                if st.expect_item {
                    ItemsM {
                        items: st.items.push(CstM { leading: st.pending, kind: KindM::Empty }),
                        pending: seq![],
                        expect_item: true,
                        prev_semi: false,
                    }
                } else if st.prev_semi {
                    ItemsM { expect_item: true, prev_semi: false, ..flush_onto_last_m(st) }
                } else {
                    ItemsM { expect_item: true, prev_semi: false, ..st }
                }
            } else if kind == SyntaxKind::SEMICOLON {
                if st.prev_semi {
                    ItemsM { pending: seq![], ..st }
                } else {
                    ItemsM { prev_semi: true, ..flush_onto_last_m(st) }
                }
            } else {
                st
            },
            FElem::Node(n) => {
                let item = if is_map {
                    map_item_m(toks, n)
                } else {
                    expr_m(toks, n)
                };
                ItemsM {
                    items: st.items.push(with_leading_m(item, st.pending)),
                    pending: seq![],
                    expect_item: false,
                    prev_semi: false,
                }
            },
        }
    }
}

/// The items between the delimiters of a call's argument list, a list or a
/// map.
pub open spec fn args_m(toks: Seq<FTok>, n: FNode, is_map: bool) -> Seq<CstM>
    decreases n, 2int,
{
    let s = n.children@;
    let open_at = first_opener_at(s, 0);
    let close_at = last_closer_before(s, None, s.len() as int);
    let hi = if close_at < 0 {
        s.len() as int
    } else {
        close_at
    };
    proof {
        assert(decreases_to!(n => n.children@));
    }
    finish_items_m(items_m(toks, s, open_at + 1, hi, is_map))
}

/// One item of a map literal: the item-level pair `key -> value`, or a bare
/// key.
pub open spec fn map_item_m(toks: Seq<FTok>, n: FNode) -> CstM
    decreases n, 4int,
{
    let s = n.children@;
    let lhs_at = first_node_at(s, 0);
    let rhs_at = last_node_before(s, s.len() as int);
    let op_at = first_sig_at(s, lhs_at + 1);
    if n.kind == SyntaxKind::BIN_EXPR && infix_ok(s) && elem_kind(s[op_at])
        == SyntaxKind::ARROW {
        proof {
            assert(decreases_to!(n => n.children@));
            assert(decreases_to!(n.children@ => s[lhs_at]));
            assert(decreases_to!(n.children@ => s[rhs_at]));
        }
        match (s[lhs_at], s[rhs_at]) {
            (FElem::Node(l), FElem::Node(r)) => {
                let last_op_at = last_sig_before(s, rhs_at);
                bare_m(
                    KindM::MapEntry {
                        key: Box::new(expr_m(toks, l)),
                        value: Some(
                            Box::new(
                                route_rhs(toks, s, lhs_at, op_at, last_op_at, rhs_at, expr_m(toks, r)),
                            ),
                        ),
                    },
                )
            },
            _ => bare_m(KindM::Empty),
        }
    } else {
        bare_m(KindM::MapEntry { key: Box::new(expr_m(toks, n)), value: None })
    }
}

/// The value of an expression node.
pub open spec fn expr_m(toks: Seq<FTok>, n: FNode) -> CstM
    decreases n, 3int,
{
    let s = n.children@;
    proof {
        assert(decreases_to!(n => n.children@));
    }
    if n.kind == SyntaxKind::LITERAL || n.kind == SyntaxKind::NAME_REF {
        if s.len() > 0 {
            match s[0] {
                FElem::Token(i, k) => if n.kind == SyntaxKind::NAME_REF {
                    bare_m(KindM::Ident(text_of(toks, i)))
                } else if k == SyntaxKind::NUMBER {
                    bare_m(KindM::Number(text_of(toks, i)))
                } else if k == SyntaxKind::STRING {
                    bare_m(KindM::Str(text_of(toks, i)))
                } else {
                    bare_m(KindM::Empty)
                },
                _ => bare_m(KindM::Empty),
            }
        } else {
            bare_m(KindM::Empty)
        }
    } else if n.kind == SyntaxKind::CALL_EXPR {
        let c = find_node(s, SyntaxKind::NAME_REF, 0);
        let a = find_node(s, SyntaxKind::ARG_LIST, 0);
        if 0 <= c < s.len() && 0 <= a < s.len() {
            proof {
                assert(decreases_to!(n.children@ => s[c]));
                assert(decreases_to!(n.children@ => s[a]));
            }
            match (s[c], s[a]) {
                (FElem::Node(cn), FElem::Node(an)) => bare_m(
                    KindM::Call { callee: Box::new(expr_m(toks, cn)), args: args_m(toks, an, false) },
                ),
                _ => bare_m(KindM::Empty),
            }
        } else {
            bare_m(KindM::Empty)
        }
    } else if n.kind == SyntaxKind::LIST_EXPR {
        bare_m(KindM::List(args_m(toks, n, false)))
    } else if n.kind == SyntaxKind::MAP_EXPR {
        bare_m(KindM::MapLiteral(args_m(toks, n, true)))
    } else if n.kind == SyntaxKind::PAREN_EXPR {
        let close_at = last_closer_before(s, Some(SyntaxKind::R_PAREN), s.len() as int);
        let expr_at = first_node_at(s, 1);
        if 1 <= expr_at < close_at <= s.len() {
            proof {
                assert(decreases_to!(n.children@ => s[expr_at]));
            }
            match s[expr_at] {
                FElem::Node(e) => bare_m(
                    KindM::Paren(
                        Box::new(chain_m(toks, s, 1, expr_at, close_at, false, expr_m(toks, e))),
                    ),
                ),
                _ => bare_m(KindM::Empty),
            }
        } else {
            bare_m(KindM::Empty)
        }
    } else if n.kind == SyntaxKind::PREFIX_EXPR {
        let op_at = first_sig_at(s, 0);
        let operand_at = first_node_at(s, 0);
        if 0 <= op_at < s.len() && 0 <= operand_at < s.len() {
            proof {
                assert(decreases_to!(n.children@ => s[operand_at]));
            }
            match s[operand_at] {
                FElem::Node(o) => bare_m(
                    KindM::Unary {
                        op: unop_m(elem_kind(s[op_at])),
                        operand: Box::new(
                            prepend_deep_m(expr_m(toks, o), band_m(toks, s, 0, operand_at)),
                        ),
                    },
                ),
                _ => bare_m(KindM::Empty),
            }
        } else {
            bare_m(KindM::Empty)
        }
    } else if n.kind == SyntaxKind::BIN_EXPR && infix_ok(s) {
        let lhs_at = first_node_at(s, 0);
        let rhs_at = last_node_before(s, s.len() as int);
        let op_at = first_sig_at(s, lhs_at + 1);
        let last_op_at = last_sig_before(s, rhs_at);
        proof {
            assert(decreases_to!(n.children@ => s[lhs_at]));
            assert(decreases_to!(n.children@ => s[rhs_at]));
        }
        match (s[lhs_at], s[rhs_at]) {
            (FElem::Node(l), FElem::Node(r)) => {
                let lhs = expr_m(toks, l);
                let rhs = route_rhs(toks, s, lhs_at, op_at, last_op_at, rhs_at, expr_m(toks, r));
                let op = elem_kind(s[op_at]);
                if op == SyntaxKind::ARROW {
                    bare_m(KindM::DefineFunction { signature: Box::new(lhs), body: Box::new(rhs) })
                } else {
                    bare_m(KindM::Binary { op: binop_m(op), lhs: Box::new(lhs), rhs: Box::new(rhs) })
                }
            },
            _ => bare_m(KindM::Empty),
        }
    } else {
        bare_m(KindM::Empty)
    }
}

/// The state of a walk over a chain's trailing separators and trivia: the
/// trivia appended onto the chain so far, the trivia pending, whether the
/// last separator was a `;`, and whether a separator was seen.
pub struct TailM {
    pub appended: Seq<TriviaM>,
    pub pending: Seq<TriviaM>,
    pub prev_semi: bool,
    pub seen_sep: bool,
}

/// The walk over the trailing elements `s[lo..k]` of a chain.
pub open spec fn tail_m(toks: Seq<FTok>, s: Seq<FElem>, lo: int, k: int) -> TailM
    decreases k - lo,
{
    if k <= lo || lo < 0 || k > s.len() {
        TailM { appended: seq![], pending: seq![], prev_semi: false, seen_sep: false }
    } else {
        let st = tail_m(toks, s, lo, k - 1);
        match s[k - 1] {
            FElem::Token(_, kind) => if kind.spec_is_trivia() {
                TailM { pending: st.pending + trivia_of(toks, s[k - 1]), ..st }
            } else if kind == SyntaxKind::SEMICOLON {
                if st.prev_semi {
                    TailM { pending: seq![], prev_semi: true, seen_sep: true, ..st }
                } else {
                    TailM {
                        appended: st.appended + st.pending,
                        pending: seq![],
                        prev_semi: true,
                        seen_sep: true,
                    }
                }
            } else if kind == SyntaxKind::COMMA {
                TailM {
                    appended: st.appended + st.pending,
                    pending: seq![],
                    prev_semi: false,
                    seen_sep: true,
                }
            } else {
                st
            },
            FElem::Node(_) => st,
        }
    }
}

/// The trivia a chain's trailing elements `s[lo..hi]` append onto it: the
/// bands next to separators, and a final band with no separator before it
/// only when `keep_final`.
pub open spec fn tail_band_m(toks: Seq<FTok>, s: Seq<FElem>, lo: int, hi: int, keep_final: bool) -> Seq<
    TriviaM,
> {
    let st = tail_m(toks, s, lo, hi);
    if st.pending.len() > 0 && (st.seen_sep || keep_final) {
        st.appended + st.pending
    } else {
        st.appended
    }
}

/// A chain body `s[lo..hi]` whose expression `e` (already lowered) sits at
/// `expr_at`: the band before it rides onto its leftmost node, and the
/// trailing separators and trivia append onto it.
pub open spec fn chain_m(
    toks: Seq<FTok>,
    s: Seq<FElem>,
    lo: int,
    expr_at: int,
    hi: int,
    keep_final: bool,
    e: CstM,
) -> CstM {
    let c = prepend_deep_m(e, band_m(toks, s, lo, expr_at));
    CstM { leading: c.leading + tail_band_m(toks, s, expr_at + 1, hi, keep_final), kind: c.kind }
}

/// The value of a whole program from the children `s` of its root node:
/// the top-level chain, with trailing separators and trivia anchored on it
/// (an `Empty` when the root holds no expression, which no successful parse
/// produces).
pub open spec fn root_m(toks: Seq<FTok>, s: Seq<FElem>) -> CstM {
    let expr_at = first_node_at(s, 0);
    if 0 <= expr_at < s.len() {
        match s[expr_at] {
            FElem::Node(e) => chain_m(toks, s, 0, expr_at, s.len() as int, true, expr_m(toks, e)),
            _ => bare_m(KindM::Empty),
        }
    } else {
        bare_m(KindM::Empty)
    }
}

// --------------------------------------------------------------------
// Executable lowering
// --------------------------------------------------------------------

/// The model of a run with no trivia is empty.
proof fn lemma_no_trivia(v: Seq<Trivia>)
    requires
        v.len() == 0,
    ensures
        trivias_model(v) == Seq::<TriviaM>::empty(),
{
    assert(trivias_model(v) =~= Seq::<TriviaM>::empty());
}

/// The model of a concatenation of trivia runs.
proof fn lemma_trivias_concat(a: Seq<Trivia>, b: Seq<Trivia>)
    ensures
        trivias_model(a + b) == trivias_model(a) + trivias_model(b),
{
    assert(trivias_model(a + b) =~= trivias_model(a) + trivias_model(b));
}

/// The model of a sequence with one more tree.
proof fn lemma_csts_push(v: Seq<Cst>, c: Cst)
    ensures
        csts_model(v.push(c)) == csts_model(v).push(cst_model(c)),
{
    assert(v.push(c).drop_last() =~= v);
}

/// The text of token `i` (empty past the end of the stream).
fn token_text<'s>(tokens: &Vec<Token<'s>>, i: usize) -> (r: &'s str)
    ensures
        r@ == text_of(ftoks(tokens@), i),
{
    if i < tokens.len() {
        tokens[i].text
    } else {
        let e = "";
        proof {
            reveal_strlit("");
        }
        assert(e@ =~= Seq::<char>::empty());
        e
    }
}

/// Whether element `e` is what `p` looks for.
fn hits_x(p: Probe, e: &FElem) -> (b: bool)
    ensures
        b == hits(p, *e),
{
    match p {
        Probe::Node => match e {
            FElem::Node(_) => true,
            FElem::Token(_, _) => false,
        },
        Probe::Sig => match e {
            FElem::Token(_, k) => !k.is_trivia(),
            FElem::Node(_) => false,
        },
        Probe::NodeOf(want) => match e {
            FElem::Node(n) => n.kind == want,
            FElem::Token(_, _) => false,
        },
        Probe::Opener => match e {
            FElem::Token(_, k) => k.is_opener(),
            FElem::Node(_) => false,
        },
        Probe::Closer(only) => match e {
            FElem::Token(_, k) => k.is_closer() && match only {
                None => true,
                Some(o) => o == *k,
            },
            FElem::Node(_) => false,
        },
    }
}

/// The first element among `s[i..]` that `p` looks for, or `s.len()`.
fn first_at_x(s: &Vec<FElem>, p: Probe, i: usize) -> (r: usize)
    requires
        i <= s.len(),
    ensures
        r == first_at(s@, p, i as int),
        i <= r <= s.len(),
{
    let mut j = i;
    while j < s.len()
        invariant
            i <= j <= s.len(),
            first_at(s@, p, i as int) == first_at(s@, p, j as int),
        decreases s.len() - j,
    {
        if hits_x(p, &s[j]) {
            return j;
        }
        j = j + 1;
    }
    j
}

/// The last element among `s[..j]` that `p` looks for, if any.
fn last_before_x(s: &Vec<FElem>, p: Probe, j: usize) -> (r: Option<usize>)
    requires
        j <= s.len(),
    ensures
        match r {
            Some(x) => x == last_before(s@, p, j as int) && x < j,
            None => last_before(s@, p, j as int) == -1,
        },
{
    let mut k = j;
    while k > 0
        invariant
            k <= j <= s.len(),
            last_before(s@, p, j as int) == last_before(s@, p, k as int),
        decreases k,
    {
        if hits_x(p, &s[k - 1]) {
            return Some(k - 1);
        }
        k = k - 1;
    }
    None
}

/// A hit below `j` bounds the last hit below `j` from beneath.
proof fn lemma_last_before_ge(s: Seq<FElem>, p: Probe, j: int, x: int)
    requires
        0 <= x < j <= s.len(),
        hits(p, s[x]),
    ensures
        x <= last_before(s, p, j) < j,
    decreases j,
{
    if !hits(p, s[j - 1]) {
        lemma_last_before_ge(s, p, j - 1, x);
    }
}

/// The first hit at or after `i` is a hit.
proof fn lemma_first_at_hits(s: Seq<FElem>, p: Probe, i: int)
    requires
        0 <= i,
    ensures
        first_at(s, p, i) < s.len() ==> hits(p, s[first_at(s, p, i)]) && i <= first_at(s, p, i),
    decreases s.len() - i,
{
    if i < s.len() && !hits(p, s[i]) {
        lemma_first_at_hits(s, p, i + 1);
    }
}

/// The last hit below `j` is a hit.
proof fn lemma_last_before_hits(s: Seq<FElem>, p: Probe, j: int)
    ensures
        last_before(s, p, j) >= 0 ==> hits(p, s[last_before(s, p, j)]) && last_before(s, p, j)
            < j <= s.len(),
    decreases j,
{
    if 0 < j <= s.len() && !hits(p, s[j - 1]) {
        lemma_last_before_hits(s, p, j - 1);
    }
}

/// Adds the compact-tree trivia of element `e` to `band`.
fn push_trivia<'s>(tokens: &Vec<Token<'s>>, band: &mut Vec<Trivia<'s>>, e: &FElem)
    ensures
        trivias_model(final(band)@) == trivias_model(old(band)@) + trivia_of(
            ftoks(tokens@),
            *e,
        ),
{
    let ghost b0 = band@;
    match e {
        FElem::Token(i, k) => {
            if *k == SyntaxKind::BREAK {
                band.push(Trivia::Break);
                assert(trivias_model(band@) =~= trivias_model(b0) + seq![TriviaM::Break]);
            } else if *k == SyntaxKind::COMMENT {
                let text = token_text(tokens, *i);
                band.push(Trivia::Comment(text));
                assert(trivias_model(band@) =~= trivias_model(b0) + seq![TriviaM::Comment(text@)]);
            } else {
                assert(trivias_model(b0) + Seq::<TriviaM>::empty() =~= trivias_model(b0));
            }
        },
        FElem::Node(_) => {
            assert(trivias_model(b0) + Seq::<TriviaM>::empty() =~= trivias_model(b0));
        },
    }
}

/// The compact-tree trivia of the elements `s[lo..hi]`.
fn band<'s>(tokens: &Vec<Token<'s>>, s: &Vec<FElem>, lo: usize, hi: usize) -> (r: Vec<Trivia<'s>>)
    requires
        hi <= s.len(),
    ensures
        trivias_model(r@) == band_m(ftoks(tokens@), s@, lo as int, hi as int),
{
    let mut out: Vec<Trivia<'s>> = Vec::new();
    if lo >= hi {
        proof {
            lemma_no_trivia(out@);
        }
        return out;
    }
    let mut k = lo;
    proof {
        lemma_no_trivia(out@);
    }
    while k < hi
        invariant
            lo <= k <= hi <= s.len(),
            trivias_model(out@) == band_m(ftoks(tokens@), s@, lo as int, k as int),
        decreases hi - k,
    {
        push_trivia(tokens, &mut out, &s[k]);
        k = k + 1;
    }
    out
}

/// `c` with `band` placed before the leading trivia of its leftmost
/// non-binary descendant.
fn prepend_deep<'s>(c: Cst<'s>, band: Vec<Trivia<'s>>) -> (r: Cst<'s>)
    ensures
        cst_model(r) == prepend_deep_m(cst_model(c), trivias_model(band@)),
    decreases c,
{
    let ghost m = cst_model(c);
    let Cst { leading, kind } = c;
    match kind {
        CstKind::Binary { op, lhs, rhs } => {
            let l = prepend_deep(*lhs, band);
            Cst { leading, kind: CstKind::Binary { op, lhs: Box::new(l), rhs } }
        },
        other => {
            let r = Cst { leading, kind: other }.with_leading(band);
            proof {
                lemma_trivias_concat(band@, leading@);
            }
            r
        },
    }
}

/// `c` with `extra` appended to its leading trivia.
fn append_leading<'s>(c: Cst<'s>, extra: Vec<Trivia<'s>>) -> (r: Cst<'s>)
    ensures
        cst_model(r) == (CstM {
            leading: cst_model(c).leading + trivias_model(extra@),
            kind: cst_model(c).kind,
        }),
{
    let Cst { mut leading, kind } = c;
    let ghost l0 = leading@;
    let ghost e0 = extra@;
    let mut extra = extra;
    leading.append(&mut extra);
    proof {
        lemma_trivias_concat(l0, e0);
    }
    Cst { leading, kind }
}


/// The model of a tree given more leading trivia.
proof fn lemma_with_leading_model(c: Cst, band: Seq<Trivia>, r: Cst)
    requires
        r.leading@ == band + c.leading@,
        r.kind == c.kind,
    ensures
        cst_model(r) == with_leading_m(cst_model(c), trivias_model(band)),
{
    lemma_trivias_concat(band, c.leading@);
}

/// The kind of an element.
fn elem_kind_x(e: &FElem) -> (k: SyntaxKind)
    ensures
        k == elem_kind(*e),
{
    match e {
        FElem::Token(_, k) => *k,
        FElem::Node(n) => n.kind,
    }
}

/// The positions of an infix node's operands and operator tokens: the left
/// operand, the first operator token, the last operator token, the right
/// operand; `None` when the node is not a well-formed infix node.
fn infix_parts(s: &Vec<FElem>) -> (r: Option<(usize, usize, usize, usize)>)
    ensures
        match r {
            Some((l, o, lo, rr)) => {
                &&& infix_ok(s@)
                &&& l == first_node_at(s@, 0)
                &&& rr == last_node_before(s@, s.len() as int)
                &&& o == first_sig_at(s@, l + 1)
                &&& lo == last_sig_before(s@, rr as int)
                &&& l < o <= lo < rr < s.len()
            },
            None => !infix_ok(s@),
        },
{
    let l = first_at_x(s, Probe::Node, 0);
    if l >= s.len() {
        return None;
    }
    match last_before_x(s, Probe::Node, s.len()) {
        None => None,
        Some(rr) => {
            if l >= rr {
                return None;
            }
            let o = first_at_x(s, Probe::Sig, l + 1);
            if o >= rr {
                return None;
            }
            proof {
                lemma_first_at_hits(s@, Probe::Sig, l + 1);
            }
            match last_before_x(s, Probe::Sig, rr) {
                Some(x) => {
                    proof {
                        lemma_last_before_ge(s@, Probe::Sig, rr as int, o as int);
                    }
                    Some((l, o, x, rr))
                },
                None => {
                    proof {
                        lemma_last_before_ge(s@, Probe::Sig, rr as int, o as int);
                    }
                    None
                },
            }
        },
    }
}

/// The right operand of an infix node, with the trivia around its operator
/// routed as [`route_rhs`] says.
fn route_rhs_x<'s>(
    tokens: &Vec<Token<'s>>,
    s: &Vec<FElem>,
    l: usize,
    o: usize,
    lo: usize,
    rr: usize,
    rhs: Cst<'s>,
) -> (r: Cst<'s>)
    requires
        l < o <= lo < rr < s.len(),
    ensures
        cst_model(r) == route_rhs(
            ftoks(tokens@),
            s@,
            l as int,
            o as int,
            lo as int,
            rr as int,
            cst_model(rhs),
        ),
{
    let mut before = band(tokens, s, l + 1, o);
    let mut after = band(tokens, s, lo + 1, rr);
    let op = elem_kind_x(&s[o]);
    if op == SyntaxKind::SEMICOLON || op == SyntaxKind::COMMA {
        let ghost b0 = before@;
        let ghost a0 = after@;
        before.append(&mut after);
        proof {
            lemma_trivias_concat(b0, a0);
        }
        let ghost bb = before@;
        let r = rhs.with_leading(before);
        proof {
            lemma_with_leading_model(rhs, bb, r);
        }
        r
    } else {
        let d = prepend_deep(rhs, after);
        let ghost bb = before@;
        let r = d.with_leading(before);
        proof {
            lemma_with_leading_model(d, bb, r);
        }
        r
    }
}

/// The trivia a chain's trailing elements `s[lo..hi]` append onto it.
fn tail_band<'s>(
    tokens: &Vec<Token<'s>>,
    s: &Vec<FElem>,
    lo: usize,
    hi: usize,
    keep_final: bool,
) -> (r: Vec<Trivia<'s>>)
    requires
        lo <= hi <= s.len(),
    ensures
        trivias_model(r@) == tail_band_m(ftoks(tokens@), s@, lo as int, hi as int, keep_final),
{
    let ghost t = ftoks(tokens@);
    let mut appended: Vec<Trivia<'s>> = Vec::new();
    let mut pending: Vec<Trivia<'s>> = Vec::new();
    let mut prev_semi = false;
    let mut seen_sep = false;
    let mut k = lo;
    proof {
        lemma_no_trivia(appended@);
    }
    while k < hi
        invariant
            lo <= k <= hi <= s.len(),
            t == ftoks(tokens@),
            trivias_model(appended@) == tail_m(t, s@, lo as int, k as int).appended,
            trivias_model(pending@) == tail_m(t, s@, lo as int, k as int).pending,
            prev_semi == tail_m(t, s@, lo as int, k as int).prev_semi,
            seen_sep == tail_m(t, s@, lo as int, k as int).seen_sep,
        decreases hi - k,
    {
        let ghost a0 = appended@;
        let ghost p0 = pending@;
        match &s[k] {
            FElem::Token(_, kind) => {
                if kind.is_trivia() {
                    push_trivia(tokens, &mut pending, &s[k]);
                } else if *kind == SyntaxKind::SEMICOLON {
                    if prev_semi {
                        pending = Vec::new();
                        proof {
                            lemma_no_trivia(pending@);
                        }
                    } else {
                        appended.append(&mut pending);
                        proof {
                            lemma_trivias_concat(a0, p0);
                            lemma_no_trivia(pending@);
                        }
                    }
                    prev_semi = true;
                    seen_sep = true;
                } else if *kind == SyntaxKind::COMMA {
                    appended.append(&mut pending);
                    proof {
                        lemma_trivias_concat(a0, p0);
                        lemma_no_trivia(pending@);
                    }
                    prev_semi = false;
                    seen_sep = true;
                }
            },
            FElem::Node(_) => {},
        }
        k = k + 1;
    }
    if pending.len() > 0 && (seen_sep || keep_final) {
        let ghost a0 = appended@;
        let ghost p0 = pending@;
        appended.append(&mut pending);
        proof {
            lemma_trivias_concat(a0, p0);
        }
    }
    appended
}

/// A chain body `s[lo..hi]` whose expression `e` (already lowered) sits at
/// `expr_at`, as [`chain_m`] says.
fn chain<'s>(
    tokens: &Vec<Token<'s>>,
    s: &Vec<FElem>,
    lo: usize,
    expr_at: usize,
    hi: usize,
    keep_final: bool,
    e: Cst<'s>,
) -> (r: Cst<'s>)
    requires
        lo <= expr_at < hi <= s.len(),
    ensures
        cst_model(r) == chain_m(
            ftoks(tokens@),
            s@,
            lo as int,
            expr_at as int,
            hi as int,
            keep_final,
            cst_model(e),
        ),
{
    let b = band(tokens, s, lo, expr_at);
    let c = prepend_deep(e, b);
    let extra = tail_band(tokens, s, expr_at + 1, hi, keep_final);
    append_leading(c, extra)
}

/// `items` with `pending` appended onto the last item's leading trivia
/// (`pending` is kept when there is no item).
fn flush_onto_last<'s>(items: &mut Vec<Cst<'s>>, pending: &mut Vec<Trivia<'s>>)
    ensures
        ({
            let st = flush_onto_last_m(
                ItemsM {
                    items: csts_model(old(items)@),
                    pending: trivias_model(old(pending)@),
                    expect_item: true,
                    prev_semi: true,
                },
            );
            &&& csts_model(final(items)@) == st.items
            &&& trivias_model(final(pending)@) == st.pending
        }),
{
    if items.len() > 0 {
        let ghost i0 = items@;
        let last = items.pop().unwrap();
        let ghost p0 = pending@;
        let mut none: Vec<Trivia<'s>> = Vec::new();
        std::mem::swap(&mut none, pending);
        let c = append_leading(last, none);
        proof {
            lemma_csts_push(items@, c);
            assert(i0 == items@.push(last));
            lemma_csts_push(items@, last);
            lemma_no_trivia(pending@);
        }
        items.push(c);
    }
}

/// The items between the delimiters of a call's argument list, a list or a
/// map.
fn args<'s>(tokens: &Vec<Token<'s>>, n: &FNode, is_map: bool) -> (r: Vec<Cst<'s>>)
    ensures
        csts_model(r@) == args_m(ftoks(tokens@), *n, is_map),
    decreases n, 2int,
{
    let ghost t = ftoks(tokens@);
    let s = &n.children;
    let open_at = first_at_x(s, Probe::Opener, 0);
    let hi = match last_before_x(s, Probe::Closer(None), s.len()) {
        Some(x) => x,
        None => s.len(),
    };
    let mut items: Vec<Cst<'s>> = Vec::new();
    let mut pending: Vec<Trivia<'s>> = Vec::new();
    let mut expect_item = true;
    let mut prev_semi = false;
    proof {
        lemma_no_trivia(pending@);
        assert(csts_model(items@) =~= Seq::<CstM>::empty());
    }
    if open_at < s.len() && open_at + 1 <= hi {
        let lo = open_at + 1;
        let mut k = lo;
        while k < hi
            invariant
                lo <= k <= hi <= s.len(),
                s == &n.children,
                t == ftoks(tokens@),
                csts_model(items@) == items_m(t, s@, lo as int, k as int, is_map).items,
                trivias_model(pending@) == items_m(t, s@, lo as int, k as int, is_map).pending,
                expect_item == items_m(t, s@, lo as int, k as int, is_map).expect_item,
                prev_semi == items_m(t, s@, lo as int, k as int, is_map).prev_semi,
            decreases hi - k,
        {
            let ghost st = items_m(t, s@, lo as int, k as int, is_map);
            let ghost i0 = items@;
            let ghost p0 = pending@;
            match &s[k] {
                FElem::Token(_, kind) => {
                    if kind.is_trivia() {
                        push_trivia(tokens, &mut pending, &s[k]);
                    } else if *kind == SyntaxKind::COMMA {
                        if expect_item {
                            let mut none: Vec<Trivia<'s>> = Vec::new();
                            std::mem::swap(&mut none, &mut pending);
                            let c = Cst { leading: none, kind: CstKind::Empty };
                            proof {
                                lemma_csts_push(items@, c);
                                lemma_no_trivia(pending@);
                            }
                            items.push(c);
                        } else if prev_semi {
                            flush_onto_last(&mut items, &mut pending);
                        }
                        expect_item = true;
                        prev_semi = false;
                    } else if *kind == SyntaxKind::SEMICOLON {
                        if prev_semi {
                            pending = Vec::new();
                            proof {
                                lemma_no_trivia(pending@);
                            }
                        } else {
                            flush_onto_last(&mut items, &mut pending);
                        }
                        prev_semi = true;
                    }
                },
                FElem::Node(m) => {
                    proof {
                        assert(decreases_to!(n => n.children@));
                        assert(decreases_to!(n.children@ => n.children@[k as int]));
                    }
                    let item = if is_map {
                        map_item(tokens, m)
                    } else {
                        expr(tokens, m)
                    };
                    let mut none: Vec<Trivia<'s>> = Vec::new();
                    std::mem::swap(&mut none, &mut pending);
                    let ghost nn = none@;
                    let c = item.with_leading(none);
                    proof {
                        lemma_with_leading_model(item, nn, c);
                        lemma_csts_push(items@, c);
                        lemma_no_trivia(pending@);
                    }
                    items.push(c);
                    expect_item = false;
                    prev_semi = false;
                },
            }
            k = k + 1;
        }
    }
    let ghost st = items_m(t, s@, open_at + 1, hi as int, is_map);
    if pending.len() > 0 {
        if items.len() == 0 {
            let c = Cst { leading: pending, kind: CstKind::Empty };
            let mut one: Vec<Cst<'s>> = Vec::new();
            proof {
                lemma_csts_push(one@, c);
                assert(csts_model(one@) =~= Seq::<CstM>::empty());
            }
            one.push(c);
            return one;
        } else {
            flush_onto_last(&mut items, &mut pending);
        }
    }
    items
}

/// One item of a map literal: the item-level pair `key -> value`, or a bare
/// key.
fn map_item<'s>(tokens: &Vec<Token<'s>>, n: &FNode) -> (r: Cst<'s>)
    ensures
        cst_model(r) == map_item_m(ftoks(tokens@), *n),
    decreases n, 4int,
{
    let s = &n.children;
    if n.kind == SyntaxKind::BIN_EXPR {
        match infix_parts(s) {
            Some((l, o, lo, rr)) => {
                if elem_kind_x(&s[o]) == SyntaxKind::ARROW {
                    proof {
                        assert(decreases_to!(n => n.children@));
                        assert(decreases_to!(n.children@ => n.children@[l as int]));
                        assert(decreases_to!(n.children@ => n.children@[rr as int]));
                    }
                    match (&s[l], &s[rr]) {
                        (FElem::Node(ln), FElem::Node(rn)) => {
                            let key = expr(tokens, ln);
                            let value = expr(tokens, rn);
                            let value = route_rhs_x(tokens, s, l, o, lo, rr, value);
                            return bare(
                                CstKind::MapEntry {
                                    key: Box::new(key),
                                    value: Some(Box::new(value)),
                                },
                            );
                        },
                        _ => {
                            return bare(CstKind::Empty);
                        },
                    }
                }
            },
            None => {},
        }
    }
    let key = expr(tokens, n);
    bare(CstKind::MapEntry { key: Box::new(key), value: None })
}

/// A node with no leading trivia.
fn bare<'s>(kind: CstKind<'s>) -> (r: Cst<'s>)
    ensures
        r.kind == kind,
        r.leading@.len() == 0,
        trivias_model(r.leading@) == Seq::<TriviaM>::empty(),
{
    let r = Cst::bare(kind);
    proof {
        lemma_no_trivia(r.leading@);
    }
    r
}

/// The compact tree of a literal or a name.
fn expr_leaf<'s>(tokens: &Vec<Token<'s>>, n: &FNode) -> (r: Cst<'s>)
    requires
        n.kind == SyntaxKind::LITERAL || n.kind == SyntaxKind::NAME_REF,
    ensures
        cst_model(r) == expr_m(ftoks(tokens@), *n),
{
    let s = &n.children;
    if s.len() > 0 {
        match &s[0] {
            FElem::Token(i, k) => {
                let text = token_text(tokens, *i);
                if n.kind == SyntaxKind::NAME_REF {
                    bare(CstKind::Ident(text))
                } else if *k == SyntaxKind::NUMBER {
                    bare(CstKind::Number(text))
                } else if *k == SyntaxKind::STRING {
                    bare(CstKind::Str(text))
                } else {
                    bare(CstKind::Empty)
                }
            },
            _ => bare(CstKind::Empty),
        }
    } else {
        bare(CstKind::Empty)
    }
}

/// The compact tree of a call.
fn expr_call<'s>(tokens: &Vec<Token<'s>>, n: &FNode) -> (r: Cst<'s>)
    requires
        n.kind == SyntaxKind::CALL_EXPR,
    ensures
        cst_model(r) == expr_m(ftoks(tokens@), *n),
    decreases n, 2int,
{
    let s = &n.children;
    let c = first_at_x(s, Probe::NodeOf(SyntaxKind::NAME_REF), 0);
    let a = first_at_x(s, Probe::NodeOf(SyntaxKind::ARG_LIST), 0);
    if c < s.len() && a < s.len() {
        proof {
            assert(decreases_to!(n => n.children@));
            assert(decreases_to!(n.children@ => n.children@[c as int]));
            assert(decreases_to!(n.children@ => n.children@[a as int]));
        }
        match (&s[c], &s[a]) {
            (FElem::Node(cn), FElem::Node(an)) => {
                let callee = expr(tokens, cn);
                let items = args(tokens, an, false);
                bare(CstKind::Call { callee: Box::new(callee), args: items })
            },
            _ => bare(CstKind::Empty),
        }
    } else {
        bare(CstKind::Empty)
    }
}

/// The compact tree of a parenthesized body.
fn expr_paren<'s>(tokens: &Vec<Token<'s>>, n: &FNode) -> (r: Cst<'s>)
    requires
        n.kind == SyntaxKind::PAREN_EXPR,
    ensures
        cst_model(r) == expr_m(ftoks(tokens@), *n),
    decreases n, 2int,
{
    let s = &n.children;
    if s.len() == 0 {
        return bare(CstKind::Empty);
    }
    let close = last_before_x(s, Probe::Closer(Some(SyntaxKind::R_PAREN)), s.len());
    let expr_at = first_at_x(s, Probe::Node, 1);
    match close {
        Some(close_at) => {
            if 1 <= expr_at && expr_at < close_at {
                proof {
                    assert(decreases_to!(n => n.children@));
                    assert(decreases_to!(n.children@ => n.children@[expr_at as int]));
                }
                match &s[expr_at] {
                    FElem::Node(e) => {
                        let inner = expr(tokens, e);
                        let body = chain(tokens, s, 1, expr_at, close_at, false, inner);
                        bare(CstKind::Paren(Box::new(body)))
                    },
                    _ => bare(CstKind::Empty),
                }
            } else {
                bare(CstKind::Empty)
            }
        },
        None => bare(CstKind::Empty),
    }
}

/// The compact tree of a prefix application.
fn expr_prefix<'s>(tokens: &Vec<Token<'s>>, n: &FNode) -> (r: Cst<'s>)
    requires
        n.kind == SyntaxKind::PREFIX_EXPR,
    ensures
        cst_model(r) == expr_m(ftoks(tokens@), *n),
    decreases n, 2int,
{
    let s = &n.children;
    let op_at = first_at_x(s, Probe::Sig, 0);
    let operand_at = first_at_x(s, Probe::Node, 0);
    if op_at < s.len() && operand_at < s.len() {
        proof {
            assert(decreases_to!(n => n.children@));
            assert(decreases_to!(n.children@ => n.children@[operand_at as int]));
        }
        match &s[operand_at] {
            FElem::Node(o) => {
                let op = match elem_kind_x(&s[op_at]) {
                    SyntaxKind::MINUS => UnaryOp::Neg,
                    SyntaxKind::PLUS => UnaryOp::Pos,
                    SyntaxKind::BANG => UnaryOp::Not,
                    _ => UnaryOp::Unpack,
                };
                let operand = expr(tokens, o);
                let b = band(tokens, s, 0, operand_at);
                let operand = prepend_deep(operand, b);
                bare(CstKind::Unary { op, operand: Box::new(operand) })
            },
            _ => bare(CstKind::Empty),
        }
    } else {
        bare(CstKind::Empty)
    }
}

/// The compact tree of a binary node: a function definition for `->`, a
/// binary operation otherwise.
fn expr_bin<'s>(tokens: &Vec<Token<'s>>, n: &FNode) -> (r: Cst<'s>)
    requires
        n.kind == SyntaxKind::BIN_EXPR,
    ensures
        cst_model(r) == expr_m(ftoks(tokens@), *n),
    decreases n, 2int,
{
    let s = &n.children;
    match infix_parts(s) {
        Some((l, o, lo, rr)) => {
            proof {
                assert(decreases_to!(n => n.children@));
                assert(decreases_to!(n.children@ => n.children@[l as int]));
                assert(decreases_to!(n.children@ => n.children@[rr as int]));
            }
            match (&s[l], &s[rr]) {
                (FElem::Node(ln), FElem::Node(rn)) => {
                    let lhs = expr(tokens, ln);
                    let rhs = expr(tokens, rn);
                    let rhs = route_rhs_x(tokens, s, l, o, lo, rr, rhs);
                    let op = elem_kind_x(&s[o]);
                    if op == SyntaxKind::ARROW {
                        bare(
                            CstKind::DefineFunction { signature: Box::new(lhs), body: Box::new(rhs) },
                        )
                    } else {
                        bare(
                            CstKind::Binary {
                                op: binop_of(op),
                                lhs: Box::new(lhs),
                                rhs: Box::new(rhs),
                            },
                        )
                    }
                },
                _ => bare(CstKind::Empty),
            }
        },
        None => bare(CstKind::Empty),
    }
}

/// The compact tree of an expression node.
fn expr<'s>(tokens: &Vec<Token<'s>>, n: &FNode) -> (r: Cst<'s>)
    ensures
        cst_model(r) == expr_m(ftoks(tokens@), *n),
    decreases n, 3int,
{
    if n.kind == SyntaxKind::LITERAL || n.kind == SyntaxKind::NAME_REF {
        expr_leaf(tokens, n)
    } else if n.kind == SyntaxKind::CALL_EXPR {
        expr_call(tokens, n)
    } else if n.kind == SyntaxKind::LIST_EXPR {
        bare(CstKind::List(args(tokens, n, false)))
    } else if n.kind == SyntaxKind::MAP_EXPR {
        bare(CstKind::MapLiteral(args(tokens, n, true)))
    } else if n.kind == SyntaxKind::PAREN_EXPR {
        expr_paren(tokens, n)
    } else if n.kind == SyntaxKind::PREFIX_EXPR {
        expr_prefix(tokens, n)
    } else if n.kind == SyntaxKind::BIN_EXPR {
        expr_bin(tokens, n)
    } else {
        bare(CstKind::Empty)
    }
}

/// The binary operator of an operator token.
fn binop_of(kind: SyntaxKind) -> (op: BinOp)
    ensures
        op == binop_m(kind),
{
    match kind {
        SyntaxKind::PLUS => BinOp::Add,
        SyntaxKind::MINUS => BinOp::Sub,
        SyntaxKind::STAR => BinOp::Mul,
        SyntaxKind::SLASH => BinOp::Div,
        SyntaxKind::PERCENT => BinOp::Rem,
        SyntaxKind::CARET => BinOp::Pow,
        SyntaxKind::EQ2 => BinOp::Eq,
        SyntaxKind::BANG_EQ => BinOp::NotEq,
        SyntaxKind::LT => BinOp::Lt,
        SyntaxKind::LT_EQ => BinOp::LtEq,
        SyntaxKind::GT => BinOp::Gt,
        SyntaxKind::GT_EQ => BinOp::GtEq,
        SyntaxKind::AMP2 => BinOp::And,
        SyntaxKind::PIPE2 => BinOp::Or,
        SyntaxKind::TILDE => BinOp::Match,
        SyntaxKind::COLON => BinOp::Get,
        SyntaxKind::EQ => BinOp::Assign,
        SyntaxKind::PLUS_EQ => BinOp::AddAssign,
        SyntaxKind::LT_GT => BinOp::Swap,
        SyntaxKind::SEMICOLON => BinOp::Semi,
        _ => BinOp::Comma,
    }
}

/// The compact tree of a whole program from the children of its root node:
/// the top-level chain, with trailing separators and trivia anchored on it.
pub fn from_root<'s>(tokens: &Vec<Token<'s>>, s: &Vec<FElem>) -> (r: Cst<'s>)
    ensures
        cst_model(r) == root_m(ftoks(tokens@), s@),
{
    let expr_at = first_at_x(s, Probe::Node, 0);
    if expr_at < s.len() {
        match &s[expr_at] {
            FElem::Node(e) => {
                let inner = expr(tokens, e);
                chain(tokens, s, 0, expr_at, s.len(), true, inner)
            },
            _ => bare(CstKind::Empty),
        }
    } else {
        bare(CstKind::Empty)
    }
}

// --------------------------------------------------------------------
// Operators
// --------------------------------------------------------------------

/// An infix node carries the operator its operator token spells: a token
/// whose fixed text is an operator's text gives that operator, and every
/// operator other than the fallback `,` comes from a token spelling it
/// (so `>=` gives `GtEq`, never `Gt`).
pub proof fn lemma_binop_spells_its_token(k: SyntaxKind, o: BinOp)
    ensures
        crate::syntax::spelling(k) == Some(op_text(o)) ==> binop_m(k) == o,
        binop_m(k) != BinOp::Comma ==> crate::syntax::spelling(k) == Some(op_text(binop_m(k))),
{
    if crate::syntax::spelling(k) == Some(op_text(o)) {
        assert(op_text(o).len() >= 1);
        assert(binop_m(k) == o) by {
            if op_text(o).len() == 1 {
                assert(op_text(o) =~= seq![op_text(o)[0]]);
            } else {
                assert(op_text(o) =~= seq![op_text(o)[0], op_text(o)[1]]);
            }
        }
    }
}

/// A prefix node carries the operator its operator token spells: a token
/// whose fixed text is a prefix operator's text gives that operator.
pub proof fn lemma_unop_spells_its_token(k: SyntaxKind, o: UnaryOp)
    ensures
        crate::syntax::spelling(k) == Some(unary_text(o)) ==> unop_m(k) == o,
        unop_m(k) != UnaryOp::Unpack ==> crate::syntax::spelling(k) == Some(unary_text(unop_m(k))),
{
    if crate::syntax::spelling(k) == Some(unary_text(o)) {
        assert(unop_m(k) == o) by {
            if unary_text(o).len() == 1 {
                assert(unary_text(o) =~= seq![unary_text(o)[0]]);
            } else {
                assert(unary_text(o) =~= seq![unary_text(o)[0], unary_text(o)[1], unary_text(o)[2]]);
            }
        }
    }
}

} // verus!
