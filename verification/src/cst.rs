//! The compact expression tree: each node carries the comments and line
//! breaks before it as its **leading trivia**; atoms borrow their text from
//! the source.

use vstd::prelude::*;

verus! {

/// A node of the compact tree: its leading trivia and what it is.
#[derive(Debug, PartialEq)]
pub struct Cst<'s> {
    pub leading: Vec<Trivia<'s>>,
    pub kind: CstKind<'s>,
}

/// A comment or a line break before a node.
#[derive(Debug, Clone, PartialEq, Eq)]
pub enum Trivia<'s> {
    Comment(&'s str),
    Break,
}

/// What a node of the compact tree is.
#[derive(Debug, PartialEq)]
pub enum CstKind<'s> {
    Number(&'s str),
    Str(&'s str),
    Ident(&'s str),
    Call { callee: Box<Cst<'s>>, args: Vec<Cst<'s>> },
    List(Vec<Cst<'s>>),
    /// A map literal `{…}`: its items.
    MapLiteral(Vec<Cst<'s>>),
    Paren(Box<Cst<'s>>),
    Empty,
    /// `signature -> body`: a function definition, any `->` outside the top
    /// level of a map item.
    DefineFunction { signature: Box<Cst<'s>>, body: Box<Cst<'s>> },
    /// One item of a map literal: a bare `key`, or the item-level pair
    /// `key -> value`.
    MapEntry { key: Box<Cst<'s>>, value: Option<Box<Cst<'s>>> },
    Binary { op: BinOp, lhs: Box<Cst<'s>>, rhs: Box<Cst<'s>> },
    Unary { op: UnaryOp, operand: Box<Cst<'s>> },
}

/// A binary operator of the compact tree; `;` and `,` included.
#[derive(Debug, Clone, Copy, PartialEq, Eq, Structural)]
pub enum BinOp {
    Add,
    Sub,
    Mul,
    Div,
    Rem,
    Pow,
    Eq,
    NotEq,
    Lt,
    LtEq,
    Gt,
    GtEq,
    And,
    Or,
    Match,
    Get,
    Assign,
    AddAssign,
    Swap,
    Semi,
    Comma,
}

/// A prefix operator of the compact tree.
#[derive(Debug, Clone, Copy, PartialEq, Eq, Structural)]
pub enum UnaryOp {
    Neg,
    Pos,
    Not,
    Unpack,
}

/// The text of a binary operator's token, as bytes.
pub open spec fn op_text(op: BinOp) -> Seq<u8> {
    match op {
        BinOp::Add => seq![0x2bu8],  // +
        BinOp::Sub => seq![0x2du8],  // -
        BinOp::Mul => seq![0x2au8],  // *
        BinOp::Div => seq![0x2fu8],  // /
        BinOp::Rem => seq![0x25u8],  // %
        BinOp::Pow => seq![0x5eu8],  // ^
        BinOp::Eq => seq![0x3du8, 0x3du8],  // ==
        BinOp::NotEq => seq![0x21u8, 0x3du8],  // !=
        BinOp::Lt => seq![0x3cu8],  // <
        BinOp::LtEq => seq![0x3cu8, 0x3du8],  // <=
        BinOp::Gt => seq![0x3eu8],  // >
        BinOp::GtEq => seq![0x3eu8, 0x3du8],  // >=
        BinOp::And => seq![0x26u8, 0x26u8],  // &&
        BinOp::Or => seq![0x7cu8, 0x7cu8],  // ||
        BinOp::Match => seq![0x7eu8],  // ~
        BinOp::Get => seq![0x3au8],  // :
        BinOp::Assign => seq![0x3du8],  // =
        BinOp::AddAssign => seq![0x2bu8, 0x3du8],  // +=
        BinOp::Swap => seq![0x3cu8, 0x3eu8],  // <>
        BinOp::Semi => seq![0x3bu8],  // ;
        BinOp::Comma => seq![0x2cu8],  // ,
    }
}

/// What a comparison or equality operator says of two numbers `x` (its
/// left operand) and `y` (its right); `false` for the other operators.
pub open spec fn op_relates(op: BinOp, x: int, y: int) -> bool {
    match op {
        BinOp::Eq => x == y,
        BinOp::NotEq => x != y,
        BinOp::Lt => x < y,
        BinOp::LtEq => x <= y,
        BinOp::Gt => x > y,
        BinOp::GtEq => x >= y,
        _ => false,
    }
}

/// What an arithmetic operator computes from two numbers `x` (its left
/// operand) and `y` (its right); `0` for the other operators.
pub open spec fn op_value(op: BinOp, x: int, y: int) -> int {
    match op {
        BinOp::Add => x + y,
        BinOp::Sub => x - y,
        BinOp::Mul => x * y,
        BinOp::Div => x / y,
        BinOp::Rem => x % y,
        _ => 0,
    }
}

/// The text of a prefix operator's token, as bytes.
pub open spec fn unary_text(op: UnaryOp) -> Seq<u8> {
    match op {
        UnaryOp::Neg => seq![0x2du8],  // -
        UnaryOp::Pos => seq![0x2bu8],  // +
        UnaryOp::Not => seq![0x21u8],  // !
        UnaryOp::Unpack => seq![0x2eu8, 0x2eu8, 0x2eu8],  // ...
    }
}

impl<'s> Cst<'s> {
    /// A node with no leading trivia.
    pub fn bare(kind: CstKind<'s>) -> (r: Self)
        ensures
            r.leading@.len() == 0,
            r.kind == kind,
    {
        Cst { leading: Vec::new(), kind }
    }

    /// The node with `leading` placed before its own leading trivia.
    pub fn with_leading(self, leading: Vec<Trivia<'s>>) -> (r: Self)
        ensures
            r.leading@ == leading@ + self.leading@,
            r.kind == self.kind,
    {
        if leading.len() == 0 {
            proof {
                assert(leading@ + self.leading@ =~= self.leading@);
            }
            return self;
        }
        let mut leading = leading;
        let mut own = self.leading;
        leading.append(&mut own);
        Cst { leading, kind: self.kind }
    }
}

// --------------------------------------------------------------------
// The value of a compact tree
// --------------------------------------------------------------------

/// The value of a [`Trivia`].
pub enum TriviaM {
    Comment(Seq<char>),
    Break,
}

/// The value of a compact-tree node: its leading trivia and what it is.
pub struct CstM {
    pub leading: Seq<TriviaM>,
    pub kind: KindM,
}

/// The value of a [`CstKind`].
pub enum KindM {
    Number(Seq<char>),
    Str(Seq<char>),
    Ident(Seq<char>),
    Call { callee: Box<CstM>, args: Seq<CstM> },
    List(Seq<CstM>),
    MapLiteral(Seq<CstM>),
    Paren(Box<CstM>),
    Empty,
    DefineFunction { signature: Box<CstM>, body: Box<CstM> },
    MapEntry { key: Box<CstM>, value: Option<Box<CstM>> },
    Binary { op: BinOp, lhs: Box<CstM>, rhs: Box<CstM> },
    Unary { op: UnaryOp, operand: Box<CstM> },
}

/// The value of one trivia item.
pub open spec fn trivia_model(t: Trivia) -> TriviaM {
    match t {
        Trivia::Comment(s) => TriviaM::Comment(s@),
        Trivia::Break => TriviaM::Break,
    }
}

/// The value of a trivia run.
pub open spec fn trivias_model(s: Seq<Trivia>) -> Seq<TriviaM> {
    s.map_values(|t: Trivia| trivia_model(t))
}

/// The value of a compact tree.
pub open spec fn cst_model(c: Cst) -> CstM
    decreases c,
{
    CstM {
        leading: trivias_model(c.leading@),
        kind: match c.kind {
            CstKind::Number(s) => KindM::Number(s@),
            CstKind::Str(s) => KindM::Str(s@),
            CstKind::Ident(s) => KindM::Ident(s@),
            CstKind::Call { callee, args } => KindM::Call {
                callee: Box::new(cst_model(*callee)),
                args: csts_model(args@),
            },
            CstKind::List(items) => KindM::List(csts_model(items@)),
            CstKind::MapLiteral(items) => KindM::MapLiteral(csts_model(items@)),
            CstKind::Paren(inner) => KindM::Paren(Box::new(cst_model(*inner))),
            CstKind::Empty => KindM::Empty,
            CstKind::DefineFunction { signature, body } => KindM::DefineFunction {
                signature: Box::new(cst_model(*signature)),
                body: Box::new(cst_model(*body)),
            },
            CstKind::MapEntry { key, value } => KindM::MapEntry {
                key: Box::new(cst_model(*key)),
                value: match value {
                    Some(v) => Some(Box::new(cst_model(*v))),
                    None => None,
                },
            },
            CstKind::Binary { op, lhs, rhs } => KindM::Binary {
                op,
                lhs: Box::new(cst_model(*lhs)),
                rhs: Box::new(cst_model(*rhs)),
            },
            CstKind::Unary { op, operand } => KindM::Unary {
                op,
                operand: Box::new(cst_model(*operand)),
            },
        },
    }
}

/// The values of a sequence of compact trees.
pub open spec fn csts_model(s: Seq<Cst>) -> Seq<CstM>
    decreases s,
{
    if s.len() == 0 {
        seq![]
    } else {
        proof {
            assert(decreases_to!(s => s[s.len() - 1]));
            assert(decreases_to!(s => s.drop_last()));
        }
        csts_model(s.drop_last()).push(cst_model(s.last()))
    }
}

/// `r` is `c` with all leading trivia removed, recursively.
pub open spec fn stripped<'s>(r: Cst<'s>, c: Cst<'s>) -> bool
    decreases c,
{
    &&& r.leading@.len() == 0
    &&& match c.kind {
        CstKind::Number(a) => r.kind == CstKind::Number(a),
        CstKind::Str(a) => r.kind == CstKind::Str(a),
        CstKind::Ident(a) => r.kind == CstKind::Ident(a),
        CstKind::Empty => r.kind == CstKind::<'s>::Empty,
        CstKind::Call { callee, args } => match r.kind {
            CstKind::Call { callee: rc, args: ra } => {
                &&& stripped(*rc, *callee)
                &&& ra.len() == args.len()
                &&& forall|i: int| 0 <= i < args.len() ==> stripped(ra@[i], #[trigger] args@[i])
            },
            _ => false,
        },
        CstKind::List(items) => match r.kind {
            CstKind::List(ri) => ri.len() == items.len() && forall|i: int|
                0 <= i < items.len() ==> stripped(ri@[i], #[trigger] items@[i]),
            _ => false,
        },
        CstKind::MapLiteral(items) => match r.kind {
            CstKind::MapLiteral(ri) => ri.len() == items.len() && forall|i: int|
                0 <= i < items.len() ==> stripped(ri@[i], #[trigger] items@[i]),
            _ => false,
        },
        CstKind::Paren(inner) => match r.kind {
            CstKind::Paren(ri) => stripped(*ri, *inner),
            _ => false,
        },
        CstKind::DefineFunction { signature, body } => match r.kind {
            CstKind::DefineFunction { signature: rs, body: rb } => stripped(*rs, *signature)
                && stripped(*rb, *body),
            _ => false,
        },
        CstKind::MapEntry { key, value } => match r.kind {
            CstKind::MapEntry { key: rk, value: rv } => stripped(*rk, *key) && match value {
                Some(v) => rv matches Some(x) && stripped(*x, *v),
                None => rv is None,
            },
            _ => false,
        },
        CstKind::Binary { op, lhs, rhs } => match r.kind {
            CstKind::Binary { op: ro, lhs: rl, rhs: rr } => ro == op && stripped(*rl, *lhs)
                && stripped(*rr, *rhs),
            _ => false,
        },
        CstKind::Unary { op, operand } => match r.kind {
            CstKind::Unary { op: ro, operand: rx } => ro == op && stripped(*rx, *operand),
            _ => false,
        },
    }
}

/// The nodes of `items`, each with all leading trivia removed.
fn strip_all<'s>(items: &Vec<Cst<'s>>) -> (r: Vec<Cst<'s>>)
    ensures
        r.len() == items.len(),
        forall|i: int| 0 <= i < items.len() ==> stripped(r@[i], #[trigger] items@[i]),
    decreases items,
{
    let mut out: Vec<Cst<'s>> = Vec::new();
    let mut i: usize = 0;
    while i < items.len()
        invariant
            i <= items.len(),
            out.len() == i,
            forall|k: int| 0 <= k < i ==> stripped(out@[k], #[trigger] items@[k]),
        decreases items.len() - i,
    {
        proof {
            assert(decreases_to!(items => items@[i as int]));
        }
        out.push(strip_trivia(&items[i]));
        i = i + 1;
    }
    out
}

/// A copy of `cst` with all leading trivia removed, recursively: two trees
/// that differ only in comments and breaks strip to the same tree.
pub fn strip_trivia<'s>(cst: &Cst<'s>) -> (r: Cst<'s>)
    ensures
        stripped(r, *cst),
    decreases cst,
{
    let kind = match &cst.kind {
        CstKind::Call { callee, args } => CstKind::Call {
            callee: Box::new(strip_trivia(callee)),
            args: strip_all(args),
        },
        CstKind::List(items) => CstKind::List(strip_all(items)),
        CstKind::MapLiteral(items) => CstKind::MapLiteral(strip_all(items)),
        CstKind::Paren(inner) => CstKind::Paren(Box::new(strip_trivia(inner))),
        CstKind::DefineFunction { signature, body } => CstKind::DefineFunction {
            signature: Box::new(strip_trivia(signature)),
            body: Box::new(strip_trivia(body)),
        },
        CstKind::MapEntry { key, value } => CstKind::MapEntry {
            key: Box::new(strip_trivia(key)),
            value: match value {
                Some(v) => Some(Box::new(strip_trivia(v))),
                None => None,
            },
        },
        CstKind::Binary { op, lhs, rhs } => CstKind::Binary {
            op: *op,
            lhs: Box::new(strip_trivia(lhs)),
            rhs: Box::new(strip_trivia(rhs)),
        },
        CstKind::Unary { op, operand } => CstKind::Unary {
            op: *op,
            operand: Box::new(strip_trivia(operand)),
        },
        CstKind::Number(s) => CstKind::Number(s),
        CstKind::Str(s) => CstKind::Str(s),
        CstKind::Ident(s) => CstKind::Ident(s),
        CstKind::Empty => CstKind::Empty,
    };
    Cst { leading: Vec::new(), kind }
}

// --------------------------------------------------------------------
// Stripping trivia
// --------------------------------------------------------------------

/// Sequences of trees with pointwise equal values have equal values.
proof fn lemma_csts_model_pointwise(a: Seq<Cst>, b: Seq<Cst>)
    requires
        a.len() == b.len(),
        forall|i: int| 0 <= i < a.len() ==> cst_model(#[trigger] a[i]) == cst_model(b[i]),
    ensures
        csts_model(a) == csts_model(b),
    decreases a.len(),
{
    if a.len() > 0 {
        assert forall|i: int| 0 <= i < a.len() - 1 implies cst_model(
            #[trigger] a.drop_last()[i],
        ) == cst_model(b.drop_last()[i]) by {
            assert(cst_model(a[i]) == cst_model(b[i]));
        }
        lemma_csts_model_pointwise(a.drop_last(), b.drop_last());
        assert(cst_model(a[a.len() - 1]) == cst_model(b[b.len() - 1]));
    }
}

/// The value of a sequence of trees holds the value of each, in order.
proof fn lemma_csts_model_index(s: Seq<Cst>)
    ensures
        csts_model(s).len() == s.len(),
        forall|i: int| 0 <= i < s.len() ==> #[trigger] csts_model(s)[i] == cst_model(s[i]),
    decreases s.len(),
{
    if s.len() > 0 {
        lemma_csts_model_index(s.drop_last());
        assert forall|i: int| 0 <= i < s.len() implies #[trigger] csts_model(s)[i] == cst_model(s[i]) by {
            if i < s.len() - 1 {
                assert(s.drop_last()[i] == s[i]);
            }
        }
    }
}

/// Sequences of trees with equal values hold trees of pointwise equal values.
proof fn lemma_csts_model_eq(a: Seq<Cst>, b: Seq<Cst>)
    requires
        csts_model(a) == csts_model(b),
    ensures
        a.len() == b.len(),
        forall|i: int| 0 <= i < a.len() ==> cst_model(#[trigger] a[i]) == cst_model(b[i]),
{
    lemma_csts_model_index(a);
    lemma_csts_model_index(b);
    assert(a.len() == b.len());
    assert forall|i: int| 0 <= i < a.len() implies cst_model(#[trigger] a[i]) == cst_model(b[i]) by {
        assert(csts_model(a)[i] == cst_model(a[i]));
        assert(csts_model(b)[i] == cst_model(b[i]));
    }
}

/// What stripping makes of a node depends only on the value of what the
/// node is, not on its leading trivia: strippings of two nodes whose kinds
/// have the same value have the same value.
pub proof fn lemma_stripped_unique(x: Cst, c: Cst, y: Cst, d: Cst)
    requires
        stripped(x, c),
        stripped(y, d),
        cst_model(c).kind == cst_model(d).kind,
    ensures
        cst_model(x) == cst_model(y),
    decreases c,
{
    assert(x.leading@ =~= y.leading@);
    match (c.kind, d.kind) {
        (CstKind::Call { callee: cc, args: ca }, CstKind::Call { callee: dc, args: da }) => {
            match (x.kind, y.kind) {
                (CstKind::Call { callee: xc, args: xa }, CstKind::Call { callee: yc, args: ya }) => {
                    lemma_stripped_unique(*xc, *cc, *yc, *dc);
                    lemma_csts_model_eq(ca@, da@);
                    assert forall|i: int| 0 <= i < xa@.len() implies cst_model(#[trigger] xa@[i])
                        == cst_model(ya@[i]) by {
                        assert(decreases_to!(c => ca@[i]));
                        assert(cst_model(ca@[i]) == cst_model(da@[i]));
                        lemma_stripped_unique(xa@[i], ca@[i], ya@[i], da@[i]);
                    }
                    lemma_csts_model_pointwise(xa@, ya@);
                },
                _ => {},
            }
        },
        (CstKind::List(ci), CstKind::List(di)) => {
            match (x.kind, y.kind) {
                (CstKind::List(xa), CstKind::List(ya)) => {
                    lemma_csts_model_eq(ci@, di@);
                    assert forall|i: int| 0 <= i < xa@.len() implies cst_model(#[trigger] xa@[i])
                        == cst_model(ya@[i]) by {
                        assert(decreases_to!(c => ci@[i]));
                        assert(cst_model(ci@[i]) == cst_model(di@[i]));
                        lemma_stripped_unique(xa@[i], ci@[i], ya@[i], di@[i]);
                    }
                    lemma_csts_model_pointwise(xa@, ya@);
                },
                _ => {},
            }
        },
        (CstKind::MapLiteral(ci), CstKind::MapLiteral(di)) => {
            match (x.kind, y.kind) {
                (CstKind::MapLiteral(xa), CstKind::MapLiteral(ya)) => {
                    lemma_csts_model_eq(ci@, di@);
                    assert forall|i: int| 0 <= i < xa@.len() implies cst_model(#[trigger] xa@[i])
                        == cst_model(ya@[i]) by {
                        assert(decreases_to!(c => ci@[i]));
                        assert(cst_model(ci@[i]) == cst_model(di@[i]));
                        lemma_stripped_unique(xa@[i], ci@[i], ya@[i], di@[i]);
                    }
                    lemma_csts_model_pointwise(xa@, ya@);
                },
                _ => {},
            }
        },
        (CstKind::Paren(ci), CstKind::Paren(di)) => {
            match (x.kind, y.kind) {
                (CstKind::Paren(a), CstKind::Paren(b)) => lemma_stripped_unique(*a, *ci, *b, *di),
                _ => {},
            }
        },
        (
            CstKind::DefineFunction { signature: cs, body: cb },
            CstKind::DefineFunction { signature: ds, body: db },
        ) => {
            match (x.kind, y.kind) {
                (
                    CstKind::DefineFunction { signature: xs, body: xb },
                    CstKind::DefineFunction { signature: ys, body: yb },
                ) => {
                    lemma_stripped_unique(*xs, *cs, *ys, *ds);
                    lemma_stripped_unique(*xb, *cb, *yb, *db);
                },
                _ => {},
            }
        },
        (CstKind::MapEntry { key: ck, value: cv }, CstKind::MapEntry { key: dk, value: dv }) => {
            match (x.kind, y.kind) {
                (CstKind::MapEntry { key: xk, value: xv }, CstKind::MapEntry { key: yk, value: yv }) => {
                    lemma_stripped_unique(*xk, *ck, *yk, *dk);
                    match (cv, dv, xv, yv) {
                        (Some(a), Some(b), Some(p), Some(q)) => lemma_stripped_unique(*p, *a, *q, *b),
                        _ => {},
                    }
                },
                _ => {},
            }
        },
        (CstKind::Binary { lhs: cl, rhs: cr, .. }, CstKind::Binary { lhs: dl, rhs: dr, .. }) => {
            match (x.kind, y.kind) {
                (CstKind::Binary { lhs: xl, rhs: xr, .. }, CstKind::Binary { lhs: yl, rhs: yr, .. }) => {
                    lemma_stripped_unique(*xl, *cl, *yl, *dl);
                    lemma_stripped_unique(*xr, *cr, *yr, *dr);
                },
                _ => {},
            }
        },
        (CstKind::Unary { operand: co, .. }, CstKind::Unary { operand: dop, .. }) => {
            match (x.kind, y.kind) {
                (CstKind::Unary { operand: a, .. }, CstKind::Unary { operand: b, .. }) => {
                    lemma_stripped_unique(*a, *co, *b, *dop);
                },
                _ => {},
            }
        },
        _ => {},
    }
}

/// A stripped tree is its own stripping.
proof fn lemma_stripped_self(r: Cst, c: Cst)
    requires
        stripped(r, c),
    ensures
        stripped(r, r),
    decreases c,
{
    match c.kind {
        CstKind::Call { callee, args } => {
            match r.kind {
                CstKind::Call { callee: rc, args: ra } => {
                    lemma_stripped_self(*rc, *callee);
                    assert forall|i: int| 0 <= i < ra.len() implies stripped(ra@[i], #[trigger] ra@[i]) by {
                        assert(decreases_to!(c => args@[i]));
                        lemma_stripped_self(ra@[i], args@[i]);
                    }
                },
                _ => {},
            }
        },
        CstKind::List(items) => {
            match r.kind {
                CstKind::List(ri) => {
                    assert forall|i: int| 0 <= i < ri.len() implies stripped(ri@[i], #[trigger] ri@[i]) by {
                        assert(decreases_to!(c => items@[i]));
                        lemma_stripped_self(ri@[i], items@[i]);
                    }
                },
                _ => {},
            }
        },
        CstKind::MapLiteral(items) => {
            match r.kind {
                CstKind::MapLiteral(ri) => {
                    assert forall|i: int| 0 <= i < ri.len() implies stripped(ri@[i], #[trigger] ri@[i]) by {
                        assert(decreases_to!(c => items@[i]));
                        lemma_stripped_self(ri@[i], items@[i]);
                    }
                },
                _ => {},
            }
        },
        CstKind::Paren(inner) => {
            match r.kind {
                CstKind::Paren(a) => lemma_stripped_self(*a, *inner),
                _ => {},
            }
        },
        CstKind::DefineFunction { signature, body } => {
            match r.kind {
                CstKind::DefineFunction { signature: rs, body: rb } => {
                    lemma_stripped_self(*rs, *signature);
                    lemma_stripped_self(*rb, *body);
                },
                _ => {},
            }
        },
        CstKind::MapEntry { key, value } => {
            match r.kind {
                CstKind::MapEntry { key: rk, value: rv } => {
                    lemma_stripped_self(*rk, *key);
                    match (value, rv) {
                        (Some(v), Some(a)) => lemma_stripped_self(*a, *v),
                        _ => {},
                    }
                },
                _ => {},
            }
        },
        CstKind::Binary { lhs, rhs, .. } => {
            match r.kind {
                CstKind::Binary { lhs: rl, rhs: rr, .. } => {
                    lemma_stripped_self(*rl, *lhs);
                    lemma_stripped_self(*rr, *rhs);
                },
                _ => {},
            }
        },
        CstKind::Unary { operand, .. } => {
            match r.kind {
                CstKind::Unary { operand: a, .. } => lemma_stripped_self(*a, *operand),
                _ => {},
            }
        },
        _ => {},
    }
}

/// Stripping is idempotent: stripping a stripped tree again changes
/// nothing of its value.
pub proof fn lemma_strip_idempotent(c: Cst, r: Cst, r2: Cst)
    requires
        stripped(r, c),
        stripped(r2, r),
    ensures
        cst_model(r2) == cst_model(r),
{
    lemma_stripped_self(r, c);
    lemma_stripped_unique(r2, r, r, r);
}

/// Leading trivia do not survive stripping: a node given more leading
/// trivia in front ([`Cst::with_leading`]), of a copy of it too
/// ([`copy_cst`]), strips to the same value as the node itself.
pub proof fn lemma_strip_erases_leading(c: Cst, t: Seq<Trivia>, d: Cst, r: Cst, r2: Cst)
    requires
        d.leading@ == t + c.leading@,
        cst_model(d).kind == cst_model(c).kind,
        stripped(r, c),
        stripped(r2, d),
    ensures
        cst_model(r2) == cst_model(r),
{
    lemma_stripped_unique(r2, d, r, c);
}

// --------------------------------------------------------------------
// Copying a tree
// --------------------------------------------------------------------

/// A copy of one trivia item.
fn copy_trivia<'s>(t: &Trivia<'s>) -> (r: Trivia<'s>)
    ensures
        r == *t,
{
    match t {
        Trivia::Comment(s) => Trivia::Comment(s),
        Trivia::Break => Trivia::Break,
    }
}

/// A copy of a trivia run.
fn copy_trivias<'s>(v: &Vec<Trivia<'s>>) -> (r: Vec<Trivia<'s>>)
    ensures
        r@ == v@,
{
    let mut out: Vec<Trivia<'s>> = Vec::new();
    let mut i: usize = 0;
    while i < v.len()
        invariant
            i <= v.len(),
            out@ == v@.take(i as int),
        decreases v.len() - i,
    {
        out.push(copy_trivia(&v[i]));
        proof {
            assert(out@ =~= v@.take(i + 1));
        }
        i = i + 1;
    }
    proof {
        assert(v@.take(v.len() as int) =~= v@);
    }
    out
}

/// Copies of the trees of `items`.
fn copy_all<'s>(items: &Vec<Cst<'s>>) -> (r: Vec<Cst<'s>>)
    ensures
        csts_model(r@) == csts_model(items@),
    decreases items,
{
    let mut out: Vec<Cst<'s>> = Vec::new();
    let mut i: usize = 0;
    while i < items.len()
        invariant
            i <= items.len(),
            csts_model(out@) == csts_model(items@.take(i as int)),
        decreases items.len() - i,
    {
        proof {
            assert(decreases_to!(items => items@[i as int]));
        }
        let c = copy_cst(&items[i]);
        let ghost before = out@;
        out.push(c);
        proof {
            assert(out@.drop_last() =~= before);
            assert(items@.take(i + 1).drop_last() =~= items@.take(i as int));
        }
        i = i + 1;
    }
    proof {
        assert(items@.take(items.len() as int) =~= items@);
    }
    out
}

/// A copy of a node's kind: under any leading trivia, the same value.
fn copy_kind<'s>(k: &CstKind<'s>) -> (r: CstKind<'s>)
    ensures
        forall|l: Vec<Trivia<'s>>|
            #[trigger] cst_model(Cst { leading: l, kind: r }) == cst_model(Cst { leading: l, kind: *k }),
    decreases k,
{
    match k {
        CstKind::Number(s) => CstKind::Number(s),
        CstKind::Str(s) => CstKind::Str(s),
        CstKind::Ident(s) => CstKind::Ident(s),
        CstKind::Empty => CstKind::Empty,
        CstKind::Call { callee, args } => CstKind::Call {
            callee: Box::new(copy_cst(callee)),
            args: copy_all(args),
        },
        CstKind::List(items) => CstKind::List(copy_all(items)),
        CstKind::MapLiteral(items) => CstKind::MapLiteral(copy_all(items)),
        CstKind::Paren(inner) => CstKind::Paren(Box::new(copy_cst(inner))),
        CstKind::DefineFunction { signature, body } => CstKind::DefineFunction {
            signature: Box::new(copy_cst(signature)),
            body: Box::new(copy_cst(body)),
        },
        CstKind::MapEntry { key, value } => CstKind::MapEntry {
            key: Box::new(copy_cst(key)),
            value: match value {
                Some(v) => Some(Box::new(copy_cst(v))),
                None => None,
            },
        },
        CstKind::Binary { op, lhs, rhs } => CstKind::Binary {
            op: *op,
            lhs: Box::new(copy_cst(lhs)),
            rhs: Box::new(copy_cst(rhs)),
        },
        CstKind::Unary { op, operand } => CstKind::Unary {
            op: *op,
            operand: Box::new(copy_cst(operand)),
        },
    }
}

/// A copy of `c`: a tree with the same value.
pub fn copy_cst<'s>(c: &Cst<'s>) -> (r: Cst<'s>)
    ensures
        cst_model(r) == cst_model(*c),
    decreases c,
{
    let leading = copy_trivias(&c.leading);
    let kind = copy_kind(&c.kind);
    let r = Cst { leading, kind };
    proof {
        assert(cst_model(Cst { leading: r.leading, kind: c.kind }) == cst_model(*c));
    }
    r
}

impl<'s> Clone for Cst<'s> {
    /// A copy of the tree: the same value ([`copy_cst`]).
    fn clone(&self) -> (r: Self)
        ensures
            cst_model(r) == cst_model(*self),
    {
        copy_cst(self)
    }
}

impl<'s> Clone for CstKind<'s> {
    /// A copy of the kind: under any leading trivia, the same value.
    fn clone(&self) -> (r: Self)
        ensures
            forall|l: Vec<Trivia<'s>>|
                #[trigger] cst_model(Cst { leading: l, kind: r }) == cst_model(Cst { leading: l, kind: *self }),
    {
        copy_kind(self)
    }
}

} // verus!
