//! The abstract syntax tree: a structured, trivia-free lowering of the
//! compact tree ([`Cst`]) that encodes the precedence ladder into the types,
//! one type per level.
//!
//! The shape, low → high:
//!
//! - `,` → [`Args`]`(VecDeque<Code>)` — argument / element lists, paren
//!   bodies, the root
//! - `;` → [`Code`]`(Vec<Expr>)` — a statement sequence
//! - `->` → [`Expr`] — every `->` at this level is a function definition
//!   ([`CstKind::DefineFunction`] → [`Expr::Def`]); a map item's key/value
//!   arrow lowers with the map, as a [`MapEntry`]
//! - `=` `+=` `<>` → [`Assign`] — an [`LValue`] target with an [`AssignOp`]
//! - `||` `&&` `==`/`!=` `<`/`<=`/`>`/`>=` `+`/`-` `*`/`/`/`%` `^` → one enum
//!   per level ([`Lor`], [`Land`], [`Equality`], [`Compare`], [`Additive`],
//!   [`Mult`], [`Power`])
//! - prefix `-` `+` `!` `...` → [`Unary`]
//! - `~` `:` → [`Get`]
//! - atoms, calls, `[...]`, `{...}`, `(...)` → [`Primary`]
//!
//! Lowering is fallible where a structured **target** or **parameter list**
//! is required, so a malformed one yields a [`LowerError`] rather than a
//! silently wrong tree. Every borrowed `&'s str` points back into the source,
//! as in the [`Cst`].

use std::collections::VecDeque;

use vstd::prelude::*;

use crate::cst::{BinOp, Cst, CstKind, UnaryOp, op_relates, op_text, op_value, stripped, unary_text};

verus! {

/// `,`-separated sequence: call arguments, list elements, a parenthesized
/// body, and the program root (the grammar's `top`). Each element is a full
/// [`Code`] (statement sequence), so `[a; b, c]` is two elements `a; b` and `c`.
/// (Map items are [`MapEntry`]s, not a plain `Args`.)
#[derive(Debug, PartialEq, Eq)]
pub struct Args<'s>(pub VecDeque<Code<'s>>);

/// `;`-separated statement sequence; the value is the last [`Expr`]. A lone
/// expression is a one-element `Code`.
#[derive(Debug, PartialEq, Eq)]
pub struct Code<'s>(pub Vec<Expr<'s>>);

/// The `->` level. Right-associative: `a -> b -> c` is `a -> (b -> c)`.
#[derive(Debug, PartialEq, Eq)]
pub enum Expr<'s> {
    /// `name(params) -> body` — a function definition (the left of `->` is a
    /// call). The anonymous form `_(x) -> …` is just `name == "_"`.
    ///
    /// `params` are a [`Params`]: plain positional binders, `outer(x)`-style
    /// [`Capture`]s, and at most one `...rest`. Lowering has already classified and
    /// validated them, so the evaluator binds without re-checking.
    Def {
        name: &'s str,
        params: Params<'s>,
        body: Box<Expr<'s>>,
    },
    /// No `->` at this level — an assignment-or-tighter expression.
    Assign(Assign<'s>),
}

/// The assignment level (`=`, `+=`, `<>`). Right-associative, so `a = b = 5`
/// nests on the right. The left of the operator is an [`LValue`] target,
/// validated at lowering — the evaluator never sees a non-assignable shape.
#[derive(Debug, PartialEq, Eq)]
pub enum Assign<'s> {
    /// `target <op> value`. `target` is a structurally valid [`LValue`] (a
    /// [`Place`] or a destructuring list); a non-assignable left side is a
    /// [`LowerError::NotAssignable`] rather than a runtime error.
    Store {
        target: LValue<'s>,
        op: AssignOp,
        value: Box<Assign<'s>>,
    },
    /// No assignment at this level — a logical-or-or-tighter expression.
    Lor(Lor<'s>),
}

/// Which assignment operator joins a [`Assign::Store`].
#[derive(Debug, Clone, Copy, PartialEq, Eq)]
pub enum AssignOp {
    /// `=`
    Assign,
    /// `+=`
    Add,
    /// `<>`
    Swap,
}

// ====================================================================
// Function parameters — a flat, faithful-to-Scarpet signature
// ====================================================================

/// A function's parameter list, lowered from `f(<params>) -> body`. Structured so
/// binding is direct: [`fixed`](Params::fixed) binders consume arguments by
/// position, [`captures`](Params::captures) (`outer(x)`) pull from the defining
/// scope *without* consuming a position, and the single optional
/// [`rest`](Params::rest) collects the trailing arguments (an empty list when none
/// remain). Variables, `outer`, and one vararg are the *only* legal parameters —
/// a literal or nested pattern makes the signature invalid.
#[derive(Debug, PartialEq, Eq)]
pub struct Params<'s> {
    /// Positional binders, in order — each consumes one argument.
    pub fixed: Vec<&'s str>,
    /// Reserved-word captures such as `outer(x)`; these do not consume a
    /// positional argument.
    pub captures: Vec<Capture<'s>>,
    /// The single optional vararg `...rest`. At most one per signature (a second
    /// is a [`LowerError::MultipleRest`]).
    pub rest: Option<&'s str>,
}

/// A reserved-word parameter capture, e.g. `outer(x)`. The [`word`](Capture::word)
/// is an enum so a new reserved binder is one variant away, with no reshaping of
/// [`Params`].
#[derive(Debug, PartialEq, Eq)]
pub struct Capture<'s> {
    /// Which reserved word wraps the binder.
    pub word: ParamWord,
    /// The captured variable name (the `x` in `outer(x)`).
    pub name: &'s str,
}

/// A reserved word that may wrap a parameter in a signature. Today only `outer`
/// exists; adding a variant here (and a case in `param_word`) introduces a new
/// one.
#[derive(Debug, Clone, Copy, PartialEq, Eq)]
pub enum ParamWord {
    /// `outer(x)` — capture `x` from the defining scope.
    Outer,
}

// ====================================================================
// Assignment targets (l-values) — a recursive, always-executable shape
// ====================================================================

/// An assignment target: the left of `=`, `+=`, `<>`. Lowering rejects a shape
/// that can never be a place (`1 = 2`, `a + b = c`, `a ~ b = c`) as
/// [`LowerError::NotAssignable`]. The structured variants ([`Place`],
/// [`Destructure`](LValue::Destructure)) are executable by construction; the lone
/// dynamic variant ([`Computed`](LValue::Computed)) mirrors Scarpet's runtime
/// l-value model, where any call returning a *bound* value is a place.
#[derive(Debug, PartialEq, Eq)]
pub enum LValue<'s> {
    /// A single writable place: `x`, `var(e)`, or `a:b:c`.
    Place(Place<'s>),
    /// A destructuring list, binding several places at once
    /// (see [`LPatterns`]).
    Destructure(LPatterns<'s>),
    /// A place produced by evaluating a call — `if(c, a, b) = …`, where the call
    /// returns one of its bound arguments. This is the one l-value resolved
    /// dynamically (Scarpet decides assignability at runtime by whether the value
    /// is bound), so only a call — never a literal or operator — reaches here.
    Computed(Box<Primary<'s>>),
}

/// A single writable place. The base of an [`Index`](Place::Index) is itself a
/// [`Place`], so "indexing a destructuring list" is unrepresentable by
/// construction.
#[derive(Debug, PartialEq, Eq)]
pub enum Place<'s> {
    /// A plain variable: `x`. A `global_*` name is still a [`Var`](Place::Var) —
    /// the global routing is by name prefix, decided when binding.
    Var(&'s str),
    /// A dynamically named variable: `var(<expr>)`. The argument's string value is
    /// the variable name.
    DynVar(Box<Code<'s>>),
    /// A container element: `base:key`, nestable as `a:b:c`. `key` is an ordinary
    /// expression evaluated to the address; only `:` (not `~`) reaches here.
    Index {
        base: Box<Place<'s>>,
        key: Primary<'s>,
    },
}

/// The elements of a destructuring [`LValue::Destructure`]: a fixed front, an
/// optional single rest binder, and a fixed tail after it. One rest per level
/// keeps the split unambiguous — `[a, ...mid, b]` binds `a` from the front, `b`
/// from the back, and `mid` the middle. A second `...` at this level is a
/// [`LowerError::MultipleRest`]; a nested list carries its own [`LPatterns`], so a
/// rest inside it is a different level.
#[derive(Debug, PartialEq, Eq)]
pub struct LPatterns<'s> {
    /// Elements before the rest binder — or all of them, when there is no rest.
    pub before: Vec<LValue<'s>>,
    /// The rest binder `...x` and the elements after it, when a rest is present.
    pub rest: Option<LRest<'s>>,
}

/// The rest binder `...x` of an [`LPatterns`], plus any elements after it (the
/// `b` in `[a, ...x, b]`). The binder is itself an [`LValue`], so `[a, ...[p, q]]`
/// — a rest into a nested destructure — is representable.
#[derive(Debug, PartialEq, Eq)]
pub struct LRest<'s> {
    /// The place(s) bound by `...` (the `x` in `...x`).
    pub binder: Box<LValue<'s>>,
    /// Elements after the rest binder.
    pub after: Vec<LValue<'s>>,
}

/// Logical or (`||`). Left-associative.
#[derive(Debug, PartialEq, Eq)]
pub enum Lor<'s> {
    /// `lhs || rhs`
    Or { lhs: Box<Lor<'s>>, rhs: Land<'s> },
    /// passthrough
    Land(Land<'s>),
}

/// Logical and (`&&`). Left-associative.
#[derive(Debug, PartialEq, Eq)]
pub enum Land<'s> {
    /// `lhs && rhs`
    And {
        lhs: Box<Land<'s>>,
        rhs: Equality<'s>,
    },
    /// passthrough
    Equality(Equality<'s>),
}

/// Equality (`==`, `!=`). Left-associative.
#[derive(Debug, PartialEq, Eq)]
pub enum Equality<'s> {
    /// `lhs == rhs`
    Eq {
        lhs: Box<Equality<'s>>,
        rhs: Compare<'s>,
    },
    /// `lhs != rhs`
    Ne {
        lhs: Box<Equality<'s>>,
        rhs: Compare<'s>,
    },
    /// passthrough
    Compare(Compare<'s>),
}

/// Relational compare (`<`, `<=`, `>`, `>=`). Left-associative.
#[derive(Debug, PartialEq, Eq)]
pub enum Compare<'s> {
    /// `lhs < rhs`
    Lt {
        lhs: Box<Compare<'s>>,
        rhs: Additive<'s>,
    },
    /// `lhs <= rhs`
    Le {
        lhs: Box<Compare<'s>>,
        rhs: Additive<'s>,
    },
    /// `lhs > rhs`
    Gt {
        lhs: Box<Compare<'s>>,
        rhs: Additive<'s>,
    },
    /// `lhs >= rhs`
    Ge {
        lhs: Box<Compare<'s>>,
        rhs: Additive<'s>,
    },
    /// passthrough
    Additive(Additive<'s>),
}

/// Additive (`+`, `-`). Left-associative.
#[derive(Debug, PartialEq, Eq)]
pub enum Additive<'s> {
    /// `lhs + rhs`
    Add {
        lhs: Box<Additive<'s>>,
        rhs: Mult<'s>,
    },
    /// `lhs - rhs`
    Sub {
        lhs: Box<Additive<'s>>,
        rhs: Mult<'s>,
    },
    /// passthrough
    Mult(Mult<'s>),
}

/// Multiplicative (`*`, `/`, `%`). Left-associative.
#[derive(Debug, PartialEq, Eq)]
pub enum Mult<'s> {
    /// `lhs * rhs`
    Mul { lhs: Box<Mult<'s>>, rhs: Power<'s> },
    /// `lhs / rhs`
    Div { lhs: Box<Mult<'s>>, rhs: Power<'s> },
    /// `lhs % rhs`
    Rem { lhs: Box<Mult<'s>>, rhs: Power<'s> },
    /// passthrough
    Power(Power<'s>),
}

/// Power (`^`). Right-associative: `2 ^ 3 ^ 2` is `2 ^ (3 ^ 2)`.
#[derive(Debug, PartialEq, Eq)]
pub enum Power<'s> {
    /// `base ^ exp`
    Pow {
        base: Unary<'s>,
        exp: Box<Power<'s>>,
    },
    /// passthrough
    Unary(Unary<'s>),
}

/// Prefix unary operators (`-`, `+`, `!`, `...`). Stackable: `!-x`.
#[derive(Debug, PartialEq, Eq)]
pub enum Unary<'s> {
    /// `-x`
    Neg(Box<Unary<'s>>),
    /// `+x`
    Pos(Box<Unary<'s>>),
    /// `!x`
    Not(Box<Unary<'s>>),
    /// `...x`
    Unpack(Box<Unary<'s>>),
    /// passthrough
    Get(Get<'s>),
}

/// The get / match level (`:`, `~`). Left-associative: `a:b:c` is `(a:b):c`.
/// The right operand is always a [`Primary`].
#[derive(Debug, PartialEq, Eq)]
pub enum Get<'s> {
    /// `base:key` (`op == Get`) or `base~key` (`op == Match`).
    Index {
        base: Box<Get<'s>>,
        op: GetOp,
        key: Primary<'s>,
    },
    /// passthrough
    Primary(Primary<'s>),
}

/// Which operator joins a [`Get::Index`].
#[derive(Debug, Clone, Copy, PartialEq, Eq)]
pub enum GetOp {
    /// `:` — element / member access.
    Get,
    /// `~` — match / search.
    Match,
}

/// The tightest level: atoms, calls, and the bracketed forms.
#[derive(Debug, PartialEq, Eq)]
pub enum Primary<'s> {
    /// A numeric literal, verbatim (`42`, `0xff`, `1e-10`).
    Number(&'s str),
    /// A string literal, including its quotes (`'hi'`).
    Str(&'s str),
    /// A bare identifier / variable reference.
    Ident(&'s str),
    /// A function call `name(args)`. The callee is always an identifier.
    Call { name: &'s str, args: Args<'s> },
    /// A list literal `[ … ]`.
    List(Args<'s>),
    /// A map literal `{ … }`.
    MapLiteral(Vec<MapEntry<'s>>),
    /// A parenthesized body `( … )`; its contents are a full [`Args`] (`top`).
    Paren(Args<'s>),
}

/// One item of a map literal, as tagged by the parser ([`CstKind::MapEntry`]).
#[derive(Debug, PartialEq, Eq)]
pub enum MapEntry<'s> {
    /// `key -> value` at the item's top level. The key sits at the assignment
    /// level (anything tighter than `->`); the value is a full expression.
    /// Boxed to keep the enum near [`Single`](Self::Single)'s size.
    Pair {
        key: Box<Assign<'s>>,
        value: Box<Expr<'s>>,
    },
    /// A bare item — a full `;`-statement sequence. The VM classifies its
    /// *value* at runtime: a two-element list is a key→value pair, any other
    /// list an error, anything else a key with a `null` value.
    Single(Code<'s>),
}

/// Why a [`Cst`] could not be lowered to an AST.
///
/// The [`Cst`] carries no source spans, so an error describes *what* was wrong
/// rather than *where*. Beyond an internal shape no well-formed parse produces,
/// lowering enforces the executable shape of assignment targets, so a
/// non-assignable target or a second `...` at one destructuring level is rejected
/// here rather than at evaluation. Likewise, every argument in a function
/// signature must be a valid parameter; a malformed one is an
/// [`InvalidSignature`](Self::InvalidSignature).
#[derive(Debug, Clone, PartialEq, Eq)]
pub enum LowerError {
    /// A node shape no well-formed parse produces reached a position that only
    /// accepts a tighter level (e.g. a bare `,`/`;` chain where a primary was
    /// due). Indicates a malformed or hand-built CST. The text names the kind.
    Unexpected(&'static str),
    /// More than one rest binder (`...x`) appeared at the same level of a
    /// destructuring list ([`LPatterns`]).
    MultipleRest,
    /// The left of `=`/`+=`/`<>` is not a valid assignment target — a literal,
    /// operator expression, `~` match, or other non-place shape (`1 = 2`,
    /// `a + b = c`, `a ~ b = c`, `[a, 1] = …`).
    NotAssignable,
    /// A function parameter is not a variable, an `outer(x)` capture, or the
    /// single `...rest`.
    InvalidSignature,
}


// ====================================================================
// What lowering means
// ====================================================================
//
// For each level, `err_*` is the first error a left-to-right lowering meets
// (`None` when there is none), and `ok_*` relates a compact tree to the
// AST it lowers to.

/// A short, static name for a compact-tree kind, used in
/// [`LowerError::Unexpected`].
pub open spec fn describe_of(kind: CstKind) -> &'static str {
    match kind {
        CstKind::Number(_) => "a number",
        CstKind::Str(_) => "a string",
        CstKind::Ident(_) => "an identifier",
        CstKind::Call { .. } => "a call",
        CstKind::List(_) => "a list",
        CstKind::MapLiteral(_) => "a map",
        CstKind::Paren(_) => "a parenthesized expression",
        CstKind::Empty => "an empty slot",
        CstKind::DefineFunction { .. } => "a function definition",
        CstKind::MapEntry { .. } => "a map entry",
        CstKind::Unary { .. } => "a unary expression",
        CstKind::Binary { .. } => "an operator expression",
    }
}

/// `a`, or else `b`: the first of two errors in order.
pub open spec fn or_else(a: Option<LowerError>, b: Option<LowerError>) -> Option<LowerError> {
    if a is Some {
        a
    } else {
        b
    }
}

/// Whether a node is a phantom `Empty`.
pub open spec fn is_empty_slot(c: Cst) -> bool {
    c.kind is Empty
}

/// The number of items of `s` that are not phantom `Empty`s.
pub open spec fn count_items(s: Seq<Cst>) -> nat
    decreases s.len(),
{
    if s.len() == 0 {
        0
    } else {
        count_items(s.drop_last()) + if is_empty_slot(s.last()) {
            0nat
        } else {
            1nat
        }
    }
}

/// The index of the first item of `s` that is not a phantom `Empty`.
pub open spec fn first_item(s: Seq<Cst>, i: int) -> int
    decreases s.len() - i,
{
    if i < 0 || i >= s.len() {
        s.len() as int
    } else if !is_empty_slot(s[i]) {
        i
    } else {
        first_item(s, i + 1)
    }
}

/// The sole non-`Empty` argument of a single-argument call: its index, or
/// -1 when there is not exactly one.
pub open spec fn single_arg_at(s: Seq<Cst>) -> int {
    if count_items(s) == 1 {
        first_item(s, 0)
    } else {
        -1
    }
}

/// Whether a node is the identifier `name`.
pub open spec fn is_ident(c: Cst, name: Seq<char>) -> bool {
    c.kind matches CstKind::Ident(x) && x@ == name
}

/// The [`AssignOp`] of an assignment operator, if it is one.
pub open spec fn assign_op_of(op: BinOp) -> Option<AssignOp> {
    match op {
        BinOp::Assign => Some(AssignOp::Assign),
        BinOp::AddAssign => Some(AssignOp::Add),
        BinOp::Swap => Some(AssignOp::Swap),
        _ => None,
    }
}

/// The signature of a definition from its parameter items: the plain
/// binders, the reserved-word captures and the rest binder, in order; or
/// `None` when an item is not a valid parameter.
pub open spec fn params_of<'s>(s: Seq<Cst<'s>>) -> Option<(Seq<&'s str>, Seq<Capture<'s>>, Option<&'s str>)>
    decreases s.len(),
{
    if s.len() == 0 {
        Some((seq![], seq![], None))
    } else {
        match params_of(s.drop_last()) {
            None => None,
            Some((fixed, caps, rest)) => match s.last().kind {
                CstKind::Empty => Some((fixed, caps, rest)),
                CstKind::Unary { op: UnaryOp::Unpack, operand } => if rest is Some {
                    None
                } else {
                    match operand.kind {
                        CstKind::Ident(name) => Some((fixed, caps, Some(name))),
                        _ => None,
                    }
                },
                CstKind::Ident(x) => Some((fixed.push(x), caps, rest)),
                CstKind::Call { callee, args } => if is_ident(*callee, "outer"@) {
                    let k = single_arg_at(args@);
                    if 0 <= k < args@.len() {
                        match args@[k].kind {
                            CstKind::Ident(bound) => Some(
                                (fixed, caps.push(Capture { word: ParamWord::Outer, name: bound }), rest),
                            ),
                            _ => None,
                        }
                    } else {
                        None
                    }
                } else {
                    None
                },
                _ => None,
            },
        }
    }
}

/// Whether `p` is the signature [`params_of`] reads from `s`.
pub open spec fn params_match<'s>(s: Seq<Cst<'s>>, p: Params<'s>) -> bool {
    params_of(s) == Some((p.fixed@, p.captures@, p.rest))
}

/// Whether `s` holds more than one rest item (`...x`), ignoring `Empty`s.
pub open spec fn count_unpacks(s: Seq<Cst>) -> nat
    decreases s.len(),
{
    if s.len() == 0 {
        0
    } else {
        count_unpacks(s.drop_last()) + if s.last().kind matches CstKind::Unary {
            op: UnaryOp::Unpack,
            ..
        } {
            1nat
        } else {
            0nat
        }
    }
}

// --- errors ---------------------------------------------------------

/// The first error lowering a `,` chain meets.
pub open spec fn err_args(c: Cst) -> Option<LowerError>
    decreases c, 20int,
{
    match c.kind {
        CstKind::Binary { op: BinOp::Comma, lhs, rhs } => or_else(err_args(*lhs), err_code(*rhs)),
        _ => err_code(c),
    }
}

/// The first error lowering a `;` chain meets.
pub open spec fn err_code(c: Cst) -> Option<LowerError>
    decreases c, 19int,
{
    match c.kind {
        CstKind::Binary { op: BinOp::Semi, lhs, rhs } => or_else(err_code(*lhs), err_expr(*rhs)),
        _ => err_expr(c),
    }
}

/// The first error lowering an expression meets: a definition's signature
/// must be a call of a name on valid parameters.
pub open spec fn err_expr(c: Cst) -> Option<LowerError>
    decreases c, 18int,
{
    match c.kind {
        CstKind::DefineFunction { signature, body } => match signature.kind {
            CstKind::Call { callee, args } => if callee.kind is Ident && params_of(args@) is Some {
                err_expr(*body)
            } else {
                Some(LowerError::InvalidSignature)
            },
            _ => Some(LowerError::InvalidSignature),
        },
        _ => err_assign(c),
    }
}

/// The first error lowering an assignment meets.
pub open spec fn err_assign(c: Cst) -> Option<LowerError>
    decreases c, 17int,
{
    match c.kind {
        CstKind::Binary { op, lhs, rhs } => if assign_op_of(op) is Some {
            or_else(err_lvalue(*lhs), err_assign(*rhs))
        } else {
            err_lor(c)
        },
        _ => err_lor(c),
    }
}

/// The first error lowering an assignment target meets.
pub open spec fn err_lvalue(c: Cst) -> Option<LowerError>
    decreases c, 3int,
{
    match c.kind {
        CstKind::List(items) => err_lpatterns(items@),
        CstKind::Call { callee, .. } => if !is_ident(*callee, "var"@) {
            err_primary(c)
        } else {
            err_place(c)
        },
        _ => err_place(c),
    }
}

/// The first error lowering a place meets.
pub open spec fn err_place(c: Cst) -> Option<LowerError>
    decreases c, 2int,
{
    match c.kind {
        CstKind::Ident(_) => None,
        CstKind::Call { callee, args } => if is_ident(*callee, "var"@) {
            let k = single_arg_at(args@);
            if 0 <= k < args@.len() {
                err_code(args@[k])
            } else {
                Some(LowerError::NotAssignable)
            }
        } else {
            Some(LowerError::NotAssignable)
        },
        CstKind::Binary { op: BinOp::Get, lhs, rhs } => or_else(err_place(*lhs), err_primary(*rhs)),
        _ => Some(LowerError::NotAssignable),
    }
}

/// The first error lowering the elements of a destructuring list meets: a
/// second rest binder is an error before its binder is lowered.
pub open spec fn err_lpatterns(s: Seq<Cst>) -> Option<LowerError>
    decreases s, 0int,
{
    if s.len() == 0 {
        None
    } else {
        let last = s.last();
        or_else(
            err_lpatterns(s.drop_last()),
            match last.kind {
                CstKind::Empty => None,
                CstKind::Unary { op: UnaryOp::Unpack, operand } => if count_unpacks(s.drop_last())
                    > 0 {
                    Some(LowerError::MultipleRest)
                } else {
                    err_lvalue(*operand)
                },
                _ => err_lvalue(last),
            },
        )
    }
}

/// The first error lowering a `||` chain meets.
pub open spec fn err_lor(c: Cst) -> Option<LowerError>
    decreases c, 16int,
{
    match c.kind {
        CstKind::Binary { op: BinOp::Or, lhs, rhs } => or_else(err_lor(*lhs), err_land(*rhs)),
        _ => err_land(c),
    }
}

/// The first error lowering a `&&` chain meets.
pub open spec fn err_land(c: Cst) -> Option<LowerError>
    decreases c, 15int,
{
    match c.kind {
        CstKind::Binary { op: BinOp::And, lhs, rhs } => or_else(err_land(*lhs), err_equality(*rhs)),
        _ => err_equality(c),
    }
}

/// The first error lowering an equality chain meets.
pub open spec fn err_equality(c: Cst) -> Option<LowerError>
    decreases c, 14int,
{
    match c.kind {
        CstKind::Binary { op, lhs, rhs } => if op == BinOp::Eq || op == BinOp::NotEq {
            or_else(err_equality(*lhs), err_compare(*rhs))
        } else {
            err_compare(c)
        },
        _ => err_compare(c),
    }
}

/// The first error lowering a comparison chain meets.
pub open spec fn err_compare(c: Cst) -> Option<LowerError>
    decreases c, 13int,
{
    match c.kind {
        CstKind::Binary { op, lhs, rhs } => if op == BinOp::Lt || op == BinOp::LtEq || op
            == BinOp::Gt || op == BinOp::GtEq {
            or_else(err_compare(*lhs), err_additive(*rhs))
        } else {
            err_additive(c)
        },
        _ => err_additive(c),
    }
}

/// The first error lowering an additive chain meets.
pub open spec fn err_additive(c: Cst) -> Option<LowerError>
    decreases c, 12int,
{
    match c.kind {
        CstKind::Binary { op, lhs, rhs } => if op == BinOp::Add || op == BinOp::Sub {
            or_else(err_additive(*lhs), err_mult(*rhs))
        } else {
            err_mult(c)
        },
        _ => err_mult(c),
    }
}

/// The first error lowering a multiplicative chain meets.
pub open spec fn err_mult(c: Cst) -> Option<LowerError>
    decreases c, 11int,
{
    match c.kind {
        CstKind::Binary { op, lhs, rhs } => if op == BinOp::Mul || op == BinOp::Div || op
            == BinOp::Rem {
            or_else(err_mult(*lhs), err_power(*rhs))
        } else {
            err_power(c)
        },
        _ => err_power(c),
    }
}

/// The first error lowering a power chain meets.
pub open spec fn err_power(c: Cst) -> Option<LowerError>
    decreases c, 10int,
{
    match c.kind {
        CstKind::Binary { op: BinOp::Pow, lhs, rhs } => or_else(err_unary(*lhs), err_power(*rhs)),
        _ => err_unary(c),
    }
}

/// The first error lowering a prefix application meets.
pub open spec fn err_unary(c: Cst) -> Option<LowerError>
    decreases c, 9int,
{
    match c.kind {
        CstKind::Unary { operand, .. } => err_unary(*operand),
        _ => err_get(c),
    }
}

/// The first error lowering a `:`/`~` chain meets.
pub open spec fn err_get(c: Cst) -> Option<LowerError>
    decreases c, 8int,
{
    match c.kind {
        CstKind::Binary { op, lhs, rhs } => if op == BinOp::Get || op == BinOp::Match {
            or_else(err_get(*lhs), err_primary(*rhs))
        } else {
            err_primary(c)
        },
        _ => err_primary(c),
    }
}

/// The first error lowering a primary meets.
pub open spec fn err_primary(c: Cst) -> Option<LowerError>
    decreases c, 1int,
{
    match c.kind {
        CstKind::Number(_) | CstKind::Str(_) | CstKind::Ident(_) => None,
        CstKind::Call { callee, args } => if callee.kind is Ident {
            err_items(args@)
        } else {
            Some(LowerError::Unexpected(describe_of(callee.kind)))
        },
        CstKind::List(items) => err_items(items@),
        CstKind::MapLiteral(items) => err_map(items@),
        CstKind::Paren(inner) => err_args(*inner),
        _ => Some(LowerError::Unexpected(describe_of(c.kind))),
    }
}

/// The first error lowering bracketed items (each a statement sequence,
/// `Empty`s skipped) meets.
pub open spec fn err_items(s: Seq<Cst>) -> Option<LowerError>
    decreases s, 0int,
{
    if s.len() == 0 {
        None
    } else {
        or_else(
            err_items(s.drop_last()),
            if is_empty_slot(s.last()) {
                None
            } else {
                err_code(s.last())
            },
        )
    }
}

/// The first error lowering the items of a map literal meets.
pub open spec fn err_map(s: Seq<Cst>) -> Option<LowerError>
    decreases s, 0int,
{
    if s.len() == 0 {
        None
    } else {
        or_else(
            err_map(s.drop_last()),
            match s.last().kind {
                CstKind::Empty => None,
                CstKind::MapEntry { key, value } => match value {
                    Some(v) => or_else(err_assign(*key), err_expr(*v)),
                    None => err_code(*key),
                },
                other => Some(LowerError::Unexpected(describe_of(other))),
            },
        )
    }
}

// --- results --------------------------------------------------------

/// `out` is the lowering of the `,` chain `c`, one statement sequence per
/// link.
pub open spec fn ok_commas<'s>(c: Cst<'s>, out: Seq<Code<'s>>) -> bool
    decreases c, 21int,
{
    match c.kind {
        CstKind::Binary { op: BinOp::Comma, lhs, rhs } => out.len() >= 1 && ok_commas(
            *lhs,
            out.drop_last(),
        ) && ok_code(*rhs, out.last()),
        _ => out.len() == 1 && ok_code(c, out[0]),
    }
}

/// `out` is the lowering of the `;` chain `c`, one expression per
/// statement.
pub open spec fn ok_semis<'s>(c: Cst<'s>, out: Seq<Expr<'s>>) -> bool
    decreases c, 19int,
{
    match c.kind {
        CstKind::Binary { op: BinOp::Semi, lhs, rhs } => out.len() >= 1 && ok_semis(
            *lhs,
            out.drop_last(),
        ) && ok_expr(*rhs, out.last()),
        _ => out.len() == 1 && ok_expr(c, out[0]),
    }
}

/// `a` is the lowering of the `;` chain `c`.
pub open spec fn ok_code<'s>(c: Cst<'s>, a: Code<'s>) -> bool
    decreases c, 20int,
{
    ok_semis(c, a.0@)
}

/// `a` is the lowering of the expression `c`.
pub open spec fn ok_expr<'s>(c: Cst<'s>, a: Expr<'s>) -> bool
    decreases c, 18int,
{
    match c.kind {
        CstKind::DefineFunction { signature, body } => match signature.kind {
            CstKind::Call { callee, args } => a matches Expr::Def { name, params, body: b } && is_ident(
                *callee,
                name@,
            ) && callee.kind == CstKind::Ident(name) && params_match(args@, params) && ok_expr(
                *body,
                *b,
            ),
            _ => false,
        },
        _ => a matches Expr::Assign(x) && ok_assign(c, x),
    }
}

/// `a` is the lowering of the assignment `c`.
pub open spec fn ok_assign<'s>(c: Cst<'s>, a: Assign<'s>) -> bool
    decreases c, 17int,
{
    match c.kind {
        CstKind::Binary { op, lhs, rhs } => if assign_op_of(op) is Some {
            a matches Assign::Store { target, op: aop, value } && Some(aop) == assign_op_of(op)
                && ok_lvalue(*lhs, target) && ok_assign(*rhs, *value)
        } else {
            a matches Assign::Lor(x) && ok_lor(c, x)
        },
        _ => a matches Assign::Lor(x) && ok_lor(c, x),
    }
}

/// `a` is the lowering of the assignment target `c`.
pub open spec fn ok_lvalue<'s>(c: Cst<'s>, a: LValue<'s>) -> bool
    decreases c, 3int,
{
    match c.kind {
        CstKind::List(items) => a matches LValue::Destructure(p) && ok_lpatterns(
            items@,
            p.before@,
            match p.rest {
                Some(r) => Some((*r.binder, r.after@)),
                None => None,
            },
        ),
        CstKind::Call { callee, .. } => if !is_ident(*callee, "var"@) {
            a matches LValue::Computed(x) && ok_primary(c, *x)
        } else {
            a matches LValue::Place(x) && ok_place(c, x)
        },
        _ => a matches LValue::Place(x) && ok_place(c, x),
    }
}

/// `a` is the lowering of the place `c`.
pub open spec fn ok_place<'s>(c: Cst<'s>, a: Place<'s>) -> bool
    decreases c, 2int,
{
    match c.kind {
        CstKind::Ident(x) => a == Place::Var(x),
        CstKind::Call { callee, args } => {
            let k = single_arg_at(args@);
            &&& is_ident(*callee, "var"@)
            &&& 0 <= k < args@.len()
            &&& a matches Place::DynVar(code) && ok_code(args@[k], *code)
        },
        CstKind::Binary { op: BinOp::Get, lhs, rhs } => a matches Place::Index { base, key }
            && ok_place(*lhs, *base) && ok_primary(*rhs, key),
        _ => false,
    }
}

/// The elements `s` of a destructuring list lower to the binders `before`
/// the rest item and, if there is one, the rest binder and the binders
/// `after` it (`Empty`s skipped).
pub open spec fn ok_lpatterns<'s>(
    s: Seq<Cst<'s>>,
    before: Seq<LValue<'s>>,
    rest: Option<(LValue<'s>, Seq<LValue<'s>>)>,
) -> bool
    decreases s, 0int,
{
    if s.len() == 0 {
        before.len() == 0 && rest is None
    } else {
        let last = s.last();
        match last.kind {
            CstKind::Empty => ok_lpatterns(s.drop_last(), before, rest),
            CstKind::Unary { op: UnaryOp::Unpack, operand } => rest matches Some((b, after))
                && after.len() == 0 && ok_lvalue(*operand, b) && ok_lpatterns(
                s.drop_last(),
                before,
                None,
            ),
            _ => match rest {
                None => before.len() >= 1 && ok_lvalue(last, before.last()) && ok_lpatterns(
                    s.drop_last(),
                    before.drop_last(),
                    None,
                ),
                Some((b, after)) => after.len() >= 1 && ok_lvalue(last, after.last())
                    && ok_lpatterns(s.drop_last(), before, Some((b, after.drop_last()))),
            },
        }
    }
}

/// `a` is the lowering of the `||` chain `c`.
pub open spec fn ok_lor<'s>(c: Cst<'s>, a: Lor<'s>) -> bool
    decreases c, 16int,
{
    match c.kind {
        CstKind::Binary { op: BinOp::Or, lhs, rhs } => a matches Lor::Or { lhs: l, rhs: r }
            && ok_lor(*lhs, *l) && ok_land(*rhs, r),
        _ => a matches Lor::Land(x) && ok_land(c, x),
    }
}

/// `a` is the lowering of the `&&` chain `c`.
pub open spec fn ok_land<'s>(c: Cst<'s>, a: Land<'s>) -> bool
    decreases c, 15int,
{
    match c.kind {
        CstKind::Binary { op: BinOp::And, lhs, rhs } => a matches Land::And { lhs: l, rhs: r }
            && ok_land(*lhs, *l) && ok_equality(*rhs, r),
        _ => a matches Land::Equality(x) && ok_equality(c, x),
    }
}

/// `a` is the lowering of the equality chain `c`.
pub open spec fn ok_equality<'s>(c: Cst<'s>, a: Equality<'s>) -> bool
    decreases c, 14int,
{
    match c.kind {
        CstKind::Binary { op: BinOp::Eq, lhs, rhs } => a matches Equality::Eq { lhs: l, rhs: r }
            && ok_equality(*lhs, *l) && ok_compare(*rhs, r),
        CstKind::Binary { op: BinOp::NotEq, lhs, rhs } => a matches Equality::Ne { lhs: l, rhs: r }
            && ok_equality(*lhs, *l) && ok_compare(*rhs, r),
        _ => a matches Equality::Compare(x) && ok_compare(c, x),
    }
}

/// `a` is the lowering of the comparison chain `c`.
pub open spec fn ok_compare<'s>(c: Cst<'s>, a: Compare<'s>) -> bool
    decreases c, 13int,
{
    match c.kind {
        CstKind::Binary { op: BinOp::Lt, lhs, rhs } => a matches Compare::Lt { lhs: l, rhs: r }
            && ok_compare(*lhs, *l) && ok_additive(*rhs, r),
        CstKind::Binary { op: BinOp::LtEq, lhs, rhs } => a matches Compare::Le { lhs: l, rhs: r }
            && ok_compare(*lhs, *l) && ok_additive(*rhs, r),
        CstKind::Binary { op: BinOp::Gt, lhs, rhs } => a matches Compare::Gt { lhs: l, rhs: r }
            && ok_compare(*lhs, *l) && ok_additive(*rhs, r),
        CstKind::Binary { op: BinOp::GtEq, lhs, rhs } => a matches Compare::Ge { lhs: l, rhs: r }
            && ok_compare(*lhs, *l) && ok_additive(*rhs, r),
        _ => a matches Compare::Additive(x) && ok_additive(c, x),
    }
}

/// `a` is the lowering of the additive chain `c`.
pub open spec fn ok_additive<'s>(c: Cst<'s>, a: Additive<'s>) -> bool
    decreases c, 12int,
{
    match c.kind {
        CstKind::Binary { op: BinOp::Add, lhs, rhs } => a matches Additive::Add { lhs: l, rhs: r }
            && ok_additive(*lhs, *l) && ok_mult(*rhs, r),
        CstKind::Binary { op: BinOp::Sub, lhs, rhs } => a matches Additive::Sub { lhs: l, rhs: r }
            && ok_additive(*lhs, *l) && ok_mult(*rhs, r),
        _ => a matches Additive::Mult(x) && ok_mult(c, x),
    }
}

/// `a` is the lowering of the multiplicative chain `c`.
pub open spec fn ok_mult<'s>(c: Cst<'s>, a: Mult<'s>) -> bool
    decreases c, 11int,
{
    match c.kind {
        CstKind::Binary { op: BinOp::Mul, lhs, rhs } => a matches Mult::Mul { lhs: l, rhs: r }
            && ok_mult(*lhs, *l) && ok_power(*rhs, r),
        CstKind::Binary { op: BinOp::Div, lhs, rhs } => a matches Mult::Div { lhs: l, rhs: r }
            && ok_mult(*lhs, *l) && ok_power(*rhs, r),
        CstKind::Binary { op: BinOp::Rem, lhs, rhs } => a matches Mult::Rem { lhs: l, rhs: r }
            && ok_mult(*lhs, *l) && ok_power(*rhs, r),
        _ => a matches Mult::Power(x) && ok_power(c, x),
    }
}

/// `a` is the lowering of the power chain `c`.
pub open spec fn ok_power<'s>(c: Cst<'s>, a: Power<'s>) -> bool
    decreases c, 10int,
{
    match c.kind {
        CstKind::Binary { op: BinOp::Pow, lhs, rhs } => a matches Power::Pow { base, exp }
            && ok_unary(*lhs, base) && ok_power(*rhs, *exp),
        _ => a matches Power::Unary(x) && ok_unary(c, x),
    }
}

/// `a` is the lowering of the prefix application `c`.
pub open spec fn ok_unary<'s>(c: Cst<'s>, a: Unary<'s>) -> bool
    decreases c, 9int,
{
    match c.kind {
        CstKind::Unary { op, operand } => match op {
            UnaryOp::Neg => a matches Unary::Neg(x) && ok_unary(*operand, *x),
            UnaryOp::Pos => a matches Unary::Pos(x) && ok_unary(*operand, *x),
            UnaryOp::Not => a matches Unary::Not(x) && ok_unary(*operand, *x),
            UnaryOp::Unpack => a matches Unary::Unpack(x) && ok_unary(*operand, *x),
        },
        _ => a matches Unary::Get(x) && ok_get(c, x),
    }
}

/// `a` is the lowering of the `:`/`~` chain `c`.
pub open spec fn ok_get<'s>(c: Cst<'s>, a: Get<'s>) -> bool
    decreases c, 8int,
{
    match c.kind {
        CstKind::Binary { op: BinOp::Get, lhs, rhs } => a matches Get::Index { base, op, key }
            && op == GetOp::Get && ok_get(*lhs, *base) && ok_primary(*rhs, key),
        CstKind::Binary { op: BinOp::Match, lhs, rhs } => a matches Get::Index { base, op, key }
            && op == GetOp::Match && ok_get(*lhs, *base) && ok_primary(*rhs, key),
        _ => a matches Get::Primary(x) && ok_primary(c, x),
    }
}

/// `a` is the lowering of the primary `c`.
pub open spec fn ok_primary<'s>(c: Cst<'s>, a: Primary<'s>) -> bool
    decreases c, 1int,
{
    match c.kind {
        CstKind::Number(x) => a == Primary::Number(x),
        CstKind::Str(x) => a == Primary::Str(x),
        CstKind::Ident(x) => a == Primary::Ident(x),
        CstKind::Call { callee, args } => a matches Primary::Call { name, args: out }
            && callee.kind == CstKind::Ident(name) && ok_items(args@, out.0@),
        CstKind::List(items) => a matches Primary::List(out) && ok_items(items@, out.0@),
        CstKind::MapLiteral(items) => a matches Primary::MapLiteral(out) && ok_map(items@, out@),
        CstKind::Paren(inner) => a matches Primary::Paren(out) && ok_commas(*inner, out.0@),
        _ => false,
    }
}

/// `out` is the lowering of the bracketed items `s`, one statement
/// sequence per item, `Empty`s skipped.
pub open spec fn ok_items<'s>(s: Seq<Cst<'s>>, out: Seq<Code<'s>>) -> bool
    decreases s, 0int,
{
    if s.len() == 0 {
        out.len() == 0
    } else if is_empty_slot(s.last()) {
        ok_items(s.drop_last(), out)
    } else {
        out.len() >= 1 && ok_items(s.drop_last(), out.drop_last()) && ok_code(s.last(), out.last())
    }
}

/// `out` is the lowering of the items `s` of a map literal, `Empty`s
/// skipped.
pub open spec fn ok_map<'s>(s: Seq<Cst<'s>>, out: Seq<MapEntry<'s>>) -> bool
    decreases s, 0int,
{
    if s.len() == 0 {
        out.len() == 0
    } else if is_empty_slot(s.last()) {
        ok_map(s.drop_last(), out)
    } else {
        out.len() >= 1 && ok_map(s.drop_last(), out.drop_last()) && match s.last().kind {
            CstKind::MapEntry { key, value } => match value {
                Some(v) => out.last() matches MapEntry::Pair { key: k, value: x } && ok_assign(
                    *key,
                    *k,
                ) && ok_expr(*v, *x),
                None => out.last() matches MapEntry::Single(code) && ok_code(*key, code),
            },
            _ => false,
        }
    }
}

// ====================================================================
// Lowering: compact tree -> AST
// ====================================================================

/// An error met in a prefix of the items of a list is the list's error.
proof fn lemma_err_items_prefix(s: Seq<Cst>, i: int)
    requires
        0 <= i <= s.len(),
        err_items(s.take(i)) is Some,
    ensures
        err_items(s) == err_items(s.take(i)),
    decreases s.len() - i,
{
    if i < s.len() {
        assert(s.take(i + 1).drop_last() =~= s.take(i));
        lemma_err_items_prefix(s, i + 1);
    } else {
        assert(s.take(i) =~= s);
    }
}

/// An error met in a prefix of the items of a map is the map's error.
proof fn lemma_err_map_prefix(s: Seq<Cst>, i: int)
    requires
        0 <= i <= s.len(),
        err_map(s.take(i)) is Some,
    ensures
        err_map(s) == err_map(s.take(i)),
    decreases s.len() - i,
{
    if i < s.len() {
        assert(s.take(i + 1).drop_last() =~= s.take(i));
        lemma_err_map_prefix(s, i + 1);
    } else {
        assert(s.take(i) =~= s);
    }
}

/// An error met in a prefix of a destructuring list is the list's error.
proof fn lemma_err_lpatterns_prefix(s: Seq<Cst>, i: int)
    requires
        0 <= i <= s.len(),
        err_lpatterns(s.take(i)) is Some,
    ensures
        err_lpatterns(s) == err_lpatterns(s.take(i)),
    decreases s.len() - i,
{
    if i < s.len() {
        assert(s.take(i + 1).drop_last() =~= s.take(i));
        lemma_err_lpatterns_prefix(s, i + 1);
    } else {
        assert(s.take(i) =~= s);
    }
}

/// An invalid parameter in a prefix makes the whole signature invalid.
proof fn lemma_params_none_prefix(s: Seq<Cst>, i: int)
    requires
        0 <= i <= s.len(),
        params_of(s.take(i)) is None,
    ensures
        params_of(s) is None,
    decreases s.len() - i,
{
    if i < s.len() {
        assert(s.take(i + 1).drop_last() =~= s.take(i));
        lemma_params_none_prefix(s, i + 1);
    } else {
        assert(s.take(i) =~= s);
    }
}

/// A short, static name for a compact-tree kind, used in
/// [`LowerError::Unexpected`] messages.
fn describe(kind: &CstKind) -> (r: &'static str)
    ensures
        r == describe_of(*kind),
{
    match kind {
        CstKind::Number(_) => "a number",
        CstKind::Str(_) => "a string",
        CstKind::Ident(_) => "an identifier",
        CstKind::Call { .. } => "a call",
        CstKind::List(_) => "a list",
        CstKind::MapLiteral(_) => "a map",
        CstKind::Paren(_) => "a parenthesized expression",
        CstKind::Empty => "an empty slot",
        CstKind::DefineFunction { .. } => "a function definition",
        CstKind::MapEntry { .. } => "a map entry",
        CstKind::Unary { .. } => "a unary expression",
        CstKind::Binary { .. } => "an operator expression",
    }
}

/// Whether `c` is the identifier `name`.
fn ident_is(c: &Cst, name: &str) -> (b: bool)
    ensures
        b == is_ident(*c, name@),
{
    match &c.kind {
        CstKind::Ident(x) => String::from_str(x) == String::from_str(name),
        _ => false,
    }
}

/// Maps a signature reserved word to its [`ParamWord`].
fn param_word(name: &str) -> (r: Option<ParamWord>)
    ensures
        r == (if name@ == "outer"@ {
            Some(ParamWord::Outer)
        } else {
            None
        }),
{
    if String::from_str(name) == String::from_str("outer") {
        Some(ParamWord::Outer)
    } else {
        None
    }
}

/// Maps the two get-level operators onto a [`GetOp`].
fn get_op(op: BinOp) -> (r: GetOp)
    ensures
        r == (if op == BinOp::Match {
            GetOp::Match
        } else {
            GetOp::Get
        }),
{
    match op {
        BinOp::Match => GetOp::Match,
        _ => GetOp::Get,
    }
}

/// The identifier of a call's callee.
fn ident_of<'s>(c: &Cst<'s>) -> (r: Result<&'s str, LowerError>)
    ensures
        match r {
            Ok(x) => c.kind == CstKind::Ident(x),
            Err(e) => !(c.kind is Ident) && e == LowerError::Unexpected(describe_of(c.kind)),
        },
{
    match &c.kind {
        CstKind::Ident(s) => Ok(s),
        other => Err(LowerError::Unexpected(describe(other))),
    }
}

/// The index of the sole non-`Empty` argument of a single-argument call
/// (`var(e)`, `outer(x)`), or `None` when there is not exactly one.
fn single_arg(args: &Vec<Cst>) -> (r: Option<usize>)
    ensures
        match r {
            Some(k) => k == single_arg_at(args@) && k < args.len(),
            None => !(0 <= single_arg_at(args@) < args@.len()),
        },
{
    let ghost s = args@;
    let mut count: usize = 0;
    let mut first: usize = 0;
    let mut i: usize = 0;
    proof {
        assert(s.take(0) =~= Seq::<Cst>::empty());
    }
    while i < args.len()
        invariant
            s == args@,
            i <= args.len(),
            count <= i,
            count == count_items(s.take(i as int)),
            count == 0 ==> first_item(s, 0) == first_item(s, i as int),
            count > 0 ==> first == first_item(s, 0) && first < i,
        decreases args.len() - i,
    {
        proof {
            assert(s.take(i + 1).drop_last() =~= s.take(i as int));
        }
        if !matches!(args[i].kind, CstKind::Empty) {
            if count == 0 {
                first = i;
            }
            count = count + 1;
        }
        i = i + 1;
    }
    proof {
        assert(s.take(s.len() as int) =~= s);
    }
    if count == 1 {
        Some(first)
    } else {
        None
    }
}

/// Lowers the parameter items of a definition's signature: plain binders,
/// `outer(x)`-style captures, and at most one `...rest`; `None` when an
/// item is not a valid parameter.
fn lower_params<'s>(items: &Vec<Cst<'s>>) -> (r: Option<Params<'s>>)
    ensures
        match r {
            Some(p) => params_match(items@, p),
            None => params_of(items@) is None,
        },
{
    let ghost s = items@;
    let mut fixed: Vec<&'s str> = Vec::new();
    let mut captures: Vec<Capture<'s>> = Vec::new();
    let mut rest: Option<&'s str> = None;
    let mut i: usize = 0;
    proof {
        assert(s.take(0) =~= Seq::<Cst>::empty());
        assert(fixed@ =~= Seq::<&'s str>::empty());
        assert(captures@ =~= Seq::<Capture<'s>>::empty());
    }
    while i < items.len()
        invariant
            s == items@,
            i <= items.len(),
            params_of(s.take(i as int)) == Some((fixed@, captures@, rest)),
        decreases items.len() - i,
    {
        proof {
            assert(s.take(i + 1).drop_last() =~= s.take(i as int));
            assert(s.take(i + 1).last() == s[i as int]);
        }
        match &items[i].kind {
            CstKind::Empty => {},
            CstKind::Unary { op: UnaryOp::Unpack, operand } => {
                if rest.is_some() {
                    proof {
                        lemma_params_none_prefix(s, i + 1);
                    }
                    return None;
                }
                match &operand.kind {
                    CstKind::Ident(name) => {
                        rest = Some(*name);
                    },
                    _ => {
                        proof {
                            lemma_params_none_prefix(s, i + 1);
                        }
                        return None;
                    },
                }
            },
            CstKind::Ident(x) => {
                fixed.push(*x);
            },
            CstKind::Call { callee, args } => {
                let ok_word = ident_is(callee, "outer");
                if !ok_word {
                    proof {
                        lemma_params_none_prefix(s, i + 1);
                    }
                    return None;
                }
                match single_arg(args) {
                    Some(k) => match &args[k].kind {
                        CstKind::Ident(bound) => {
                            captures.push(Capture { word: ParamWord::Outer, name: *bound });
                        },
                        _ => {
                            proof {
                                lemma_params_none_prefix(s, i + 1);
                            }
                            return None;
                        },
                    },
                    None => {
                        proof {
                            lemma_params_none_prefix(s, i + 1);
                        }
                        return None;
                    },
                }
            },
            _ => {
                proof {
                    lemma_params_none_prefix(s, i + 1);
                }
                return None;
            },
        }
        i = i + 1;
    }
    proof {
        assert(s.take(s.len() as int) =~= s);
    }
    Some(Params { fixed, captures, rest })
}

/// Lowers a `,` chain into statement sequences appended to `out`, left to
/// right.
fn collect_comma<'s>(cst: &Cst<'s>, out: &mut VecDeque<Code<'s>>) -> (r: Result<(), LowerError>)
    ensures
        match r {
            Ok(()) => {
                &&& err_args(*cst) is None
                &&& final(out)@.len() >= old(out)@.len()
                &&& final(out)@.subrange(0, old(out)@.len() as int) == old(out)@
                &&& ok_commas(*cst, final(out)@.subrange(old(out)@.len() as int, final(out)@.len() as int))
            },
            Err(e) => err_args(*cst) == Some(e),
        },
    decreases cst, 21int,
{
    let ghost o0 = out@;
    match &cst.kind {
        CstKind::Binary { op: BinOp::Comma, lhs, rhs } => {
            match collect_comma(lhs, out) {
                Err(e) => return Err(e),
                Ok(()) => {},
            }
            let ghost o1 = out@;
            match lower_code(rhs) {
                Err(e) => return Err(e),
                Ok(code) => {
                    out.push_back(code);
                    proof {
                        let n = out@.len() as int;
                        assert(out@.subrange(0, o0.len() as int) =~= o0);
                        assert(out@.subrange(o0.len() as int, n).drop_last() =~= o1.subrange(
                            o0.len() as int,
                            o1.len() as int,
                        ));
                    }
                    Ok(())
                },
            }
        },
        _ => match lower_code(cst) {
            Err(e) => Err(e),
            Ok(code) => {
                out.push_back(code);
                proof {
                    assert(out@.subrange(0, o0.len() as int) =~= o0);
                    assert(out@.subrange(o0.len() as int, out@.len() as int) =~= seq![code]);
                }
                Ok(())
            },
        },
    }
}

/// Lowers a possibly `,`-chained node (the root, a paren body) into an
/// [`Args`]; a comma-free node is one statement sequence.
pub fn lower_args<'s>(cst: &Cst<'s>) -> (r: Result<Args<'s>, LowerError>)
    ensures
        match r {
            Ok(a) => err_args(*cst) is None && ok_commas(*cst, a.0@),
            Err(e) => err_args(*cst) == Some(e),
        },
    decreases cst, 22int,
{
    let mut codes: VecDeque<Code<'s>> = VecDeque::new();
    match collect_comma(cst, &mut codes) {
        Err(e) => Err(e),
        Ok(()) => {
            proof {
                assert(codes@.subrange(0, codes@.len() as int) =~= codes@);
            }
            Ok(Args(codes))
        },
    }
}

/// Lowers bracketed items (call arguments, list elements) into an
/// [`Args`]; phantom `Empty` slots carry no expression and are dropped.
pub fn lower_items<'s>(items: &Vec<Cst<'s>>) -> (r: Result<Args<'s>, LowerError>)
    ensures
        match r {
            Ok(a) => err_items(items@) is None && ok_items(items@, a.0@),
            Err(e) => err_items(items@) == Some(e),
        },
    decreases items, 0int,
{
    let ghost s = items@;
    let mut codes: VecDeque<Code<'s>> = VecDeque::new();
    let mut i: usize = 0;
    proof {
        assert(s.take(0) =~= Seq::<Cst>::empty());
        assert(codes@ =~= Seq::<Code<'s>>::empty());
    }
    while i < items.len()
        invariant
            s == items@,
            i <= items.len(),
            err_items(s.take(i as int)) is None,
            ok_items(s.take(i as int), codes@),
        decreases items.len() - i,
    {
        proof {
            assert(s.take(i + 1).drop_last() =~= s.take(i as int));
            assert(s.take(i + 1).last() == s[i as int]);
        }
        if !matches!(items[i].kind, CstKind::Empty) {
            proof {
                assert(decreases_to!(items => items@[i as int]));
            }
            match lower_code(&items[i]) {
                Err(e) => {
                    proof {
                        lemma_err_items_prefix(s, i + 1);
                    }
                    return Err(e);
                },
                Ok(code) => {
                    let ghost c0 = codes@;
                    codes.push_back(code);
                    proof {
                        assert(codes@.drop_last() =~= c0);
                    }
                },
            }
        }
        i = i + 1;
    }
    proof {
        assert(s.take(s.len() as int) =~= s);
    }
    Ok(Args(codes))
}

/// Lowers a `;` chain into expressions appended to `out`, left to right.
fn collect_semi<'s>(cst: &Cst<'s>, out: &mut Vec<Expr<'s>>) -> (r: Result<(), LowerError>)
    ensures
        match r {
            Ok(()) => {
                &&& err_code(*cst) is None
                &&& final(out)@.len() >= old(out)@.len()
                &&& final(out)@.subrange(0, old(out)@.len() as int) == old(out)@
                &&& ok_semis(*cst, final(out)@.subrange(old(out)@.len() as int, final(out)@.len() as int))
            },
            Err(e) => err_code(*cst) == Some(e),
        },
    decreases cst, 19int,
{
    let ghost o0 = out@;
    match &cst.kind {
        CstKind::Binary { op: BinOp::Semi, lhs, rhs } => {
            match collect_semi(lhs, out) {
                Err(e) => return Err(e),
                Ok(()) => {},
            }
            let ghost o1 = out@;
            match lower_expr(rhs) {
                Err(e) => return Err(e),
                Ok(x) => {
                    out.push(x);
                    proof {
                        let n = out@.len() as int;
                        assert(out@.subrange(0, o0.len() as int) =~= o0);
                        assert(out@.subrange(o0.len() as int, n).drop_last() =~= o1.subrange(
                            o0.len() as int,
                            o1.len() as int,
                        ));
                    }
                    Ok(())
                },
            }
        },
        _ => match lower_expr(cst) {
            Err(e) => Err(e),
            Ok(x) => {
                out.push(x);
                proof {
                    assert(out@.subrange(0, o0.len() as int) =~= o0);
                    assert(out@.subrange(o0.len() as int, out@.len() as int) =~= seq![x]);
                }
                Ok(())
            },
        },
    }
}

/// Lowers a `;` chain into a statement sequence: the root of a script or
/// a REPL submission (a top-level `,` then has nowhere to go).
pub fn lower_code<'s>(cst: &Cst<'s>) -> (r: Result<Code<'s>, LowerError>)
    ensures
        match r {
            Ok(a) => err_code(*cst) is None && ok_code(*cst, a),
            Err(e) => err_code(*cst) == Some(e),
        },
    decreases cst, 20int,
{
    let mut exprs: Vec<Expr<'s>> = Vec::new();
    match collect_semi(cst, &mut exprs) {
        Err(e) => Err(e),
        Ok(()) => {
            proof {
                assert(exprs@.subrange(0, exprs@.len() as int) =~= exprs@);
            }
            Ok(Code(exprs))
        },
    }
}

/// Lowers an expression: a definition `name(params) -> body`, or an
/// assignment-level expression.
pub fn lower_expr<'s>(cst: &Cst<'s>) -> (r: Result<Expr<'s>, LowerError>)
    ensures
        match r {
            Ok(a) => err_expr(*cst) is None && ok_expr(*cst, a),
            Err(e) => err_expr(*cst) == Some(e),
        },
    decreases cst, 18int,
{
    match &cst.kind {
        CstKind::DefineFunction { signature, body } => match &signature.kind {
            CstKind::Call { callee, args } => match &callee.kind {
                CstKind::Ident(name) => match lower_params(args) {
                    None => Err(LowerError::InvalidSignature),
                    Some(params) => match lower_expr(body) {
                        Err(e) => Err(e),
                        Ok(b) => Ok(Expr::Def { name: *name, params, body: Box::new(b) }),
                    },
                },
                _ => Err(LowerError::InvalidSignature),
            },
            _ => Err(LowerError::InvalidSignature),
        },
        _ => match lower_assign(cst) {
            Err(e) => Err(e),
            Ok(a) => Ok(Expr::Assign(a)),
        },
    }
}

/// Lowers an assignment (`=`, `+=`, `<>`; right-associative); the left of
/// the operator is an [`LValue`] target.
pub fn lower_assign<'s>(cst: &Cst<'s>) -> (r: Result<Assign<'s>, LowerError>)
    ensures
        match r {
            Ok(a) => err_assign(*cst) is None && ok_assign(*cst, a),
            Err(e) => err_assign(*cst) == Some(e),
        },
    decreases cst, 17int,
{
    if let CstKind::Binary { op, lhs, rhs } = &cst.kind {
        let aop = match op {
            BinOp::Assign => Some(AssignOp::Assign),
            BinOp::AddAssign => Some(AssignOp::Add),
            BinOp::Swap => Some(AssignOp::Swap),
            _ => None,
        };
        if let Some(aop) = aop {
            let target = match lower_lvalue(lhs) {
                Err(e) => return Err(e),
                Ok(t) => t,
            };
            let value = match lower_assign(rhs) {
                Err(e) => return Err(e),
                Ok(v) => v,
            };
            return Ok(Assign::Store { target, op: aop, value: Box::new(value) });
        }
    }
    match lower_lor(cst) {
        Err(e) => Err(e),
        Ok(x) => Ok(Assign::Lor(x)),
    }
}

/// Lowers an assignment target: a list is a destructuring list; a call
/// other than `var(…)` is a place computed at runtime (`if(c, a, b) = …`);
/// anything else must be a single [`Place`].
fn lower_lvalue<'s>(cst: &Cst<'s>) -> (r: Result<LValue<'s>, LowerError>)
    ensures
        match r {
            Ok(a) => err_lvalue(*cst) is None && ok_lvalue(*cst, a),
            Err(e) => err_lvalue(*cst) == Some(e),
        },
    decreases cst, 3int,
{
    match &cst.kind {
        CstKind::List(items) => match lower_lpatterns(items) {
            Err(e) => Err(e),
            Ok(p) => Ok(LValue::Destructure(p)),
        },
        CstKind::Call { callee, .. } => {
            if !ident_is(callee, "var") {
                match lower_primary(cst) {
                    Err(e) => Err(e),
                    Ok(x) => Ok(LValue::Computed(Box::new(x))),
                }
            } else {
                match lower_place(cst) {
                    Err(e) => Err(e),
                    Ok(x) => Ok(LValue::Place(x)),
                }
            }
        },
        _ => match lower_place(cst) {
            Err(e) => Err(e),
            Ok(x) => Ok(LValue::Place(x)),
        },
    }
}

/// Lowers a single writable place: a variable, `var(<expr>)`, or a
/// (possibly nested) `:` index whose base is itself a place.
fn lower_place<'s>(cst: &Cst<'s>) -> (r: Result<Place<'s>, LowerError>)
    ensures
        match r {
            Ok(a) => err_place(*cst) is None && ok_place(*cst, a),
            Err(e) => err_place(*cst) == Some(e),
        },
    decreases cst, 2int,
{
    match &cst.kind {
        CstKind::Ident(s) => Ok(Place::Var(*s)),
        CstKind::Call { callee, args } => {
            if !ident_is(callee, "var") {
                return Err(LowerError::NotAssignable);
            }
            match single_arg(args) {
                None => Err(LowerError::NotAssignable),
                Some(k) => {
                    proof {
                        assert(decreases_to!(args => args@[k as int]));
                    }
                    match lower_code(&args[k]) {
                        Err(e) => Err(e),
                        Ok(code) => Ok(Place::DynVar(Box::new(code))),
                    }
                },
            }
        },
        CstKind::Binary { op: BinOp::Get, lhs, rhs } => {
            let base = match lower_place(lhs) {
                Err(e) => return Err(e),
                Ok(b) => b,
            };
            match lower_primary(rhs) {
                Err(e) => Err(e),
                Ok(key) => Ok(Place::Index { base: Box::new(base), key }),
            }
        },
        _ => Err(LowerError::NotAssignable),
    }
}

/// Lowers the elements of a destructuring list: a `...x` element is the
/// single rest binder (a second is an error), elements after it go after
/// the rest; `Empty` slots are dropped.
fn lower_lpatterns<'s>(items: &Vec<Cst<'s>>) -> (r: Result<LPatterns<'s>, LowerError>)
    ensures
        match r {
            Ok(p) => err_lpatterns(items@) is None && ok_lpatterns(
                items@,
                p.before@,
                match p.rest {
                    Some(x) => Some((*x.binder, x.after@)),
                    None => None,
                },
            ),
            Err(e) => err_lpatterns(items@) == Some(e),
        },
    decreases items, 0int,
{
    let ghost s = items@;
    let mut before: Vec<LValue<'s>> = Vec::new();
    let mut binder: Option<LValue<'s>> = None;
    let mut after: Vec<LValue<'s>> = Vec::new();
    let mut i: usize = 0;
    proof {
        assert(s.take(0) =~= Seq::<Cst>::empty());
        assert(before@ =~= Seq::<LValue<'s>>::empty());
    }
    while i < items.len()
        invariant
            s == items@,
            i <= items.len(),
            err_lpatterns(s.take(i as int)) is None,
            ok_lpatterns(
                s.take(i as int),
                before@,
                match binder {
                    Some(b) => Some((b, after@)),
                    None => None,
                },
            ),
            binder is Some <==> count_unpacks(s.take(i as int)) > 0,
            binder is None ==> after@.len() == 0,
        decreases items.len() - i,
    {
        proof {
            assert(s.take(i + 1).drop_last() =~= s.take(i as int));
            assert(s.take(i + 1).last() == s[i as int]);
            assert(decreases_to!(items => items@[i as int]));
        }
        match &items[i].kind {
            CstKind::Empty => {},
            CstKind::Unary { op: UnaryOp::Unpack, operand } => {
                if binder.is_some() {
                    proof {
                        lemma_err_lpatterns_prefix(s, i + 1);
                    }
                    return Err(LowerError::MultipleRest);
                }
                match lower_lvalue(operand) {
                    Err(e) => {
                        proof {
                            lemma_err_lpatterns_prefix(s, i + 1);
                        }
                        return Err(e);
                    },
                    Ok(b) => {
                        binder = Some(b);
                        proof {
                            assert(after@ =~= Seq::<LValue<'s>>::empty());
                        }
                    },
                }
            },
            _ => {
                match lower_lvalue(&items[i]) {
                    Err(e) => {
                        proof {
                            lemma_err_lpatterns_prefix(s, i + 1);
                        }
                        return Err(e);
                    },
                    Ok(x) => {
                        if binder.is_some() {
                            let ghost a0 = after@;
                            after.push(x);
                            proof {
                                assert(after@.drop_last() =~= a0);
                            }
                        } else {
                            let ghost b0 = before@;
                            before.push(x);
                            proof {
                                assert(before@.drop_last() =~= b0);
                            }
                        }
                    },
                }
            },
        }
        i = i + 1;
    }
    proof {
        assert(s.take(s.len() as int) =~= s);
    }
    let rest = match binder {
        Some(b) => Some(LRest { binder: Box::new(b), after }),
        None => None,
    };
    Ok(LPatterns { before, rest })
}

/// Lowers a `||` chain (left-associative).
pub fn lower_lor<'s>(cst: &Cst<'s>) -> (r: Result<Lor<'s>, LowerError>)
    ensures
        match r {
            Ok(a) => err_lor(*cst) is None && ok_lor(*cst, a),
            Err(e) => err_lor(*cst) == Some(e),
        },
    decreases cst, 16int,
{
    match &cst.kind {
        CstKind::Binary { op: BinOp::Or, lhs, rhs } => {
            let l = match lower_lor(lhs) {
                Err(e) => return Err(e),
                Ok(x) => x,
            };
            match lower_land(rhs) {
                Err(e) => Err(e),
                Ok(r) => Ok(Lor::Or { lhs: Box::new(l), rhs: r }),
            }
        },
        _ => match lower_land(cst) {
            Err(e) => Err(e),
            Ok(x) => Ok(Lor::Land(x)),
        },
    }
}

/// Lowers a `&&` chain (left-associative).
pub fn lower_land<'s>(cst: &Cst<'s>) -> (r: Result<Land<'s>, LowerError>)
    ensures
        match r {
            Ok(a) => err_land(*cst) is None && ok_land(*cst, a),
            Err(e) => err_land(*cst) == Some(e),
        },
    decreases cst, 15int,
{
    match &cst.kind {
        CstKind::Binary { op: BinOp::And, lhs, rhs } => {
            let l = match lower_land(lhs) {
                Err(e) => return Err(e),
                Ok(x) => x,
            };
            match lower_equality(rhs) {
                Err(e) => Err(e),
                Ok(r) => Ok(Land::And { lhs: Box::new(l), rhs: r }),
            }
        },
        _ => match lower_equality(cst) {
            Err(e) => Err(e),
            Ok(x) => Ok(Land::Equality(x)),
        },
    }
}

/// Lowers an equality chain (`==`, `!=`; left-associative).
pub fn lower_equality<'s>(cst: &Cst<'s>) -> (r: Result<Equality<'s>, LowerError>)
    ensures
        match r {
            Ok(a) => err_equality(*cst) is None && ok_equality(*cst, a),
            Err(e) => err_equality(*cst) == Some(e),
        },
    decreases cst, 14int,
{
    if let CstKind::Binary { op, lhs, rhs } = &cst.kind {
        if *op == BinOp::Eq || *op == BinOp::NotEq {
            let l = match lower_equality(lhs) {
                Err(e) => return Err(e),
                Ok(x) => Box::new(x),
            };
            let r = match lower_compare(rhs) {
                Err(e) => return Err(e),
                Ok(x) => x,
            };
            return if *op == BinOp::Eq {
                Ok(Equality::Eq { lhs: l, rhs: r })
            } else {
                Ok(Equality::Ne { lhs: l, rhs: r })
            };
        }
    }
    match lower_compare(cst) {
        Err(e) => Err(e),
        Ok(x) => Ok(Equality::Compare(x)),
    }
}

/// Lowers a comparison chain (`<`, `<=`, `>`, `>=`; left-associative).
pub fn lower_compare<'s>(cst: &Cst<'s>) -> (r: Result<Compare<'s>, LowerError>)
    ensures
        match r {
            Ok(a) => err_compare(*cst) is None && ok_compare(*cst, a),
            Err(e) => err_compare(*cst) == Some(e),
        },
    decreases cst, 13int,
{
    if let CstKind::Binary { op, lhs, rhs } = &cst.kind {
        if *op == BinOp::Lt || *op == BinOp::LtEq || *op == BinOp::Gt || *op == BinOp::GtEq {
            let l = match lower_compare(lhs) {
                Err(e) => return Err(e),
                Ok(x) => Box::new(x),
            };
            let r = match lower_additive(rhs) {
                Err(e) => return Err(e),
                Ok(x) => x,
            };
            return match op {
                BinOp::Lt => Ok(Compare::Lt { lhs: l, rhs: r }),
                BinOp::LtEq => Ok(Compare::Le { lhs: l, rhs: r }),
                BinOp::Gt => Ok(Compare::Gt { lhs: l, rhs: r }),
                _ => Ok(Compare::Ge { lhs: l, rhs: r }),
            };
        }
    }
    match lower_additive(cst) {
        Err(e) => Err(e),
        Ok(x) => Ok(Compare::Additive(x)),
    }
}

/// Lowers an additive chain (`+`, `-`; left-associative).
pub fn lower_additive<'s>(cst: &Cst<'s>) -> (r: Result<Additive<'s>, LowerError>)
    ensures
        match r {
            Ok(a) => err_additive(*cst) is None && ok_additive(*cst, a),
            Err(e) => err_additive(*cst) == Some(e),
        },
    decreases cst, 12int,
{
    if let CstKind::Binary { op, lhs, rhs } = &cst.kind {
        if *op == BinOp::Add || *op == BinOp::Sub {
            let l = match lower_additive(lhs) {
                Err(e) => return Err(e),
                Ok(x) => Box::new(x),
            };
            let r = match lower_mult(rhs) {
                Err(e) => return Err(e),
                Ok(x) => x,
            };
            return if *op == BinOp::Add {
                Ok(Additive::Add { lhs: l, rhs: r })
            } else {
                Ok(Additive::Sub { lhs: l, rhs: r })
            };
        }
    }
    match lower_mult(cst) {
        Err(e) => Err(e),
        Ok(x) => Ok(Additive::Mult(x)),
    }
}

/// Lowers a multiplicative chain (`*`, `/`, `%`; left-associative).
pub fn lower_mult<'s>(cst: &Cst<'s>) -> (r: Result<Mult<'s>, LowerError>)
    ensures
        match r {
            Ok(a) => err_mult(*cst) is None && ok_mult(*cst, a),
            Err(e) => err_mult(*cst) == Some(e),
        },
    decreases cst, 11int,
{
    if let CstKind::Binary { op, lhs, rhs } = &cst.kind {
        if *op == BinOp::Mul || *op == BinOp::Div || *op == BinOp::Rem {
            let l = match lower_mult(lhs) {
                Err(e) => return Err(e),
                Ok(x) => Box::new(x),
            };
            let r = match lower_power(rhs) {
                Err(e) => return Err(e),
                Ok(x) => x,
            };
            return match op {
                BinOp::Mul => Ok(Mult::Mul { lhs: l, rhs: r }),
                BinOp::Div => Ok(Mult::Div { lhs: l, rhs: r }),
                _ => Ok(Mult::Rem { lhs: l, rhs: r }),
            };
        }
    }
    match lower_power(cst) {
        Err(e) => Err(e),
        Ok(x) => Ok(Mult::Power(x)),
    }
}

/// Lowers a power chain (`^`; right-associative).
pub fn lower_power<'s>(cst: &Cst<'s>) -> (r: Result<Power<'s>, LowerError>)
    ensures
        match r {
            Ok(a) => err_power(*cst) is None && ok_power(*cst, a),
            Err(e) => err_power(*cst) == Some(e),
        },
    decreases cst, 10int,
{
    match &cst.kind {
        CstKind::Binary { op: BinOp::Pow, lhs, rhs } => {
            let base = match lower_unary(lhs) {
                Err(e) => return Err(e),
                Ok(x) => x,
            };
            match lower_power(rhs) {
                Err(e) => Err(e),
                Ok(exp) => Ok(Power::Pow { base, exp: Box::new(exp) }),
            }
        },
        _ => match lower_unary(cst) {
            Err(e) => Err(e),
            Ok(x) => Ok(Power::Unary(x)),
        },
    }
}

/// Lowers a prefix application (`-`, `+`, `!`, `...`).
pub fn lower_unary<'s>(cst: &Cst<'s>) -> (r: Result<Unary<'s>, LowerError>)
    ensures
        match r {
            Ok(a) => err_unary(*cst) is None && ok_unary(*cst, a),
            Err(e) => err_unary(*cst) == Some(e),
        },
    decreases cst, 9int,
{
    match &cst.kind {
        CstKind::Unary { op, operand } => {
            let inner = match lower_unary(operand) {
                Err(e) => return Err(e),
                Ok(x) => Box::new(x),
            };
            Ok(
                match op {
                    UnaryOp::Neg => Unary::Neg(inner),
                    UnaryOp::Pos => Unary::Pos(inner),
                    UnaryOp::Not => Unary::Not(inner),
                    UnaryOp::Unpack => Unary::Unpack(inner),
                },
            )
        },
        _ => match lower_get(cst) {
            Err(e) => Err(e),
            Ok(x) => Ok(Unary::Get(x)),
        },
    }
}

/// Lowers a `:`/`~` chain (left-associative); the key is always a
/// [`Primary`].
pub fn lower_get<'s>(cst: &Cst<'s>) -> (r: Result<Get<'s>, LowerError>)
    ensures
        match r {
            Ok(a) => err_get(*cst) is None && ok_get(*cst, a),
            Err(e) => err_get(*cst) == Some(e),
        },
    decreases cst, 8int,
{
    if let CstKind::Binary { op, lhs, rhs } = &cst.kind {
        if *op == BinOp::Get || *op == BinOp::Match {
            let base = match lower_get(lhs) {
                Err(e) => return Err(e),
                Ok(x) => Box::new(x),
            };
            let key = match lower_primary(rhs) {
                Err(e) => return Err(e),
                Ok(x) => x,
            };
            return Ok(Get::Index { base, op: get_op(*op), key });
        }
    }
    match lower_primary(cst) {
        Err(e) => Err(e),
        Ok(x) => Ok(Get::Primary(x)),
    }
}

/// Lowers a primary: an atom, a call, or a bracketed form.
pub fn lower_primary<'s>(cst: &Cst<'s>) -> (r: Result<Primary<'s>, LowerError>)
    ensures
        match r {
            Ok(a) => err_primary(*cst) is None && ok_primary(*cst, a),
            Err(e) => err_primary(*cst) == Some(e),
        },
    decreases cst, 1int,
{
    match &cst.kind {
        CstKind::Number(s) => Ok(Primary::Number(*s)),
        CstKind::Str(s) => Ok(Primary::Str(*s)),
        CstKind::Ident(s) => Ok(Primary::Ident(*s)),
        CstKind::Call { callee, args } => {
            let name = match ident_of(callee) {
                Err(e) => return Err(e),
                Ok(n) => n,
            };
            match lower_items(args) {
                Err(e) => Err(e),
                Ok(a) => Ok(Primary::Call { name, args: a }),
            }
        },
        CstKind::List(items) => match lower_items(items) {
            Err(e) => Err(e),
            Ok(a) => Ok(Primary::List(a)),
        },
        CstKind::MapLiteral(items) => match lower_map_entries(items) {
            Err(e) => Err(e),
            Ok(v) => Ok(Primary::MapLiteral(v)),
        },
        CstKind::Paren(inner) => match lower_args(inner) {
            Err(e) => Err(e),
            Ok(a) => Ok(Primary::Paren(a)),
        },
        other => Err(LowerError::Unexpected(describe(other))),
    }
}

/// Lowers the items of a map literal: each a map entry, or a phantom
/// `Empty` (dropped).
fn lower_map_entries<'s>(items: &Vec<Cst<'s>>) -> (r: Result<Vec<MapEntry<'s>>, LowerError>)
    ensures
        match r {
            Ok(v) => err_map(items@) is None && ok_map(items@, v@),
            Err(e) => err_map(items@) == Some(e),
        },
    decreases items, 0int,
{
    let ghost s = items@;
    let mut out: Vec<MapEntry<'s>> = Vec::new();
    let mut i: usize = 0;
    proof {
        assert(s.take(0) =~= Seq::<Cst>::empty());
        assert(out@ =~= Seq::<MapEntry<'s>>::empty());
    }
    while i < items.len()
        invariant
            s == items@,
            i <= items.len(),
            err_map(s.take(i as int)) is None,
            ok_map(s.take(i as int), out@),
        decreases items.len() - i,
    {
        proof {
            assert(s.take(i + 1).drop_last() =~= s.take(i as int));
            assert(s.take(i + 1).last() == s[i as int]);
            assert(decreases_to!(items => items@[i as int]));
        }
        let ghost o0 = out@;
        match &items[i].kind {
            CstKind::Empty => {},
            CstKind::MapEntry { key, value } => {
                match value {
                    Some(v) => {
                        let k = match lower_assign(key) {
                            Err(e) => {
                                proof {
                                    lemma_err_map_prefix(s, i + 1);
                                }
                                return Err(e);
                            },
                            Ok(x) => x,
                        };
                        let x = match lower_expr(v) {
                            Err(e) => {
                                proof {
                                    lemma_err_map_prefix(s, i + 1);
                                }
                                return Err(e);
                            },
                            Ok(x) => x,
                        };
                        out.push(MapEntry::Pair { key: Box::new(k), value: Box::new(x) });
                    },
                    None => {
                        let code = match lower_code(key) {
                            Err(e) => {
                                proof {
                                    lemma_err_map_prefix(s, i + 1);
                                }
                                return Err(e);
                            },
                            Ok(c) => c,
                        };
                        out.push(MapEntry::Single(code));
                    },
                }
                proof {
                    assert(out@.drop_last() =~= o0);
                }
            },
            other => {
                proof {
                    lemma_err_map_prefix(s, i + 1);
                }
                return Err(LowerError::Unexpected(describe(other)));
            },
        }
        i = i + 1;
    }
    proof {
        assert(s.take(s.len() as int) =~= s);
    }
    Ok(out)
}

// --- conversions ----------------------------------------------------

/// `r` is what lowering a `,` chain (the root, a paren body) `cst` gives: the lowered tree, or the
/// first error met.
pub open spec fn lowers_args<'s>(cst: &Cst<'s>, r: Result<Args<'s>, LowerError>) -> bool {
    match r {
        Ok(a) => err_args(*cst) is None && ok_commas(*cst, a.0@),
        Err(e) => err_args(*cst) == Some(e),
    }
}

impl<'a, 's> TryFrom<&'a Cst<'s>> for Args<'s> {
    type Error = LowerError;

    /// Lowers a `,` chain (the root, a paren body); see [`lower_args`].
    fn try_from(cst: &'a Cst<'s>) -> (r: Result<Args<'s>, LowerError>)
        ensures
            lowers_args(cst, r),
    {
        lower_args(cst)
    }
}

impl<'a, 's> vstd::std_specs::convert::TryFromSpecImpl<&'a Cst<'s>> for Args<'s> {
    open spec fn obeys_try_from_spec() -> bool {
        false
    }

    open spec fn try_from_spec(cst: &'a Cst<'s>) -> Result<Args<'s>, LowerError> {
        choose|r: Result<Args<'s>, LowerError>| #[trigger] lowers_args(cst, r)
    }
}

/// `r` is what lowering a `;` chain `cst` gives: the lowered tree, or the
/// first error met.
pub open spec fn lowers_code<'s>(cst: &Cst<'s>, r: Result<Code<'s>, LowerError>) -> bool {
    match r {
        Ok(a) => err_code(*cst) is None && ok_code(*cst, a),
        Err(e) => err_code(*cst) == Some(e),
    }
}

impl<'a, 's> TryFrom<&'a Cst<'s>> for Code<'s> {
    type Error = LowerError;

    /// Lowers a `;` chain; see [`lower_code`].
    fn try_from(cst: &'a Cst<'s>) -> (r: Result<Code<'s>, LowerError>)
        ensures
            lowers_code(cst, r),
    {
        lower_code(cst)
    }
}

impl<'a, 's> vstd::std_specs::convert::TryFromSpecImpl<&'a Cst<'s>> for Code<'s> {
    open spec fn obeys_try_from_spec() -> bool {
        false
    }

    open spec fn try_from_spec(cst: &'a Cst<'s>) -> Result<Code<'s>, LowerError> {
        choose|r: Result<Code<'s>, LowerError>| #[trigger] lowers_code(cst, r)
    }
}

/// `r` is what lowering an expression `cst` gives: the lowered tree, or the
/// first error met.
pub open spec fn lowers_expr<'s>(cst: &Cst<'s>, r: Result<Expr<'s>, LowerError>) -> bool {
    match r {
        Ok(a) => err_expr(*cst) is None && ok_expr(*cst, a),
        Err(e) => err_expr(*cst) == Some(e),
    }
}

impl<'a, 's> TryFrom<&'a Cst<'s>> for Expr<'s> {
    type Error = LowerError;

    /// Lowers an expression; see [`lower_expr`].
    fn try_from(cst: &'a Cst<'s>) -> (r: Result<Expr<'s>, LowerError>)
        ensures
            lowers_expr(cst, r),
    {
        lower_expr(cst)
    }
}

impl<'a, 's> vstd::std_specs::convert::TryFromSpecImpl<&'a Cst<'s>> for Expr<'s> {
    open spec fn obeys_try_from_spec() -> bool {
        false
    }

    open spec fn try_from_spec(cst: &'a Cst<'s>) -> Result<Expr<'s>, LowerError> {
        choose|r: Result<Expr<'s>, LowerError>| #[trigger] lowers_expr(cst, r)
    }
}

/// `r` is what lowering an assignment `cst` gives: the lowered tree, or the
/// first error met.
pub open spec fn lowers_assign<'s>(cst: &Cst<'s>, r: Result<Assign<'s>, LowerError>) -> bool {
    match r {
        Ok(a) => err_assign(*cst) is None && ok_assign(*cst, a),
        Err(e) => err_assign(*cst) == Some(e),
    }
}

impl<'a, 's> TryFrom<&'a Cst<'s>> for Assign<'s> {
    type Error = LowerError;

    /// Lowers an assignment; see [`lower_assign`].
    fn try_from(cst: &'a Cst<'s>) -> (r: Result<Assign<'s>, LowerError>)
        ensures
            lowers_assign(cst, r),
    {
        lower_assign(cst)
    }
}

impl<'a, 's> vstd::std_specs::convert::TryFromSpecImpl<&'a Cst<'s>> for Assign<'s> {
    open spec fn obeys_try_from_spec() -> bool {
        false
    }

    open spec fn try_from_spec(cst: &'a Cst<'s>) -> Result<Assign<'s>, LowerError> {
        choose|r: Result<Assign<'s>, LowerError>| #[trigger] lowers_assign(cst, r)
    }
}

/// `r` is what lowering a `||` chain `cst` gives: the lowered tree, or the
/// first error met.
pub open spec fn lowers_lor<'s>(cst: &Cst<'s>, r: Result<Lor<'s>, LowerError>) -> bool {
    match r {
        Ok(a) => err_lor(*cst) is None && ok_lor(*cst, a),
        Err(e) => err_lor(*cst) == Some(e),
    }
}

impl<'a, 's> TryFrom<&'a Cst<'s>> for Lor<'s> {
    type Error = LowerError;

    /// Lowers a `||` chain; see [`lower_lor`].
    fn try_from(cst: &'a Cst<'s>) -> (r: Result<Lor<'s>, LowerError>)
        ensures
            lowers_lor(cst, r),
    {
        lower_lor(cst)
    }
}

impl<'a, 's> vstd::std_specs::convert::TryFromSpecImpl<&'a Cst<'s>> for Lor<'s> {
    open spec fn obeys_try_from_spec() -> bool {
        false
    }

    open spec fn try_from_spec(cst: &'a Cst<'s>) -> Result<Lor<'s>, LowerError> {
        choose|r: Result<Lor<'s>, LowerError>| #[trigger] lowers_lor(cst, r)
    }
}

/// `r` is what lowering a `&&` chain `cst` gives: the lowered tree, or the
/// first error met.
pub open spec fn lowers_land<'s>(cst: &Cst<'s>, r: Result<Land<'s>, LowerError>) -> bool {
    match r {
        Ok(a) => err_land(*cst) is None && ok_land(*cst, a),
        Err(e) => err_land(*cst) == Some(e),
    }
}

impl<'a, 's> TryFrom<&'a Cst<'s>> for Land<'s> {
    type Error = LowerError;

    /// Lowers a `&&` chain; see [`lower_land`].
    fn try_from(cst: &'a Cst<'s>) -> (r: Result<Land<'s>, LowerError>)
        ensures
            lowers_land(cst, r),
    {
        lower_land(cst)
    }
}

impl<'a, 's> vstd::std_specs::convert::TryFromSpecImpl<&'a Cst<'s>> for Land<'s> {
    open spec fn obeys_try_from_spec() -> bool {
        false
    }

    open spec fn try_from_spec(cst: &'a Cst<'s>) -> Result<Land<'s>, LowerError> {
        choose|r: Result<Land<'s>, LowerError>| #[trigger] lowers_land(cst, r)
    }
}

/// `r` is what lowering an equality chain `cst` gives: the lowered tree, or the
/// first error met.
pub open spec fn lowers_equality<'s>(cst: &Cst<'s>, r: Result<Equality<'s>, LowerError>) -> bool {
    match r {
        Ok(a) => err_equality(*cst) is None && ok_equality(*cst, a),
        Err(e) => err_equality(*cst) == Some(e),
    }
}

impl<'a, 's> TryFrom<&'a Cst<'s>> for Equality<'s> {
    type Error = LowerError;

    /// Lowers an equality chain; see [`lower_equality`].
    fn try_from(cst: &'a Cst<'s>) -> (r: Result<Equality<'s>, LowerError>)
        ensures
            lowers_equality(cst, r),
    {
        lower_equality(cst)
    }
}

impl<'a, 's> vstd::std_specs::convert::TryFromSpecImpl<&'a Cst<'s>> for Equality<'s> {
    open spec fn obeys_try_from_spec() -> bool {
        false
    }

    open spec fn try_from_spec(cst: &'a Cst<'s>) -> Result<Equality<'s>, LowerError> {
        choose|r: Result<Equality<'s>, LowerError>| #[trigger] lowers_equality(cst, r)
    }
}

/// `r` is what lowering a comparison chain `cst` gives: the lowered tree, or the
/// first error met.
pub open spec fn lowers_compare<'s>(cst: &Cst<'s>, r: Result<Compare<'s>, LowerError>) -> bool {
    match r {
        Ok(a) => err_compare(*cst) is None && ok_compare(*cst, a),
        Err(e) => err_compare(*cst) == Some(e),
    }
}

impl<'a, 's> TryFrom<&'a Cst<'s>> for Compare<'s> {
    type Error = LowerError;

    /// Lowers a comparison chain; see [`lower_compare`].
    fn try_from(cst: &'a Cst<'s>) -> (r: Result<Compare<'s>, LowerError>)
        ensures
            lowers_compare(cst, r),
    {
        lower_compare(cst)
    }
}

impl<'a, 's> vstd::std_specs::convert::TryFromSpecImpl<&'a Cst<'s>> for Compare<'s> {
    open spec fn obeys_try_from_spec() -> bool {
        false
    }

    open spec fn try_from_spec(cst: &'a Cst<'s>) -> Result<Compare<'s>, LowerError> {
        choose|r: Result<Compare<'s>, LowerError>| #[trigger] lowers_compare(cst, r)
    }
}

/// `r` is what lowering an additive chain `cst` gives: the lowered tree, or the
/// first error met.
pub open spec fn lowers_additive<'s>(cst: &Cst<'s>, r: Result<Additive<'s>, LowerError>) -> bool {
    match r {
        Ok(a) => err_additive(*cst) is None && ok_additive(*cst, a),
        Err(e) => err_additive(*cst) == Some(e),
    }
}

impl<'a, 's> TryFrom<&'a Cst<'s>> for Additive<'s> {
    type Error = LowerError;

    /// Lowers an additive chain; see [`lower_additive`].
    fn try_from(cst: &'a Cst<'s>) -> (r: Result<Additive<'s>, LowerError>)
        ensures
            lowers_additive(cst, r),
    {
        lower_additive(cst)
    }
}

impl<'a, 's> vstd::std_specs::convert::TryFromSpecImpl<&'a Cst<'s>> for Additive<'s> {
    open spec fn obeys_try_from_spec() -> bool {
        false
    }

    open spec fn try_from_spec(cst: &'a Cst<'s>) -> Result<Additive<'s>, LowerError> {
        choose|r: Result<Additive<'s>, LowerError>| #[trigger] lowers_additive(cst, r)
    }
}

/// `r` is what lowering a multiplicative chain `cst` gives: the lowered tree, or the
/// first error met.
pub open spec fn lowers_mult<'s>(cst: &Cst<'s>, r: Result<Mult<'s>, LowerError>) -> bool {
    match r {
        Ok(a) => err_mult(*cst) is None && ok_mult(*cst, a),
        Err(e) => err_mult(*cst) == Some(e),
    }
}

impl<'a, 's> TryFrom<&'a Cst<'s>> for Mult<'s> {
    type Error = LowerError;

    /// Lowers a multiplicative chain; see [`lower_mult`].
    fn try_from(cst: &'a Cst<'s>) -> (r: Result<Mult<'s>, LowerError>)
        ensures
            lowers_mult(cst, r),
    {
        lower_mult(cst)
    }
}

impl<'a, 's> vstd::std_specs::convert::TryFromSpecImpl<&'a Cst<'s>> for Mult<'s> {
    open spec fn obeys_try_from_spec() -> bool {
        false
    }

    open spec fn try_from_spec(cst: &'a Cst<'s>) -> Result<Mult<'s>, LowerError> {
        choose|r: Result<Mult<'s>, LowerError>| #[trigger] lowers_mult(cst, r)
    }
}

/// `r` is what lowering a power chain `cst` gives: the lowered tree, or the
/// first error met.
pub open spec fn lowers_power<'s>(cst: &Cst<'s>, r: Result<Power<'s>, LowerError>) -> bool {
    match r {
        Ok(a) => err_power(*cst) is None && ok_power(*cst, a),
        Err(e) => err_power(*cst) == Some(e),
    }
}

impl<'a, 's> TryFrom<&'a Cst<'s>> for Power<'s> {
    type Error = LowerError;

    /// Lowers a power chain; see [`lower_power`].
    fn try_from(cst: &'a Cst<'s>) -> (r: Result<Power<'s>, LowerError>)
        ensures
            lowers_power(cst, r),
    {
        lower_power(cst)
    }
}

impl<'a, 's> vstd::std_specs::convert::TryFromSpecImpl<&'a Cst<'s>> for Power<'s> {
    open spec fn obeys_try_from_spec() -> bool {
        false
    }

    open spec fn try_from_spec(cst: &'a Cst<'s>) -> Result<Power<'s>, LowerError> {
        choose|r: Result<Power<'s>, LowerError>| #[trigger] lowers_power(cst, r)
    }
}

/// `r` is what lowering a prefix application `cst` gives: the lowered tree, or the
/// first error met.
pub open spec fn lowers_unary<'s>(cst: &Cst<'s>, r: Result<Unary<'s>, LowerError>) -> bool {
    match r {
        Ok(a) => err_unary(*cst) is None && ok_unary(*cst, a),
        Err(e) => err_unary(*cst) == Some(e),
    }
}

impl<'a, 's> TryFrom<&'a Cst<'s>> for Unary<'s> {
    type Error = LowerError;

    /// Lowers a prefix application; see [`lower_unary`].
    fn try_from(cst: &'a Cst<'s>) -> (r: Result<Unary<'s>, LowerError>)
        ensures
            lowers_unary(cst, r),
    {
        lower_unary(cst)
    }
}

impl<'a, 's> vstd::std_specs::convert::TryFromSpecImpl<&'a Cst<'s>> for Unary<'s> {
    open spec fn obeys_try_from_spec() -> bool {
        false
    }

    open spec fn try_from_spec(cst: &'a Cst<'s>) -> Result<Unary<'s>, LowerError> {
        choose|r: Result<Unary<'s>, LowerError>| #[trigger] lowers_unary(cst, r)
    }
}

/// `r` is what lowering a `:`/`~` chain `cst` gives: the lowered tree, or the
/// first error met.
pub open spec fn lowers_get<'s>(cst: &Cst<'s>, r: Result<Get<'s>, LowerError>) -> bool {
    match r {
        Ok(a) => err_get(*cst) is None && ok_get(*cst, a),
        Err(e) => err_get(*cst) == Some(e),
    }
}

impl<'a, 's> TryFrom<&'a Cst<'s>> for Get<'s> {
    type Error = LowerError;

    /// Lowers a `:`/`~` chain; see [`lower_get`].
    fn try_from(cst: &'a Cst<'s>) -> (r: Result<Get<'s>, LowerError>)
        ensures
            lowers_get(cst, r),
    {
        lower_get(cst)
    }
}

impl<'a, 's> vstd::std_specs::convert::TryFromSpecImpl<&'a Cst<'s>> for Get<'s> {
    open spec fn obeys_try_from_spec() -> bool {
        false
    }

    open spec fn try_from_spec(cst: &'a Cst<'s>) -> Result<Get<'s>, LowerError> {
        choose|r: Result<Get<'s>, LowerError>| #[trigger] lowers_get(cst, r)
    }
}

/// `r` is what lowering a primary `cst` gives: the lowered tree, or the
/// first error met.
pub open spec fn lowers_primary<'s>(cst: &Cst<'s>, r: Result<Primary<'s>, LowerError>) -> bool {
    match r {
        Ok(a) => err_primary(*cst) is None && ok_primary(*cst, a),
        Err(e) => err_primary(*cst) == Some(e),
    }
}

impl<'a, 's> TryFrom<&'a Cst<'s>> for Primary<'s> {
    type Error = LowerError;

    /// Lowers a primary; see [`lower_primary`].
    fn try_from(cst: &'a Cst<'s>) -> (r: Result<Primary<'s>, LowerError>)
        ensures
            lowers_primary(cst, r),
    {
        lower_primary(cst)
    }
}

impl<'a, 's> vstd::std_specs::convert::TryFromSpecImpl<&'a Cst<'s>> for Primary<'s> {
    open spec fn obeys_try_from_spec() -> bool {
        false
    }

    open spec fn try_from_spec(cst: &'a Cst<'s>) -> Result<Primary<'s>, LowerError> {
        choose|r: Result<Primary<'s>, LowerError>| #[trigger] lowers_primary(cst, r)
    }
}

/// The display text of a lowering error.
pub open spec fn lower_error_text(e: LowerError) -> Seq<char> {
    match e {
        LowerError::Unexpected(what) => "unexpected "@ + what@ + " where an expression was required"@,
        LowerError::MultipleRest => "multiple rest binders (`...`) at the same level"@,
        LowerError::NotAssignable => "left-hand side is not a valid assignment target"@,
        LowerError::InvalidSignature => "function definition has invalid parameters"@,
    }
}

impl LowerError {
    /// The error's display text.
    pub fn message(&self) -> (r: String)
        ensures
            r@ == lower_error_text(*self),
    {
        match self {
            LowerError::Unexpected(what) => {
                let mut m = String::from_str("unexpected ");
                m.append(what);
                m.append(" where an expression was required");
                m
            },
            LowerError::MultipleRest => String::from_str(
                "multiple rest binders (`...`) at the same level",
            ),
            LowerError::NotAssignable => String::from_str(
                "left-hand side is not a valid assignment target",
            ),
            LowerError::InvalidSignature => String::from_str(
                "function definition has invalid parameters",
            ),
        }
    }
}

// ====================================================================
// Lowering ignores trivia
// ====================================================================

/// Two item lists related item by item by [`stripped`].
pub open spec fn all_stripped(rs: Seq<Cst>, cs: Seq<Cst>) -> bool {
    &&& rs.len() == cs.len()
    &&& forall|i: int| 0 <= i < cs.len() ==> stripped(#[trigger] rs[i], cs[i])
}

/// Stripping keeps which items are `Empty`, which are rest items, and so
/// the single-argument position and the signature read from a list.
proof fn lemma_strip_list_facts(rs: Seq<Cst>, cs: Seq<Cst>)
    requires
        all_stripped(rs, cs),
    ensures
        count_items(rs) == count_items(cs),
        count_unpacks(rs) == count_unpacks(cs),
        forall|i: int| first_item(rs, i) == first_item(cs, i),
        single_arg_at(rs) == single_arg_at(cs),
        params_of(rs) == params_of(cs),
    decreases cs,
{
    if cs.len() > 0 {
        let rl = rs.drop_last();
        let cl = cs.drop_last();
        assert forall|i: int| 0 <= i < cl.len() implies stripped(#[trigger] rl[i], cl[i]) by {
            assert(rl[i] == rs[i]);
            assert(cl[i] == cs[i]);
        }
        lemma_strip_list_facts(rl, cl);
        let r = rs.last();
        let c = cs.last();
        assert(stripped(rs[cs.len() - 1], cs[cs.len() - 1]));
        assert forall|i: int| first_item(rs, i) == first_item(cs, i) by {
            lemma_strip_first_item(rs, cs, i);
        }
        match c.kind {
            CstKind::Unary { op, operand } => {
                match r.kind {
                    CstKind::Unary { op: ro, operand: rx } => {
                        assert(stripped(*rx, *operand));
                    },
                    _ => {},
                }
            },
            CstKind::Call { callee, args } => {
                match r.kind {
                    CstKind::Call { callee: rc, args: ra } => {
                        assert(stripped(*rc, *callee));
                        lemma_strip_list_facts(ra@, args@);
                        let k = single_arg_at(args@);
                        if 0 <= k < args@.len() {
                            assert(stripped(ra@[k], args@[k]));
                        }
                    },
                    _ => {},
                }
            },
            _ => {},
        }
    }
}

/// Stripping keeps the first non-`Empty` position.
proof fn lemma_strip_first_item(rs: Seq<Cst>, cs: Seq<Cst>, i: int)
    requires
        all_stripped(rs, cs),
    ensures
        first_item(rs, i) == first_item(cs, i),
    decreases cs.len() - i,
{
    if 0 <= i < cs.len() {
        assert(stripped(rs[i], cs[i]));
        lemma_strip_first_item(rs, cs, i + 1);
    }
}

/// A `,` chain and its trivia-free copy lower alike.
proof fn lemma_strip_args(r: Cst, c: Cst)
    requires
        stripped(r, c),
    ensures
        err_args(r) == err_args(c),
        forall|a: Seq<Code>| ok_commas(r, a) == ok_commas(c, a),
    decreases c, 21int,
{
    lemma_strip_code(r, c);
    match c.kind {
        CstKind::Binary { op: BinOp::Comma, lhs, rhs } => match r.kind {
            CstKind::Binary { lhs: rl, rhs: rr, .. } => {
                lemma_strip_args(*rl, *lhs);
                lemma_strip_code(*rr, *rhs);
                assert forall|a: Seq<Code>| ok_commas(r, a) == ok_commas(c, a) by {
                    if a.len() >= 1 {
                        assert(ok_commas(*rl, a.drop_last()) == ok_commas(*lhs, a.drop_last()));
                        assert(ok_code(*rr, a.last()) == ok_code(*rhs, a.last()));
                    }
                }
            },
            _ => {},
        },
        _ => {
            assert forall|a: Seq<Code>| ok_commas(r, a) == ok_commas(c, a) by {
                if a.len() == 1 {
                    assert(ok_code(r, a[0]) == ok_code(c, a[0]));
                }
            }
        },
    }
}

/// A `;` chain and its trivia-free copy lower alike.
proof fn lemma_strip_code(r: Cst, c: Cst)
    requires
        stripped(r, c),
    ensures
        err_code(r) == err_code(c),
        forall|a: Seq<Expr>| ok_semis(r, a) == ok_semis(c, a),
        forall|a: Code| ok_code(r, a) == ok_code(c, a),
    decreases c, 20int,
{
    lemma_strip_expr(r, c);
    match c.kind {
        CstKind::Binary { op: BinOp::Semi, lhs, rhs } => match r.kind {
            CstKind::Binary { lhs: rl, rhs: rr, .. } => {
                lemma_strip_code(*rl, *lhs);
                lemma_strip_expr(*rr, *rhs);
                assert forall|a: Seq<Expr>| ok_semis(r, a) == ok_semis(c, a) by {
                    if a.len() >= 1 {
                        assert(ok_semis(*rl, a.drop_last()) == ok_semis(*lhs, a.drop_last()));
                        assert(ok_expr(*rr, a.last()) == ok_expr(*rhs, a.last()));
                    }
                }
            },
            _ => {},
        },
        _ => {
            assert forall|a: Seq<Expr>| ok_semis(r, a) == ok_semis(c, a) by {
                if a.len() == 1 {
                    assert(ok_expr(r, a[0]) == ok_expr(c, a[0]));
                }
            }
        },
    }
    assert forall|a: Code| ok_code(r, a) == ok_code(c, a) by {
        assert(ok_semis(r, a.0@) == ok_semis(c, a.0@));
    }
}

/// An expression and its trivia-free copy lower alike.
proof fn lemma_strip_expr(r: Cst, c: Cst)
    requires
        stripped(r, c),
    ensures
        err_expr(r) == err_expr(c),
        forall|a: Expr| ok_expr(r, a) == ok_expr(c, a),
    decreases c, 18int,
{
    lemma_strip_assign(r, c);
    match c.kind {
        CstKind::DefineFunction { signature, body } => match r.kind {
            CstKind::DefineFunction { signature: rsig, body: rb } => {
                assert(stripped(*rsig, *signature));
                assert(stripped(*rb, *body));
                lemma_strip_expr(*rb, *body);
                match signature.kind {
                    CstKind::Call { callee, args } => match rsig.kind {
                        CstKind::Call { callee: rc, args: ra } => {
                            assert(stripped(*rc, *callee));
                            assert(all_stripped(ra@, args@));
                            lemma_strip_list_facts(ra@, args@);
                            assert forall|a: Expr| ok_expr(r, a) == ok_expr(c, a) by {
                                match a {
                                    Expr::Def { body: b, .. } => {
                                        assert(ok_expr(*rb, *b) == ok_expr(*body, *b));
                                    },
                                    _ => {},
                                }
                            }
                        },
                        _ => {},
                    },
                    _ => {},
                }
            },
            _ => {},
        },
        _ => {
            assert forall|a: Expr| ok_expr(r, a) == ok_expr(c, a) by {
                match a {
                    Expr::Assign(x) => {
                        assert(ok_assign(r, x) == ok_assign(c, x));
                    },
                    _ => {},
                }
            }
        },
    }
}

/// An assignment and its trivia-free copy lower alike.
proof fn lemma_strip_assign(r: Cst, c: Cst)
    requires
        stripped(r, c),
    ensures
        err_assign(r) == err_assign(c),
        forall|a: Assign| ok_assign(r, a) == ok_assign(c, a),
    decreases c, 17int,
{
    lemma_strip_lor(r, c);
    match c.kind {
        CstKind::Binary { op, lhs, rhs } => match r.kind {
            CstKind::Binary { lhs: rl, rhs: rr, .. } => {
                lemma_strip_lvalue(*rl, *lhs);
                lemma_strip_assign(*rr, *rhs);
                assert forall|a: Assign| ok_assign(r, a) == ok_assign(c, a) by {
                    match a {
                        Assign::Store { target, value, .. } => {
                            assert(ok_lvalue(*rl, target) == ok_lvalue(*lhs, target));
                            assert(ok_assign(*rr, *value) == ok_assign(*rhs, *value));
                        },
                        Assign::Lor(x) => {
                            assert(ok_lor(r, x) == ok_lor(c, x));
                        },
                    }
                }
            },
            _ => {},
        },
        _ => {
            assert forall|a: Assign| ok_assign(r, a) == ok_assign(c, a) by {
                match a {
                    Assign::Lor(x) => {
                        assert(ok_lor(r, x) == ok_lor(c, x));
                    },
                    _ => {},
                }
            }
        },
    }
}

/// An assignment target and its trivia-free copy lower alike.
proof fn lemma_strip_lvalue(r: Cst, c: Cst)
    requires
        stripped(r, c),
    ensures
        err_lvalue(r) == err_lvalue(c),
        forall|a: LValue| ok_lvalue(r, a) == ok_lvalue(c, a),
    decreases c, 3int,
{
    lemma_strip_place(r, c);
    lemma_strip_primary(r, c);
    match c.kind {
        CstKind::List(items) => match r.kind {
            CstKind::List(ri) => {
                lemma_strip_lpatterns(ri@, items@);
                assert forall|a: LValue| ok_lvalue(r, a) == ok_lvalue(c, a) by {
                    match a {
                        LValue::Destructure(p) => {
                            let x = match p.rest {
                                Some(q) => Some((*q.binder, q.after@)),
                                None => None,
                            };
                            assert(ok_lpatterns(ri@, p.before@, x) == ok_lpatterns(
                                items@,
                                p.before@,
                                x,
                            ));
                        },
                        _ => {},
                    }
                }
            },
            _ => {},
        },
        CstKind::Call { callee, .. } => match r.kind {
            CstKind::Call { callee: rc, .. } => {
                assert(stripped(*rc, *callee));
                assert forall|a: LValue| ok_lvalue(r, a) == ok_lvalue(c, a) by {
                    match a {
                        LValue::Computed(x) => {
                            assert(ok_primary(r, *x) == ok_primary(c, *x));
                        },
                        LValue::Place(x) => {
                            assert(ok_place(r, x) == ok_place(c, x));
                        },
                        _ => {},
                    }
                }
            },
            _ => {},
        },
        _ => {
            assert forall|a: LValue| ok_lvalue(r, a) == ok_lvalue(c, a) by {
                match a {
                    LValue::Place(x) => {
                        assert(ok_place(r, x) == ok_place(c, x));
                    },
                    _ => {},
                }
            }
        },
    }
}

/// A place and its trivia-free copy lower alike.
proof fn lemma_strip_place(r: Cst, c: Cst)
    requires
        stripped(r, c),
    ensures
        err_place(r) == err_place(c),
        forall|a: Place| ok_place(r, a) == ok_place(c, a),
    decreases c, 2int,
{
    lemma_strip_primary(r, c);
    match c.kind {
        CstKind::Call { callee, args } => match r.kind {
            CstKind::Call { callee: rc, args: ra } => {
                assert(stripped(*rc, *callee));
                assert(all_stripped(ra@, args@));
                lemma_strip_list_facts(ra@, args@);
                let k = single_arg_at(args@);
                if 0 <= k < args@.len() {
                    assert(stripped(ra@[k], args@[k]));
                    lemma_strip_code(ra@[k], args@[k]);
                    assert forall|a: Place| ok_place(r, a) == ok_place(c, a) by {
                        match a {
                            Place::DynVar(code) => {
                                assert(ok_code(ra@[k], *code) == ok_code(args@[k], *code));
                            },
                            _ => {},
                        }
                    }
                }
            },
            _ => {},
        },
        CstKind::Binary { op, lhs, rhs } => match r.kind {
            CstKind::Binary { lhs: rl, rhs: rr, .. } => {
                lemma_strip_place(*rl, *lhs);
                lemma_strip_primary(*rr, *rhs);
                assert forall|a: Place| ok_place(r, a) == ok_place(c, a) by {
                    match a {
                        Place::Index { base, key } => {
                            assert(ok_place(*rl, *base) == ok_place(*lhs, *base));
                            assert(ok_primary(*rr, key) == ok_primary(*rhs, key));
                        },
                        _ => {},
                    }
                }
            },
            _ => {},
        },
        _ => {},
    }
}

/// The elements of a destructuring list and their trivia-free copies lower
/// The elements of a destructuring list and their trivia-free copies lower
/// alike.
proof fn lemma_strip_lpatterns(rs: Seq<Cst>, cs: Seq<Cst>)
    requires
        all_stripped(rs, cs),
    ensures
        err_lpatterns(rs) == err_lpatterns(cs),
        forall|b: Seq<LValue>, x: Option<(LValue, Seq<LValue>)>|
            ok_lpatterns(rs, b, x) == ok_lpatterns(cs, b, x),
    decreases cs, 0int,
{
    if cs.len() > 0 {
        let rl = rs.drop_last();
        let cl = cs.drop_last();
        assert forall|i: int| 0 <= i < cl.len() implies stripped(#[trigger] rl[i], cl[i]) by {
            assert(rl[i] == rs[i]);
            assert(cl[i] == cs[i]);
        }
        assert(decreases_to!(cs => cs.drop_last()));
        lemma_strip_lpatterns(rl, cl);
        lemma_strip_list_facts(rl, cl);
        let r = rs.last();
        let c = cs.last();
        assert(stripped(rs[cs.len() - 1], cs[cs.len() - 1]));
        assert(decreases_to!(cs => cs[cs.len() - 1]));
        lemma_strip_lvalue(r, c);
        match c.kind {
            CstKind::Unary { operand, .. } => match r.kind {
                CstKind::Unary { operand: rx, .. } => {
                    lemma_strip_lvalue(*rx, *operand);
                    assert forall|b: Seq<LValue>, x: Option<(LValue, Seq<LValue>)>|
                        ok_lpatterns(rs, b, x) == ok_lpatterns(cs, b, x) by {
                        assert(ok_lpatterns(rl, b, None) == ok_lpatterns(cl, b, None));
                        match x {
                            Some((bb, after)) => {
                                assert(ok_lvalue(*rx, bb) == ok_lvalue(*operand, bb));
                                assert(ok_lpatterns(rl, b, x) == ok_lpatterns(cl, b, x));
                                if b.len() >= 1 {
                                    assert(ok_lvalue(r, b.last()) == ok_lvalue(c, b.last()));
                                }
                                if after.len() >= 1 {
                                    assert(ok_lvalue(r, after.last()) == ok_lvalue(c, after.last()));
                                    assert(ok_lpatterns(rl, b, Some((bb, after.drop_last())))
                                        == ok_lpatterns(cl, b, Some((bb, after.drop_last()))));
                                }
                            },
                            None => {
                                if b.len() >= 1 {
                                    assert(ok_lvalue(r, b.last()) == ok_lvalue(c, b.last()));
                                    assert(ok_lpatterns(rl, b.drop_last(), None) == ok_lpatterns(
                                        cl,
                                        b.drop_last(),
                                        None,
                                    ));
                                }
                            },
                        }
                    }
                },
                _ => {},
            },
            _ => {
                assert forall|b: Seq<LValue>, x: Option<(LValue, Seq<LValue>)>|
                    ok_lpatterns(rs, b, x) == ok_lpatterns(cs, b, x) by {
                    assert(ok_lpatterns(rl, b, x) == ok_lpatterns(cl, b, x));
                    match x {
                        Some((bb, after)) => {
                            if after.len() >= 1 {
                                assert(ok_lvalue(r, after.last()) == ok_lvalue(c, after.last()));
                                assert(ok_lpatterns(rl, b, Some((bb, after.drop_last())))
                                    == ok_lpatterns(cl, b, Some((bb, after.drop_last()))));
                            }
                        },
                        None => {
                            if b.len() >= 1 {
                                assert(ok_lvalue(r, b.last()) == ok_lvalue(c, b.last()));
                                assert(ok_lpatterns(rl, b.drop_last(), None) == ok_lpatterns(
                                    cl,
                                    b.drop_last(),
                                    None,
                                ));
                            }
                        },
                    }
                }
            },
        }
    }
}

/// A `||` chain and its trivia-free copy lower alike.
proof fn lemma_strip_lor(r: Cst, c: Cst)
    requires
        stripped(r, c),
    ensures
        err_lor(r) == err_lor(c),
        forall|a: Lor| ok_lor(r, a) == ok_lor(c, a),
    decreases c, 16int,
{
    lemma_strip_land(r, c);
    match c.kind {
        CstKind::Binary { op: BinOp::Or, lhs, rhs } => match r.kind {
            CstKind::Binary { lhs: rl, rhs: rr, .. } => {
                lemma_strip_lor(*rl, *lhs);
                lemma_strip_land(*rr, *rhs);
            },
            _ => {},
        },
        _ => {},
    }
    assert forall|a: Lor| ok_lor(r, a) == ok_lor(c, a) by {
        match c.kind {
            CstKind::Binary { op: BinOp::Or, lhs, rhs } => match r.kind {
                CstKind::Binary { lhs: rl, rhs: rr, .. } => match a {
                    Lor::Or { lhs: l, rhs: x } => {
                        assert(ok_lor(*rl, *l) == ok_lor(*lhs, *l));
                        assert(ok_land(*rr, x) == ok_land(*rhs, x));
                    },
                    _ => {},
                },
                _ => {},
            },
            _ => match a {
                Lor::Land(x) => {
                    assert(ok_land(r, x) == ok_land(c, x));
                },
                _ => {},
            },
        }
    }
}

/// A `&&` chain and its trivia-free copy lower alike.
proof fn lemma_strip_land(r: Cst, c: Cst)
    requires
        stripped(r, c),
    ensures
        err_land(r) == err_land(c),
        forall|a: Land| ok_land(r, a) == ok_land(c, a),
    decreases c, 15int,
{
    lemma_strip_equality(r, c);
    match c.kind {
        CstKind::Binary { op: BinOp::And, lhs, rhs } => match r.kind {
            CstKind::Binary { lhs: rl, rhs: rr, .. } => {
                lemma_strip_land(*rl, *lhs);
                lemma_strip_equality(*rr, *rhs);
            },
            _ => {},
        },
        _ => {},
    }
    assert forall|a: Land| ok_land(r, a) == ok_land(c, a) by {
        match c.kind {
            CstKind::Binary { op: BinOp::And, lhs, rhs } => match r.kind {
                CstKind::Binary { lhs: rl, rhs: rr, .. } => match a {
                    Land::And { lhs: l, rhs: x } => {
                        assert(ok_land(*rl, *l) == ok_land(*lhs, *l));
                        assert(ok_equality(*rr, x) == ok_equality(*rhs, x));
                    },
                    _ => {},
                },
                _ => {},
            },
            _ => match a {
                Land::Equality(x) => {
                    assert(ok_equality(r, x) == ok_equality(c, x));
                },
                _ => {},
            },
        }
    }
}

/// An equality chain and its trivia-free copy lower alike.
proof fn lemma_strip_equality(r: Cst, c: Cst)
    requires
        stripped(r, c),
    ensures
        err_equality(r) == err_equality(c),
        forall|a: Equality| ok_equality(r, a) == ok_equality(c, a),
    decreases c, 14int,
{
    lemma_strip_compare(r, c);
    match c.kind {
        CstKind::Binary { op: BinOp::Eq, lhs, rhs } => match r.kind {
            CstKind::Binary { lhs: rl, rhs: rr, .. } => {
                lemma_strip_equality(*rl, *lhs);
                lemma_strip_compare(*rr, *rhs);
            },
            _ => {},
        },
        CstKind::Binary { op: BinOp::NotEq, lhs, rhs } => match r.kind {
            CstKind::Binary { lhs: rl, rhs: rr, .. } => {
                lemma_strip_equality(*rl, *lhs);
                lemma_strip_compare(*rr, *rhs);
            },
            _ => {},
        },
        _ => {},
    }
    assert forall|a: Equality| ok_equality(r, a) == ok_equality(c, a) by {
        match c.kind {
            CstKind::Binary { op: BinOp::Eq, lhs, rhs } => match r.kind {
                CstKind::Binary { lhs: rl, rhs: rr, .. } => match a {
                    Equality::Eq { lhs: l, rhs: x } => {
                        assert(ok_equality(*rl, *l) == ok_equality(*lhs, *l));
                        assert(ok_compare(*rr, x) == ok_compare(*rhs, x));
                    },
                    _ => {},
                },
                _ => {},
            },
            CstKind::Binary { op: BinOp::NotEq, lhs, rhs } => match r.kind {
                CstKind::Binary { lhs: rl, rhs: rr, .. } => match a {
                    Equality::Ne { lhs: l, rhs: x } => {
                        assert(ok_equality(*rl, *l) == ok_equality(*lhs, *l));
                        assert(ok_compare(*rr, x) == ok_compare(*rhs, x));
                    },
                    _ => {},
                },
                _ => {},
            },
            _ => match a {
                Equality::Compare(x) => {
                    assert(ok_compare(r, x) == ok_compare(c, x));
                },
                _ => {},
            },
        }
    }
}

/// A comparison chain and its trivia-free copy lower alike.
proof fn lemma_strip_compare(r: Cst, c: Cst)
    requires
        stripped(r, c),
    ensures
        err_compare(r) == err_compare(c),
        forall|a: Compare| ok_compare(r, a) == ok_compare(c, a),
    decreases c, 13int,
{
    lemma_strip_additive(r, c);
    match c.kind {
        CstKind::Binary { op: BinOp::Lt, lhs, rhs } => match r.kind {
            CstKind::Binary { lhs: rl, rhs: rr, .. } => {
                lemma_strip_compare(*rl, *lhs);
                lemma_strip_additive(*rr, *rhs);
            },
            _ => {},
        },
        CstKind::Binary { op: BinOp::LtEq, lhs, rhs } => match r.kind {
            CstKind::Binary { lhs: rl, rhs: rr, .. } => {
                lemma_strip_compare(*rl, *lhs);
                lemma_strip_additive(*rr, *rhs);
            },
            _ => {},
        },
        CstKind::Binary { op: BinOp::Gt, lhs, rhs } => match r.kind {
            CstKind::Binary { lhs: rl, rhs: rr, .. } => {
                lemma_strip_compare(*rl, *lhs);
                lemma_strip_additive(*rr, *rhs);
            },
            _ => {},
        },
        CstKind::Binary { op: BinOp::GtEq, lhs, rhs } => match r.kind {
            CstKind::Binary { lhs: rl, rhs: rr, .. } => {
                lemma_strip_compare(*rl, *lhs);
                lemma_strip_additive(*rr, *rhs);
            },
            _ => {},
        },
        _ => {},
    }
    assert forall|a: Compare| ok_compare(r, a) == ok_compare(c, a) by {
        match c.kind {
            CstKind::Binary { op: BinOp::Lt, lhs, rhs } => match r.kind {
                CstKind::Binary { lhs: rl, rhs: rr, .. } => match a {
                    Compare::Lt { lhs: l, rhs: x } => {
                        assert(ok_compare(*rl, *l) == ok_compare(*lhs, *l));
                        assert(ok_additive(*rr, x) == ok_additive(*rhs, x));
                    },
                    _ => {},
                },
                _ => {},
            },
            CstKind::Binary { op: BinOp::LtEq, lhs, rhs } => match r.kind {
                CstKind::Binary { lhs: rl, rhs: rr, .. } => match a {
                    Compare::Le { lhs: l, rhs: x } => {
                        assert(ok_compare(*rl, *l) == ok_compare(*lhs, *l));
                        assert(ok_additive(*rr, x) == ok_additive(*rhs, x));
                    },
                    _ => {},
                },
                _ => {},
            },
            CstKind::Binary { op: BinOp::Gt, lhs, rhs } => match r.kind {
                CstKind::Binary { lhs: rl, rhs: rr, .. } => match a {
                    Compare::Gt { lhs: l, rhs: x } => {
                        assert(ok_compare(*rl, *l) == ok_compare(*lhs, *l));
                        assert(ok_additive(*rr, x) == ok_additive(*rhs, x));
                    },
                    _ => {},
                },
                _ => {},
            },
            CstKind::Binary { op: BinOp::GtEq, lhs, rhs } => match r.kind {
                CstKind::Binary { lhs: rl, rhs: rr, .. } => match a {
                    Compare::Ge { lhs: l, rhs: x } => {
                        assert(ok_compare(*rl, *l) == ok_compare(*lhs, *l));
                        assert(ok_additive(*rr, x) == ok_additive(*rhs, x));
                    },
                    _ => {},
                },
                _ => {},
            },
            _ => match a {
                Compare::Additive(x) => {
                    assert(ok_additive(r, x) == ok_additive(c, x));
                },
                _ => {},
            },
        }
    }
}

/// An additive chain and its trivia-free copy lower alike.
proof fn lemma_strip_additive(r: Cst, c: Cst)
    requires
        stripped(r, c),
    ensures
        err_additive(r) == err_additive(c),
        forall|a: Additive| ok_additive(r, a) == ok_additive(c, a),
    decreases c, 12int,
{
    lemma_strip_mult(r, c);
    match c.kind {
        CstKind::Binary { op: BinOp::Add, lhs, rhs } => match r.kind {
            CstKind::Binary { lhs: rl, rhs: rr, .. } => {
                lemma_strip_additive(*rl, *lhs);
                lemma_strip_mult(*rr, *rhs);
            },
            _ => {},
        },
        CstKind::Binary { op: BinOp::Sub, lhs, rhs } => match r.kind {
            CstKind::Binary { lhs: rl, rhs: rr, .. } => {
                lemma_strip_additive(*rl, *lhs);
                lemma_strip_mult(*rr, *rhs);
            },
            _ => {},
        },
        _ => {},
    }
    assert forall|a: Additive| ok_additive(r, a) == ok_additive(c, a) by {
        match c.kind {
            CstKind::Binary { op: BinOp::Add, lhs, rhs } => match r.kind {
                CstKind::Binary { lhs: rl, rhs: rr, .. } => match a {
                    Additive::Add { lhs: l, rhs: x } => {
                        assert(ok_additive(*rl, *l) == ok_additive(*lhs, *l));
                        assert(ok_mult(*rr, x) == ok_mult(*rhs, x));
                    },
                    _ => {},
                },
                _ => {},
            },
            CstKind::Binary { op: BinOp::Sub, lhs, rhs } => match r.kind {
                CstKind::Binary { lhs: rl, rhs: rr, .. } => match a {
                    Additive::Sub { lhs: l, rhs: x } => {
                        assert(ok_additive(*rl, *l) == ok_additive(*lhs, *l));
                        assert(ok_mult(*rr, x) == ok_mult(*rhs, x));
                    },
                    _ => {},
                },
                _ => {},
            },
            _ => match a {
                Additive::Mult(x) => {
                    assert(ok_mult(r, x) == ok_mult(c, x));
                },
                _ => {},
            },
        }
    }
}

/// A multiplicative chain and its trivia-free copy lower alike.
proof fn lemma_strip_mult(r: Cst, c: Cst)
    requires
        stripped(r, c),
    ensures
        err_mult(r) == err_mult(c),
        forall|a: Mult| ok_mult(r, a) == ok_mult(c, a),
    decreases c, 11int,
{
    lemma_strip_power(r, c);
    match c.kind {
        CstKind::Binary { op: BinOp::Mul, lhs, rhs } => match r.kind {
            CstKind::Binary { lhs: rl, rhs: rr, .. } => {
                lemma_strip_mult(*rl, *lhs);
                lemma_strip_power(*rr, *rhs);
            },
            _ => {},
        },
        CstKind::Binary { op: BinOp::Div, lhs, rhs } => match r.kind {
            CstKind::Binary { lhs: rl, rhs: rr, .. } => {
                lemma_strip_mult(*rl, *lhs);
                lemma_strip_power(*rr, *rhs);
            },
            _ => {},
        },
        CstKind::Binary { op: BinOp::Rem, lhs, rhs } => match r.kind {
            CstKind::Binary { lhs: rl, rhs: rr, .. } => {
                lemma_strip_mult(*rl, *lhs);
                lemma_strip_power(*rr, *rhs);
            },
            _ => {},
        },
        _ => {},
    }
    assert forall|a: Mult| ok_mult(r, a) == ok_mult(c, a) by {
        match c.kind {
            CstKind::Binary { op: BinOp::Mul, lhs, rhs } => match r.kind {
                CstKind::Binary { lhs: rl, rhs: rr, .. } => match a {
                    Mult::Mul { lhs: l, rhs: x } => {
                        assert(ok_mult(*rl, *l) == ok_mult(*lhs, *l));
                        assert(ok_power(*rr, x) == ok_power(*rhs, x));
                    },
                    _ => {},
                },
                _ => {},
            },
            CstKind::Binary { op: BinOp::Div, lhs, rhs } => match r.kind {
                CstKind::Binary { lhs: rl, rhs: rr, .. } => match a {
                    Mult::Div { lhs: l, rhs: x } => {
                        assert(ok_mult(*rl, *l) == ok_mult(*lhs, *l));
                        assert(ok_power(*rr, x) == ok_power(*rhs, x));
                    },
                    _ => {},
                },
                _ => {},
            },
            CstKind::Binary { op: BinOp::Rem, lhs, rhs } => match r.kind {
                CstKind::Binary { lhs: rl, rhs: rr, .. } => match a {
                    Mult::Rem { lhs: l, rhs: x } => {
                        assert(ok_mult(*rl, *l) == ok_mult(*lhs, *l));
                        assert(ok_power(*rr, x) == ok_power(*rhs, x));
                    },
                    _ => {},
                },
                _ => {},
            },
            _ => match a {
                Mult::Power(x) => {
                    assert(ok_power(r, x) == ok_power(c, x));
                },
                _ => {},
            },
        }
    }
}

/// A power chain and its trivia-free copy lower alike.
proof fn lemma_strip_power(r: Cst, c: Cst)
    requires
        stripped(r, c),
    ensures
        err_power(r) == err_power(c),
        forall|a: Power| ok_power(r, a) == ok_power(c, a),
    decreases c, 10int,
{
    lemma_strip_unary(r, c);
    match c.kind {
        CstKind::Binary { op: BinOp::Pow, lhs, rhs } => match r.kind {
            CstKind::Binary { lhs: rl, rhs: rr, .. } => {
                lemma_strip_unary(*rl, *lhs);
                lemma_strip_power(*rr, *rhs);
            },
            _ => {},
        },
        _ => {},
    }
    assert forall|a: Power| ok_power(r, a) == ok_power(c, a) by {
        match c.kind {
            CstKind::Binary { op: BinOp::Pow, lhs, rhs } => match r.kind {
                CstKind::Binary { lhs: rl, rhs: rr, .. } => match a {
                    Power::Pow { base, exp } => {
                        assert(ok_unary(*rl, base) == ok_unary(*lhs, base));
                        assert(ok_power(*rr, *exp) == ok_power(*rhs, *exp));
                    },
                    _ => {},
                },
                _ => {},
            },
            _ => match a {
                Power::Unary(x) => {
                    assert(ok_unary(r, x) == ok_unary(c, x));
                },
                _ => {},
            },
        }
    }
}

/// A prefix application and its trivia-free copy lower alike.
proof fn lemma_strip_unary(r: Cst, c: Cst)
    requires
        stripped(r, c),
    ensures
        err_unary(r) == err_unary(c),
        forall|a: Unary| ok_unary(r, a) == ok_unary(c, a),
    decreases c, 9int,
{
    lemma_strip_get(r, c);
    match c.kind {
        CstKind::Unary { operand, .. } => match r.kind {
            CstKind::Unary { operand: rx, .. } => {
                lemma_strip_unary(*rx, *operand);
            },
            _ => {},
        },
        _ => {},
    }
    assert forall|a: Unary| ok_unary(r, a) == ok_unary(c, a) by {
        match c.kind {
            CstKind::Unary { operand, .. } => match r.kind {
                CstKind::Unary { operand: rx, .. } => match a {
                    Unary::Neg(x) => assert(ok_unary(*rx, *x) == ok_unary(*operand, *x)),
                    Unary::Pos(x) => assert(ok_unary(*rx, *x) == ok_unary(*operand, *x)),
                    Unary::Not(x) => assert(ok_unary(*rx, *x) == ok_unary(*operand, *x)),
                    Unary::Unpack(x) => assert(ok_unary(*rx, *x) == ok_unary(*operand, *x)),
                    _ => {},
                },
                _ => {},
            },
            _ => match a {
                Unary::Get(x) => {
                    assert(ok_get(r, x) == ok_get(c, x));
                },
                _ => {},
            },
        }
    }
}

/// A `:`/`~` chain and its trivia-free copy lower alike.
proof fn lemma_strip_get(r: Cst, c: Cst)
    requires
        stripped(r, c),
    ensures
        err_get(r) == err_get(c),
        forall|a: Get| ok_get(r, a) == ok_get(c, a),
    decreases c, 8int,
{
    lemma_strip_primary(r, c);
    match c.kind {
        CstKind::Binary { lhs, rhs, .. } => match r.kind {
            CstKind::Binary { lhs: rl, rhs: rr, .. } => {
                lemma_strip_get(*rl, *lhs);
                lemma_strip_primary(*rr, *rhs);
            },
            _ => {},
        },
        _ => {},
    }
    assert forall|a: Get| ok_get(r, a) == ok_get(c, a) by {
        match c.kind {
            CstKind::Binary { lhs, rhs, .. } => match r.kind {
                CstKind::Binary { lhs: rl, rhs: rr, .. } => match a {
                    Get::Index { base, key, .. } => {
                        assert(ok_get(*rl, *base) == ok_get(*lhs, *base));
                        assert(ok_primary(*rr, key) == ok_primary(*rhs, key));
                    },
                    Get::Primary(x) => {
                        assert(ok_primary(r, x) == ok_primary(c, x));
                    },
                },
                _ => {},
            },
            _ => match a {
                Get::Primary(x) => {
                    assert(ok_primary(r, x) == ok_primary(c, x));
                },
                _ => {},
            },
        }
    }
}

/// A primary and its trivia-free copy lower alike.
proof fn lemma_strip_primary(r: Cst, c: Cst)
    requires
        stripped(r, c),
    ensures
        err_primary(r) == err_primary(c),
        forall|a: Primary| ok_primary(r, a) == ok_primary(c, a),
    decreases c, 1int,
{
    match c.kind {
        CstKind::Call { callee, args } => match r.kind {
            CstKind::Call { callee: rc, args: ra } => {
                assert(stripped(*rc, *callee));
                lemma_strip_items(ra@, args@);
                assert forall|a: Primary| ok_primary(r, a) == ok_primary(c, a) by {
                    match a {
                        Primary::Call { args: out, .. } => {
                            assert(ok_items(ra@, out.0@) == ok_items(args@, out.0@));
                        },
                        _ => {},
                    }
                }
            },
            _ => {},
        },
        CstKind::List(items) => match r.kind {
            CstKind::List(ri) => {
                lemma_strip_items(ri@, items@);
                assert forall|a: Primary| ok_primary(r, a) == ok_primary(c, a) by {
                    match a {
                        Primary::List(out) => {
                            assert(ok_items(ri@, out.0@) == ok_items(items@, out.0@));
                        },
                        _ => {},
                    }
                }
            },
            _ => {},
        },
        CstKind::MapLiteral(items) => match r.kind {
            CstKind::MapLiteral(ri) => {
                lemma_strip_map(ri@, items@);
                assert forall|a: Primary| ok_primary(r, a) == ok_primary(c, a) by {
                    match a {
                        Primary::MapLiteral(out) => {
                            assert(ok_map(ri@, out@) == ok_map(items@, out@));
                        },
                        _ => {},
                    }
                }
            },
            _ => {},
        },
        CstKind::Paren(inner) => match r.kind {
            CstKind::Paren(ri) => {
                lemma_strip_args(*ri, *inner);
                assert forall|a: Primary| ok_primary(r, a) == ok_primary(c, a) by {
                    match a {
                        Primary::Paren(out) => {
                            assert(ok_commas(*ri, out.0@) == ok_commas(*inner, out.0@));
                        },
                        _ => {},
                    }
                }
            },
            _ => {},
        },
        _ => {},
    }
}

/// Bracketed items and their trivia-free copies lower alike.
proof fn lemma_strip_items(rs: Seq<Cst>, cs: Seq<Cst>)
    requires
        all_stripped(rs, cs),
    ensures
        err_items(rs) == err_items(cs),
        forall|out: Seq<Code>| ok_items(rs, out) == ok_items(cs, out),
    decreases cs, 0int,
{
    if cs.len() > 0 {
        let rl = rs.drop_last();
        let cl = cs.drop_last();
        assert forall|i: int| 0 <= i < cl.len() implies stripped(#[trigger] rl[i], cl[i]) by {
            assert(rl[i] == rs[i]);
            assert(cl[i] == cs[i]);
        }
        assert(decreases_to!(cs => cs.drop_last()));
        lemma_strip_items(rl, cl);
        assert(stripped(rs[cs.len() - 1], cs[cs.len() - 1]));
        assert(decreases_to!(cs => cs[cs.len() - 1]));
        lemma_strip_code(rs.last(), cs.last());
        assert forall|out: Seq<Code>| ok_items(rs, out) == ok_items(cs, out) by {
            assert(ok_items(rl, out) == ok_items(cl, out));
            if out.len() >= 1 {
                assert(ok_items(rl, out.drop_last()) == ok_items(cl, out.drop_last()));
                assert(ok_code(rs.last(), out.last()) == ok_code(cs.last(), out.last()));
            }
        }
    }
}

/// The items of a map literal and their trivia-free copies lower alike.
proof fn lemma_strip_map(rs: Seq<Cst>, cs: Seq<Cst>)
    requires
        all_stripped(rs, cs),
    ensures
        err_map(rs) == err_map(cs),
        forall|out: Seq<MapEntry>| ok_map(rs, out) == ok_map(cs, out),
    decreases cs, 0int,
{
    if cs.len() > 0 {
        let rl = rs.drop_last();
        let cl = cs.drop_last();
        assert forall|i: int| 0 <= i < cl.len() implies stripped(#[trigger] rl[i], cl[i]) by {
            assert(rl[i] == rs[i]);
            assert(cl[i] == cs[i]);
        }
        assert(decreases_to!(cs => cs.drop_last()));
        lemma_strip_map(rl, cl);
        let r = rs.last();
        let c = cs.last();
        assert(stripped(rs[cs.len() - 1], cs[cs.len() - 1]));
        assert(decreases_to!(cs => cs[cs.len() - 1]));
        match c.kind {
            CstKind::MapEntry { key, value } => match r.kind {
                CstKind::MapEntry { key: rk, value: rv } => {
                    lemma_strip_code(*rk, *key);
                    lemma_strip_assign(*rk, *key);
                    match value {
                        Some(v) => match rv {
                            Some(x) => lemma_strip_expr(*x, *v),
                            None => {},
                        },
                        None => {},
                    }
                    assert forall|out: Seq<MapEntry>| ok_map(rs, out) == ok_map(cs, out) by {
                        assert(ok_map(rl, out) == ok_map(cl, out));
                        if out.len() >= 1 {
                            assert(ok_map(rl, out.drop_last()) == ok_map(cl, out.drop_last()));
                            match out.last() {
                                MapEntry::Pair { key: k, value: x } => {
                                    assert(ok_assign(*rk, *k) == ok_assign(*key, *k));
                                    match value {
                                        Some(v) => match rv {
                                            Some(y) => {
                                                assert(ok_expr(*y, *x) == ok_expr(*v, *x));
                                            },
                                            None => {},
                                        },
                                        None => {},
                                    }
                                },
                                MapEntry::Single(code) => {
                                    assert(ok_code(*rk, code) == ok_code(*key, code));
                                },
                            }
                        }
                    }
                },
                _ => {},
            },
            _ => {
                assert forall|out: Seq<MapEntry>| ok_map(rs, out) == ok_map(cs, out) by {
                    assert(ok_map(rl, out) == ok_map(cl, out));
                    if out.len() >= 1 {
                        assert(ok_map(rl, out.drop_last()) == ok_map(cl, out.drop_last()));
                    }
                }
            },
        }
    }
}

/// Lowering ignores trivia: a compact tree and its copy with every comment
/// and break removed ([`crate::cst::strip_trivia`]) meet the same error, or
/// lower to the same AST, at the `,` level and at the `;` level alike.
pub proof fn lemma_lowering_ignores_trivia(r: Cst, c: Cst)
    requires
        stripped(r, c),
    ensures
        err_args(r) == err_args(c),
        forall|a: Seq<Code>| ok_commas(r, a) == ok_commas(c, a),
        err_code(r) == err_code(c),
        forall|a: Code| ok_code(r, a) == ok_code(c, a),
{
    lemma_strip_args(r, c);
    lemma_strip_code(r, c);
}

// ====================================================================
// What a lowered comparison says
// ====================================================================

/// What a comparison says of two numbers `x` (its left operand) and `y`
/// (its right): `<` that `x < y`, `<=` that `x <= y`, and so on; `false`
/// for the passthrough.
pub open spec fn compare_holds(a: Compare, x: int, y: int) -> bool {
    match a {
        Compare::Lt { .. } => x < y,
        Compare::Le { .. } => x <= y,
        Compare::Gt { .. } => x > y,
        Compare::Ge { .. } => x >= y,
        Compare::Additive(_) => false,
    }
}

/// What an equality says of two numbers `x` (its left operand) and `y`
/// (its right): `==` that they are equal, `!=` that they differ; `false`
/// for the passthrough.
pub open spec fn equality_holds(a: Equality, x: int, y: int) -> bool {
    match a {
        Equality::Eq { .. } => x == y,
        Equality::Ne { .. } => x != y,
        Equality::Compare(_) => false,
    }
}

/// Lowering keeps what a comparison says: the comparison lowered from
/// `lhs op rhs`, for `op` one of `<`, `<=`, `>`, `>=`, holds between any two
/// numbers exactly when `op` does (so `a <= b` lowers to `Le`, under which
/// `1 <= 1` holds).
pub proof fn lemma_compare_keeps_operator(c: Cst, a: Compare, x: int, y: int)
    requires
        ok_compare(c, a),
    ensures
        c.kind matches CstKind::Binary { op, .. } ==> ((op == BinOp::Lt || op == BinOp::LtEq || op
            == BinOp::Gt || op == BinOp::GtEq) ==> compare_holds(a, x, y) == op_relates(op, x, y)),
{
}

/// Lowering keeps what an equality says: the equality lowered from
/// `lhs op rhs`, for `op` one of `==`, `!=`, holds between any two numbers
/// exactly when `op` does (so `a != b` lowers to `Ne`, never to `Eq`).
pub proof fn lemma_equality_keeps_operator(c: Cst, a: Equality, x: int, y: int)
    requires
        ok_equality(c, a),
    ensures
        c.kind matches CstKind::Binary { op, .. } ==> ((op == BinOp::Eq || op == BinOp::NotEq)
            ==> equality_holds(a, x, y) == op_relates(op, x, y)),
{
}

/// What an additive node computes from two numbers `x` (its left operand)
/// and `y` (its right); `0` for the passthrough.
pub open spec fn additive_value(a: Additive, x: int, y: int) -> int {
    match a {
        Additive::Add { .. } => x + y,
        Additive::Sub { .. } => x - y,
        Additive::Mult(_) => 0,
    }
}

/// What a multiplicative node computes from two numbers `x` (its left
/// operand) and `y` (its right); `0` for the passthrough.
pub open spec fn mult_value(a: Mult, x: int, y: int) -> int {
    match a {
        Mult::Mul { .. } => x * y,
        Mult::Div { .. } => x / y,
        Mult::Rem { .. } => x % y,
        Mult::Power(_) => 0,
    }
}

/// Lowering keeps what an additive operator computes: the node lowered
/// from `lhs op rhs`, for `op` one of `+`, `-`, computes from any two
/// numbers what `op` does.
pub proof fn lemma_additive_keeps_operator(c: Cst, a: Additive, x: int, y: int)
    requires
        ok_additive(c, a),
    ensures
        c.kind matches CstKind::Binary { op, .. } ==> ((op == BinOp::Add || op == BinOp::Sub)
            ==> additive_value(a, x, y) == op_value(op, x, y)),
{
}

/// Lowering keeps what a multiplicative operator computes: the node
/// lowered from `lhs op rhs`, for `op` one of `*`, `/`, `%`, computes from
/// any two numbers what `op` does.
pub proof fn lemma_mult_keeps_operator(c: Cst, a: Mult, x: int, y: int)
    requires
        ok_mult(c, a),
    ensures
        c.kind matches CstKind::Binary { op, .. } ==> ((op == BinOp::Mul || op == BinOp::Div || op
            == BinOp::Rem) ==> mult_value(a, x, y) == op_value(op, x, y)),
{
}

/// The text of the operator a prefix node applies, as bytes; empty for the
/// passthrough.
pub open spec fn unary_node_text(a: Unary) -> Seq<u8> {
    match a {
        Unary::Neg(_) => unary_text(UnaryOp::Neg),
        Unary::Pos(_) => unary_text(UnaryOp::Pos),
        Unary::Not(_) => unary_text(UnaryOp::Not),
        Unary::Unpack(_) => unary_text(UnaryOp::Unpack),
        Unary::Get(_) => seq![],
    }
}

/// Lowering keeps a prefix node's operator: the node lowered from a prefix
/// application applies the operator of the same text.
pub proof fn lemma_unary_keeps_operator(c: Cst, a: Unary)
    requires
        ok_unary(c, a),
    ensures
        c.kind matches CstKind::Unary { op, .. } ==> unary_node_text(a) == unary_text(op),
{
}

/// The text of an access operator, as bytes.
pub open spec fn get_op_text(op: GetOp) -> Seq<u8> {
    match op {
        GetOp::Get => op_text(BinOp::Get),
        GetOp::Match => op_text(BinOp::Match),
    }
}

/// Lowering keeps an access's operator: the `:` or `~` node lowered from
/// `lhs op rhs` uses the operator of the same text.
pub proof fn lemma_get_keeps_operator(c: Cst, a: Get)
    requires
        ok_get(c, a),
    ensures
        c.kind matches CstKind::Binary { op, .. } ==> ((op == BinOp::Get || op == BinOp::Match)
            ==> (a matches Get::Index { op: g, .. } && get_op_text(g) == op_text(op))),
{
}

/// The text of an assignment operator, as bytes.
pub open spec fn assign_op_text(op: AssignOp) -> Seq<u8> {
    match op {
        AssignOp::Assign => op_text(BinOp::Assign),
        AssignOp::Add => op_text(BinOp::AddAssign),
        AssignOp::Swap => op_text(BinOp::Swap),
    }
}

/// Lowering keeps an assignment's operator: the store lowered from
/// `lhs op rhs`, for `op` one of `=`, `+=`, `<>`, uses the operator of the
/// same text.
pub proof fn lemma_assign_keeps_operator(c: Cst, a: Assign)
    requires
        ok_assign(c, a),
    ensures
        c.kind matches CstKind::Binary { op, .. } ==> ((op == BinOp::Assign || op == BinOp::AddAssign
            || op == BinOp::Swap) ==> (a matches Assign::Store { op: s, .. } && assign_op_text(s)
            == op_text(op))),
{
}

} // verus!
