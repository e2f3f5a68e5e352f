//! Lowering the compact tree to the AST: level shapes, definitions,
//! assignment targets, map entries, and errors.

use scarpet::ast::{
    Additive, Args, Assign, AssignOp, Capture, Code, Compare, Equality, Expr, Get, GetOp, LValue,
    Land, Lor, LowerError, MapEntry, Mult, ParamWord, Place, Power, Primary, Unary,
};
use scarpet::parser::parse_source;

/// Parse and lower, expecting success.
fn ast(src: &str) -> Args<'_> {
    Args::try_from(&parse_source(src).expect("parse error")).expect("lower error")
}

/// Parse and lower, expecting a lowering failure.
fn lower_err(src: &str) -> LowerError {
    Args::try_from(&parse_source(src).expect("parse error")).expect_err("expected lower error")
}

// --- Primary constructors / passthrough lifters (build expected trees) ---

fn num(s: &str) -> Primary<'_> {
    Primary::Number(s)
}
fn p_mult(p: Primary<'_>) -> Mult<'_> {
    Mult::Power(Power::Unary(Unary::Get(Get::Primary(p))))
}
fn p_add(p: Primary<'_>) -> Additive<'_> {
    Additive::Mult(p_mult(p))
}

// --- descend a single-expression program to a given level ----------------

fn only_expr<'a, 's>(a: &'a Args<'s>) -> &'a Expr<'s> {
    let Args(codes) = a;
    assert_eq!(codes.len(), 1, "expected one top-level statement-list");
    let Code(exprs) = &codes[0];
    assert_eq!(exprs.len(), 1, "expected a single statement");
    &exprs[0]
}

fn as_additive<'a, 's>(e: &'a Expr<'s>) -> &'a Additive<'s> {
    let Expr::Assign(Assign::Lor(Lor::Land(Land::Equality(Equality::Compare(
        Compare::Additive(a),
    ))))) = e
    else {
        panic!("not a bare additive: {e:?}");
    };
    a
}

fn as_unary<'a, 's>(e: &'a Expr<'s>) -> &'a Unary<'s> {
    let Additive::Mult(Mult::Power(Power::Unary(u))) = as_additive(e) else {
        panic!("not a bare unary: {e:?}");
    };
    u
}

fn as_power<'a, 's>(e: &'a Expr<'s>) -> &'a Power<'s> {
    let Additive::Mult(Mult::Power(p)) = as_additive(e) else {
        panic!("not a bare power: {e:?}");
    };
    p
}

fn as_get<'a, 's>(e: &'a Expr<'s>) -> &'a Get<'s> {
    let Unary::Get(g) = as_unary(e) else {
        panic!("not a bare get: {e:?}");
    };
    g
}

fn prim_of_expr<'a, 's>(e: &'a Expr<'s>) -> &'a Primary<'s> {
    let Get::Primary(p) = as_get(e) else {
        panic!("not a bare primary: {e:?}");
    };
    p
}

/// The variable name of a plain-variable [`LValue::Place`], for inspecting an
/// assignment target or a destructure element.
fn place_var_name<'s>(lv: &LValue<'s>) -> &'s str {
    let LValue::Place(Place::Var(name)) = lv else {
        panic!("not a variable place: {lv:?}");
    };
    name
}

// --- Code root (statement-sequence) --------------------------------------

#[test]
fn code_roots_a_program_at_the_statement_sequence() {
    // `Code::try_from` skips the `Args` wrapper: the root is the `;`-chain.
    let cst = parse_source("a; b; c").expect("parse error");
    let Code(exprs) = Code::try_from(&cst).expect("lower error");
    assert_eq!(exprs.len(), 3);
    assert_eq!(prim_of_expr(&exprs[0]), &Primary::Ident("a"));
    assert_eq!(prim_of_expr(&exprs[2]), &Primary::Ident("c"));

    // A lone expression is a one-statement Code.
    let cst = parse_source("42").expect("parse error");
    let Code(exprs) = Code::try_from(&cst).expect("lower error");
    assert_eq!(exprs.len(), 1);
}

#[test]
fn code_rejects_a_top_level_comma() {
    // A `Code` has no comma level, so a top-level `,` cannot be lowered.
    let cst = parse_source("a, b").expect("parse error");
    assert_eq!(
        Code::try_from(&cst).unwrap_err(),
        LowerError::Unexpected("an operator expression")
    );
}

// --- atoms / passthrough -------------------------------------------------

#[test]
fn bare_atoms_lower_through_every_level() {
    assert_eq!(prim_of_expr(only_expr(&ast("42"))), &Primary::Number("42"));
    assert_eq!(prim_of_expr(only_expr(&ast("'hi'"))), &Primary::Str("'hi'"));
    assert_eq!(prim_of_expr(only_expr(&ast("foo"))), &Primary::Ident("foo"));
}

// --- arithmetic precedence / associativity -------------------------------

#[test]
fn additive_over_multiplicative() {
    // `2 + 3 * 4` → Add(2, Mul(3, 4))
    let a = ast("2 + 3 * 4");
    assert_eq!(
        as_additive(only_expr(&a)),
        &Additive::Add {
            lhs: Box::new(p_add(num("2"))),
            rhs: Mult::Mul {
                lhs: Box::new(p_mult(num("3"))),
                rhs: Power::Unary(Unary::Get(Get::Primary(num("4")))),
            },
        }
    );
}

#[test]
fn additive_is_left_associative() {
    // `2 + 3 - 1` → Sub(Add(2, 3), 1)
    let a = ast("2 + 3 - 1");
    assert_eq!(
        as_additive(only_expr(&a)),
        &Additive::Sub {
            lhs: Box::new(Additive::Add {
                lhs: Box::new(p_add(num("2"))),
                rhs: p_mult(num("3")),
            }),
            rhs: p_mult(num("1")),
        }
    );
}

#[test]
fn power_is_right_associative() {
    // `2 ^ 3 ^ 2` → Pow(2, Pow(3, 2))
    let a = ast("2 ^ 3 ^ 2");
    assert_eq!(
        as_power(only_expr(&a)),
        &Power::Pow {
            base: Unary::Get(Get::Primary(num("2"))),
            exp: Box::new(Power::Pow {
                base: Unary::Get(Get::Primary(num("3"))),
                exp: Box::new(Power::Unary(Unary::Get(Get::Primary(num("2"))))),
            }),
        }
    );
}

#[test]
fn unary_wraps_a_get_chain() {
    // `-foo:0` → Neg(foo:0)
    let a = ast("-foo:0");
    let Unary::Neg(inner) = as_unary(only_expr(&a)) else {
        panic!("expected Neg");
    };
    let Unary::Get(Get::Index { base, op, key }) = inner.as_ref() else {
        panic!("expected a get under the negation");
    };
    assert_eq!(base.as_ref(), &Get::Primary(Primary::Ident("foo")));
    assert_eq!(*op, GetOp::Get);
    assert_eq!(key, &Primary::Number("0"));
}

#[test]
fn get_chain_is_left_associative() {
    // `a:b:c` → (a:b):c
    let a = ast("a:b:c");
    let Get::Index { base, op, key } = as_get(only_expr(&a)) else {
        panic!("expected an index");
    };
    assert_eq!(*op, GetOp::Get);
    assert_eq!(key, &Primary::Ident("c"));
    assert_eq!(
        base.as_ref(),
        &Get::Index {
            base: Box::new(Get::Primary(Primary::Ident("a"))),
            op: GetOp::Get,
            key: Primary::Ident("b"),
        }
    );
}

#[test]
fn match_operator_lowers_to_match_get() {
    let a = ast("a~b");
    let Get::Index { op, .. } = as_get(only_expr(&a)) else {
        panic!("expected an index");
    };
    assert_eq!(*op, GetOp::Match);
}

// --- sequences -----------------------------------------------------------

#[test]
fn semicolons_build_a_statement_code() {
    let a = ast("a; b; c");
    let Args(codes) = &a;
    assert_eq!(codes.len(), 1);
    let Code(exprs) = &codes[0];
    assert_eq!(exprs.len(), 3);
    assert_eq!(prim_of_expr(&exprs[0]), &Primary::Ident("a"));
    assert_eq!(prim_of_expr(&exprs[2]), &Primary::Ident("c"));
}

#[test]
fn top_level_commas_build_args() {
    // `,` is looser than `;`, so `a; b , c` is two args: `a; b` and `c`.
    let a = ast("a; b, c");
    let Args(codes) = &a;
    assert_eq!(codes.len(), 2);
    assert_eq!(codes[0].0.len(), 2); // a ; b
    assert_eq!(codes[1].0.len(), 1); // c
    assert_eq!(prim_of_expr(&codes[1].0[0]), &Primary::Ident("c"));
}

#[test]
fn parens_lower_to_a_primary_args_body() {
    let a = ast("(a + b)");
    let Primary::Paren(Args(codes)) = prim_of_expr(only_expr(&a)) else {
        panic!("expected a paren");
    };
    assert_eq!(codes.len(), 1);
    assert_eq!(codes[0].0.len(), 1);
    // the body is `a + b`
    as_additive(&codes[0].0[0]);
}

// --- function definitions ------------------------------------------------

#[test]
fn function_definition_with_call_lhs() {
    let a = ast("foo(a, b) -> a + b");
    let Expr::Def { name, params, body } = only_expr(&a) else {
        panic!("expected a Def");
    };
    assert_eq!(*name, "foo");
    // params: two positional binders, no captures, no rest.
    assert_eq!(params.fixed, ["a", "b"]);
    assert!(params.captures.is_empty());
    assert!(params.rest.is_none());
    // body is `a + b`
    as_additive(body);
}

#[test]
fn anonymous_function_is_a_def_named_underscore() {
    let a = ast("_(x) -> x * x");
    let Expr::Def { name, params, .. } = only_expr(&a) else {
        panic!("expected a Def");
    };
    assert_eq!(*name, "_");
    assert_eq!(params.fixed, ["x"]);
    assert!(params.rest.is_none());
}

#[test]
fn rest_parameter_lands_in_the_rest_slot() {
    // `...rest` is the signature's single vararg.
    let a = ast("f(a, ...rest) -> rest");
    let Expr::Def { params, .. } = only_expr(&a) else {
        panic!("expected a Def");
    };
    assert_eq!(params.fixed, ["a"]);
    assert_eq!(params.rest, Some("rest"));
}

#[test]
fn invalid_function_parameters_are_an_error() {
    // Scarpet allows only variables / `outer` / `...rest` in a signature,
    // so a literal arg (`str('add', _)`), an index arg
    // (`f(a:0)`), or an unknown reserved word (`f(inner(x))`) all fail.
    for src in ["str('add', _) -> x", "f(a:0) -> x", "f(inner(x)) -> x"] {
        assert_eq!(lower_err(src), LowerError::InvalidSignature, "{src}");
    }
}

#[test]
fn outer_capture_parameter_lowers_to_a_capture() {
    // `outer(x)` is a reserved-word capture; it does not occupy a position.
    let a = ast("_(a, outer(x)) -> x");
    let Expr::Def { params, .. } = only_expr(&a) else {
        panic!("expected a Def");
    };
    assert_eq!(params.fixed, ["a"]);
    assert_eq!(
        params.captures,
        vec![Capture {
            word: ParamWord::Outer,
            name: "x"
        }]
    );
    assert!(params.rest.is_none());
}

// --- assignments ---------------------------------------------------------

#[test]
fn assignment_is_right_associative() {
    // `a = b = 5` → Set(a, Set(b, 5))
    let a = ast("a = b = 5");
    let Expr::Assign(Assign::Store { target, op, value }) = only_expr(&a) else {
        panic!("expected a Set");
    };
    assert_eq!(place_var_name(target), "a");
    assert_eq!(*op, AssignOp::Assign);
    let Assign::Store {
        target: t2,
        op: op2,
        ..
    } = value.as_ref()
    else {
        panic!("expected a nested Set");
    };
    assert_eq!(place_var_name(t2), "b");
    assert_eq!(*op2, AssignOp::Assign);
}

#[test]
fn add_assign_and_swap_operators() {
    let a = ast("a += 1");
    let Expr::Assign(Assign::Store { op, .. }) = only_expr(&a) else {
        panic!("expected a Set");
    };
    assert_eq!(*op, AssignOp::Add);

    let a = ast("a <> b");
    let Expr::Assign(Assign::Store { op, .. }) = only_expr(&a) else {
        panic!("expected a Set");
    };
    assert_eq!(*op, AssignOp::Swap);
}

#[test]
fn indexed_assignment_target() {
    // `x:0 = 5` → an indexed place rooted at the variable `x`.
    let a = ast("x:0 = 5");
    let Expr::Assign(Assign::Store { target, .. }) = only_expr(&a) else {
        panic!("expected a Set");
    };
    let LValue::Place(Place::Index { base, key }) = target else {
        panic!("expected an indexed place: {target:?}");
    };
    assert_eq!(base.as_ref(), &Place::Var("x"));
    assert_eq!(key, &Primary::Number("0"));
}

#[test]
fn nested_index_assignment_target() {
    // `a:b:c = 5` → Index(Index(a, b), c): the base of an index is itself a place.
    let a = ast("a:b:c = 5");
    let Expr::Assign(Assign::Store { target, .. }) = only_expr(&a) else {
        panic!("expected a Set");
    };
    let LValue::Place(Place::Index { base, key }) = target else {
        panic!("expected an indexed place");
    };
    assert_eq!(key, &Primary::Ident("c"));
    let Place::Index { base, key } = base.as_ref() else {
        panic!("expected a nested index");
    };
    assert_eq!(base.as_ref(), &Place::Var("a"));
    assert_eq!(key, &Primary::Ident("b"));
}

#[test]
fn destructuring_list_assignment_target() {
    // `[a, b] = t` — a destructure of two variable places.
    let a = ast("[a, b] = t");
    let Expr::Assign(Assign::Store { target, .. }) = only_expr(&a) else {
        panic!("expected a Set");
    };
    let LValue::Destructure(pats) = target else {
        panic!("expected a destructure: {target:?}");
    };
    assert!(pats.rest.is_none());
    let names: Vec<_> = pats.before.iter().map(place_var_name).collect();
    assert_eq!(names, ["a", "b"]);
}

#[test]
fn destructuring_call_assignment_target() {
    // `l(x, y, z) = p` — the `l(...)` constructor is the same destructure as `[…]`.
    let a = ast("l(x, y, z) = p");
    let Expr::Assign(Assign::Store { target, .. }) = only_expr(&a) else {
        panic!("expected a Set");
    };
    let LValue::Destructure(pats) = target else {
        panic!("expected a destructure: {target:?}");
    };
    let names: Vec<_> = pats.before.iter().map(place_var_name).collect();
    assert_eq!(names, ["x", "y", "z"]);
}

#[test]
fn dynamic_var_assignment_target() {
    // `var(<expr>) = …` lowers to a `DynVar` place holding the name expression.
    let a = ast("var('global_' + s) = 1");
    let Expr::Assign(Assign::Store { target, .. }) = only_expr(&a) else {
        panic!("expected a Set");
    };
    let LValue::Place(Place::DynVar(arg)) = target else {
        panic!("expected a DynVar place: {target:?}");
    };
    // the argument is `'global_' + s`, an additive expression
    let Code(exprs) = arg.as_ref();
    assert_eq!(exprs.len(), 1);
    as_additive(&exprs[0]);
}

#[test]
fn rest_in_a_list_target_binds_a_rest() {
    // `[a, ...r, b] = t` — `...r` is the single rest binder; `a` is bound from
    // the front and `b` from the back, the one-rest-per-level rule keeping the
    // split unambiguous.
    let a = ast("[a, ...r, b] = t");
    let Expr::Assign(Assign::Store { target, .. }) = only_expr(&a) else {
        panic!("expected a Set");
    };
    let LValue::Destructure(pats) = target else {
        panic!("expected a destructure");
    };
    assert_eq!(pats.before.len(), 1);
    assert_eq!(place_var_name(&pats.before[0]), "a");
    let rest = pats.rest.as_ref().expect("expected a rest binder");
    assert_eq!(place_var_name(&rest.binder), "r");
    assert_eq!(rest.after.len(), 1);
    assert_eq!(place_var_name(&rest.after[0]), "b");
}

#[test]
fn nested_destructure_target() {
    // `[a, [...b, c]] = t` — a destructure element is itself an `LValue`, so a
    // nested destructure (with its own rest) recurses.
    let a = ast("[a, [...b, c]] = t");
    let Expr::Assign(Assign::Store { target, .. }) = only_expr(&a) else {
        panic!("expected a Set");
    };
    let LValue::Destructure(pats) = target else {
        panic!("expected a destructure");
    };
    assert_eq!(pats.before.len(), 2);
    assert_eq!(place_var_name(&pats.before[0]), "a");
    let LValue::Destructure(inner) = &pats.before[1] else {
        panic!("expected a nested destructure");
    };
    assert!(inner.before.is_empty());
    let rest = inner.rest.as_ref().expect("expected an inner rest");
    assert_eq!(place_var_name(&rest.binder), "b");
    assert_eq!(place_var_name(&rest.after[0]), "c");
}

#[test]
fn rest_binder_into_a_nested_destructure() {
    // `[a, ...[p, q]] = t` — the rest binder is itself an `LValue`, here a
    // nested destructure.
    let a = ast("[a, ...[p, q]] = t");
    let Expr::Assign(Assign::Store { target, .. }) = only_expr(&a) else {
        panic!("expected a Set");
    };
    let LValue::Destructure(pats) = target else {
        panic!("expected a destructure");
    };
    let rest = pats.rest.as_ref().expect("expected a rest binder");
    let LValue::Destructure(inner) = rest.binder.as_ref() else {
        panic!("expected the rest binder to be a destructure");
    };
    let names: Vec<_> = inner.before.iter().map(place_var_name).collect();
    assert_eq!(names, ["p", "q"]);
}

#[test]
fn computed_call_assignment_target() {
    // `if(c, a, b) = …` — a call that may return a bound place at runtime
    // lowers to a `Computed` target (Scarpet's dynamic l-value model).
    let a = ast("if(c, a, b) = 1");
    let Expr::Assign(Assign::Store { target, .. }) = only_expr(&a) else {
        panic!("expected a Set");
    };
    let LValue::Computed(call) = target else {
        panic!("expected a computed target: {target:?}");
    };
    let Primary::Call { name, .. } = call.as_ref() else {
        panic!("expected a call");
    };
    assert_eq!(*name, "if");
}

#[test]
fn multiple_rest_binders_in_a_destructure_are_an_error() {
    // Two `...` at the same destructuring level cannot be represented. In a
    // *signature* a second `...` likewise invalidates the definition.
    assert_eq!(lower_err("[...a, ...b] = t"), LowerError::MultipleRest);
    assert_eq!(
        lower_err("f(...a, ...b) -> 0"),
        LowerError::InvalidSignature
    );
}

#[test]
fn non_assignable_targets_are_rejected_at_lowering() {
    // The target is an `LValue` now, so a shape that can never be a place fails
    // at lowering rather than evaluation: a literal, an operator or
    // parenthesised expression, `~` match, and a literal destructure element.
    // (A call like `if(…)` is the one exception — it may be a place at runtime,
    // so it lowers to `LValue::Computed`.)
    for src in ["1 = 2", "a + b = c", "(a) = b", "a ~ b = c", "[a, 1] = t"] {
        assert_eq!(lower_err(src), LowerError::NotAssignable, "{src}");
    }
}

// --- primaries: call / list / map ----------------------------------------

#[test]
fn call_list_and_map_primaries() {
    let a = ast("print('hi')");
    let Primary::Call { name, args } = prim_of_expr(only_expr(&a)) else {
        panic!("expected a call");
    };
    assert_eq!(*name, "print");
    assert_eq!(args.0.len(), 1);

    let a = ast("[1, 2, 3]");
    let Primary::List(Args(codes)) = prim_of_expr(only_expr(&a)) else {
        panic!("expected a list");
    };
    assert_eq!(codes.len(), 3);

    let a = ast("l(1, 2, 3)");
    let Primary::List(Args(codes)) = prim_of_expr(only_expr(&a)) else {
        panic!("expected a list");
    };
    assert_eq!(codes.len(), 3);

    let a = ast("{'a' -> 1}");
    let Primary::MapLiteral(entries) = prim_of_expr(only_expr(&a)) else {
        panic!("expected a map");
    };
    assert_eq!(entries.len(), 1);
    // the single entry is a key/value pair
    assert!(matches!(entries[0], MapEntry::Pair { .. }));
}

#[test]
fn map_entry_forms_lower_as_tagged() {
    // `k -> v` is a pair; a list (`[k, v]`, `l(k, v)`) or bare key is a
    // `Single` whose *value* the VM classifies at runtime.
    let a = ast("{'a' -> 1, [1, 2], l(1, 2), 'k'}");
    let Primary::MapLiteral(entries) = prim_of_expr(only_expr(&a)) else {
        panic!("expected a map");
    };
    assert_eq!(entries.len(), 4);
    assert!(matches!(entries[0], MapEntry::Pair { .. }));
    for entry in &entries[1..] {
        assert!(matches!(entry, MapEntry::Single(_)));
    }
}

#[test]
fn map_entry_with_statement_chain_is_a_single() {
    // `{f(x) -> v; w}` — the `;` makes the whole item a bare key, whose
    // chain holds a definition followed by `w`.
    let a = ast("{f(x) -> v; w}");
    let Primary::MapLiteral(entries) = prim_of_expr(only_expr(&a)) else {
        panic!("expected a map");
    };
    let [MapEntry::Single(Code(exprs))] = entries.as_slice() else {
        panic!("expected one Single entry: {entries:?}");
    };
    assert_eq!(exprs.len(), 2);
    assert!(matches!(exprs[0], Expr::Def { .. }));

    // A non-call arrow in this position is rejected by the parser rather
    // than reaching AST lowering.
    assert!(parse_source("{'k' -> v; w}").is_err());
}

// --- trivia / empties ----------------------------------------------------

#[test]
fn trivia_is_dropped() {
    // Comments and breaks don't survive lowering: the AST matches the
    // comment-free source exactly.
    assert_eq!(ast("// header\n a + b\n"), ast("a + b"));
}

#[test]
fn empty_call_with_only_a_comment_has_no_args() {
    // `f(// note\n)` parses to a phantom `Empty` arg; lowering drops it.
    let a = ast("f(// note\n)");
    let Primary::Call { args, .. } = prim_of_expr(only_expr(&a)) else {
        panic!("expected a call");
    };
    assert_eq!(args.0.len(), 0);
}

#[test]
fn omitted_argument_slot_is_dropped() {
    // `f(a, , b)` has a phantom `Empty` middle arg; lowering drops it, so
    // the call carries two arguments.
    let a = ast("f(a, , b)");
    let Primary::Call { args, .. } = prim_of_expr(only_expr(&a)) else {
        panic!("expected a call");
    };
    assert_eq!(args.0.len(), 2);
}

// ----- own cases -----------------------------------------------------------

#[test]
fn var_place_takes_exactly_one_argument() {
    assert_eq!(lower_err("var(a, b) = 1"), LowerError::NotAssignable);
    assert_eq!(lower_err("var() = 1"), LowerError::NotAssignable);
}

#[test]
fn lower_error_messages() {
    assert_eq!(
        LowerError::Unexpected("a map entry").message(),
        "unexpected a map entry where an expression was required"
    );
    assert_eq!(
        LowerError::MultipleRest.message(),
        "multiple rest binders (`...`) at the same level"
    );
    assert_eq!(
        LowerError::NotAssignable.message(),
        "left-hand side is not a valid assignment target"
    );
    assert_eq!(
        LowerError::InvalidSignature.message(),
        "function definition has invalid parameters"
    );
}

#[test]
fn map_item_pair_key_sits_at_the_assignment_level() {
    let a = ast("{a = 1 -> 2}");
    let Primary::MapLiteral(entries) = prim_of_expr(only_expr(&a)) else {
        panic!("expected a map");
    };
    let [MapEntry::Pair { key, value }] = entries.as_slice() else {
        panic!("expected one pair: {entries:?}");
    };
    assert!(matches!(key.as_ref(), Assign::Store { op: AssignOp::Assign, .. }));
    assert!(matches!(value.as_ref(), Expr::Assign(Assign::Lor(_))));
}
