//! The compact-tree front end's tests: tree shapes, trivia placement,
//! errors, and the delimiter helpers.

use scarpet::cst::{BinOp, Cst, CstKind, Trivia, UnaryOp, strip_trivia};
use scarpet::ftree::{FElem, FNode};
use scarpet::lexer::lex;
use scarpet::parser::{has_open_delimiter, parse as parse_tree, parse_source};
use scarpet::syntax::SyntaxKind;

fn parse(src: &str) -> Cst<'_> {
    parse_source(src).expect("parse error")
}

// Constructors with empty leading trivia, for terser assertions.
fn num(s: &str) -> Cst<'_> {
    Cst::bare(CstKind::Number(s))
}
fn str_(s: &str) -> Cst<'_> {
    Cst::bare(CstKind::Str(s))
}
fn id(s: &str) -> Cst<'_> {
    Cst::bare(CstKind::Ident(s))
}
fn call<'s>(name: &'s str, args: Vec<Cst<'s>>) -> Cst<'s> {
    Cst::bare(CstKind::Call {
        callee: Box::new(id(name)),
        args,
    })
}
fn list(args: Vec<Cst<'_>>) -> Cst<'_> {
    Cst::bare(CstKind::List(args))
}
fn map(args: Vec<Cst<'_>>) -> Cst<'_> {
    Cst::bare(CstKind::MapLiteral(args))
}
fn paren(inner: Cst<'_>) -> Cst<'_> {
    Cst::bare(CstKind::Paren(Box::new(inner)))
}
fn un(op: UnaryOp, operand: Cst<'_>) -> Cst<'_> {
    Cst::bare(CstKind::Unary {
        op,
        operand: Box::new(operand),
    })
}
fn bin<'s>(op: BinOp, lhs: Cst<'s>, rhs: Cst<'s>) -> Cst<'s> {
    Cst::bare(CstKind::Binary {
        op,
        lhs: Box::new(lhs),
        rhs: Box::new(rhs),
    })
}
fn def<'s>(signature: Cst<'s>, body: Cst<'s>) -> Cst<'s> {
    Cst::bare(CstKind::DefineFunction {
        signature: Box::new(signature),
        body: Box::new(body),
    })
}
fn entry<'s>(key: Cst<'s>, value: Option<Cst<'s>>) -> Cst<'s> {
    Cst::bare(CstKind::MapEntry {
        key: Box::new(key),
        value: value.map(Box::new),
    })
}

#[test]
fn parser_hello_world() {
    assert_eq!(
        parse("print('Hello World!')"),
        call("print", vec![str_("'Hello World!'")])
    );
}

#[test]
fn parser_arithmetic_precedence() {
    assert_eq!(
        parse("2 + 3 * 4"),
        bin(BinOp::Add, num("2"), bin(BinOp::Mul, num("3"), num("4")))
    );
}

#[test]
fn parser_additive_left_assoc() {
    assert_eq!(
        parse("2 + 3 - 1"),
        bin(BinOp::Sub, bin(BinOp::Add, num("2"), num("3")), num("1"))
    );
}

#[test]
fn parser_power_right_assoc() {
    assert_eq!(
        parse("2 ^ 3 ^ 2"),
        bin(BinOp::Pow, num("2"), bin(BinOp::Pow, num("3"), num("2")))
    );
}

#[test]
fn parser_unary_minus_then_get() {
    assert_eq!(
        parse("-foo:0"),
        un(UnaryOp::Neg, bin(BinOp::Get, id("foo"), num("0")))
    );
}

#[test]
fn parser_match_and_get_chain() {
    assert_eq!(
        parse("a:b:c"),
        bin(BinOp::Get, bin(BinOp::Get, id("a"), id("b")), id("c"))
    );
    assert_eq!(parse("a~b"), bin(BinOp::Match, id("a"), id("b")));
}

#[test]
fn parser_assignment_right_assoc() {
    assert_eq!(
        parse("a = b = 5"),
        bin(
            BinOp::Assign,
            id("a"),
            bin(BinOp::Assign, id("b"), num("5"))
        )
    );
}

#[test]
fn parser_semi_and_comma_sequence() {
    assert_eq!(
        parse("a; b; c"),
        bin(BinOp::Semi, bin(BinOp::Semi, id("a"), id("b")), id("c"))
    );
}

#[test]
fn parser_unpacking_in_call() {
    assert_eq!(
        parse("f(...xs)"),
        call("f", vec![un(UnaryOp::Unpack, id("xs"))])
    );
}

#[test]
fn parser_nested_function_call() {
    assert_eq!(
        parse("print(format('f » ', 'g hi'))"),
        call(
            "print",
            vec![call("format", vec![str_("'f » '"), str_("'g hi'")])]
        )
    );
}

#[test]
fn parser_lenient_trailing_semicolon() {
    assert_eq!(parse("a;"), id("a"));
}

#[test]
fn parser_comments_attach_as_leading_trivia() {
    let cst = parse("// hello\n  a + b\n");
    match &cst.kind {
        CstKind::Binary {
            op: BinOp::Add,
            lhs,
            rhs,
        } => {
            assert_eq!(
                lhs.leading,
                vec![Trivia::Comment("// hello"), Trivia::Break]
            );
            assert_eq!(lhs.kind, CstKind::Ident("a"));
            assert!(rhs.leading.is_empty());
            assert_eq!(rhs.kind, CstKind::Ident("b"));
        }
        other => panic!("expected Add(a, b), got {other:?}"),
    }
    assert!(cst.leading.contains(&Trivia::Break));
}

#[test]
fn parser_break_inside_call_args_attaches_to_next_arg() {
    let cst = parse("f(a,\n b)");
    match &cst.kind {
        CstKind::Call { args, .. } => {
            assert_eq!(args.len(), 2);
            assert_eq!(args[0].kind, CstKind::Ident("a"));
            assert!(args[0].leading.is_empty());
            assert_eq!(args[1].kind, CstKind::Ident("b"));
            assert_eq!(args[1].leading, vec![Trivia::Break]);
        }
        other => panic!("expected Call, got {other:?}"),
    }
}

#[test]
fn parser_comment_between_operator_and_rhs_attaches_to_rhs() {
    let cst = parse("a + // mid\n b");
    match &cst.kind {
        CstKind::Binary {
            op: BinOp::Add,
            lhs,
            rhs,
        } => {
            assert!(lhs.leading.is_empty());
            assert_eq!(lhs.kind, CstKind::Ident("a"));
            assert_eq!(rhs.leading, vec![Trivia::Comment("// mid"), Trivia::Break]);
            assert_eq!(rhs.kind, CstKind::Ident("b"));
        }
        other => panic!("expected Add(a, b), got {other:?}"),
    }
}

#[test]
fn parser_semicolon_trivia_flows_to_next_statement() {
    let cst = parse("a;\n// note\n b");
    match &cst.kind {
        CstKind::Binary {
            op: BinOp::Semi,
            lhs,
            rhs,
        } => {
            assert_eq!(lhs.kind, CstKind::Ident("a"));
            assert_eq!(rhs.kind, CstKind::Ident("b"));
            assert!(rhs.leading.contains(&Trivia::Comment("// note")));
            assert!(rhs.leading.contains(&Trivia::Break));
        }
        other => panic!("expected Semi(a, b), got {other:?}"),
    }
}

#[test]
fn parser_trailing_comment_anchored_on_root() {
    let cst = parse("a\n// trailing");
    assert_eq!(cst.kind, CstKind::Ident("a"));
    assert_eq!(
        cst.leading,
        vec![Trivia::Break, Trivia::Comment("// trailing")]
    );
}

#[test]
fn parser_comment_inside_empty_parens_becomes_phantom_empty() {
    let cst = parse("f(// note\n)");
    match &cst.kind {
        CstKind::Call { args, .. } => {
            assert_eq!(args.len(), 1);
            assert_eq!(args[0].kind, CstKind::Empty);
            assert_eq!(
                args[0].leading,
                vec![Trivia::Comment("// note"), Trivia::Break]
            );
        }
        other => panic!("expected Call, got {other:?}"),
    }
}

#[test]
fn parser_comment_attaches_to_omitted_empty_arg() {
    let cst = parse("f(a, // gap\n , b)");
    match &cst.kind {
        CstKind::Call { args, .. } => {
            assert_eq!(args.len(), 3);
            assert_eq!(args[0].kind, CstKind::Ident("a"));
            assert!(args[0].leading.is_empty());
            assert_eq!(args[1].kind, CstKind::Empty);
            assert_eq!(
                args[1].leading,
                vec![Trivia::Comment("// gap"), Trivia::Break]
            );
            assert_eq!(args[2].kind, CstKind::Ident("b"));
            assert!(args[2].leading.is_empty());
        }
        other => panic!("expected Call, got {other:?}"),
    }
}

#[test]
fn parser_comment_after_last_arg_in_call_attaches_back() {
    let cst = parse("f(a // tail\n)");
    match &cst.kind {
        CstKind::Call { args, .. } => {
            assert_eq!(args.len(), 1);
            assert_eq!(args[0].kind, CstKind::Ident("a"));
            assert_eq!(
                args[0].leading,
                vec![Trivia::Comment("// tail"), Trivia::Break]
            );
        }
        other => panic!("expected Call, got {other:?}"),
    }
}

#[test]
fn parser_comment_around_trailing_comma_in_list_flushes_onto_last() {
    let cst = parse("[1, // tail\n]");
    match &cst.kind {
        CstKind::List(items) => {
            assert_eq!(items.len(), 1);
            assert_eq!(items[0].kind, CstKind::Number("1"));
            assert_eq!(
                items[0].leading,
                vec![Trivia::Comment("// tail"), Trivia::Break]
            );
        }
        other => panic!("expected List, got {other:?}"),
    }
}

#[test]
fn parser_comment_inside_paren_attaches_to_inner_first_token() {
    let cst = parse("(// note\n a + b)");
    match &cst.kind {
        CstKind::Paren(inner) => {
            assert!(cst.leading.is_empty());
            match &inner.kind {
                CstKind::Binary {
                    op: BinOp::Add,
                    lhs,
                    rhs,
                } => {
                    assert_eq!(lhs.leading, vec![Trivia::Comment("// note"), Trivia::Break]);
                    assert_eq!(lhs.kind, CstKind::Ident("a"));
                    assert!(rhs.leading.is_empty());
                    assert_eq!(rhs.kind, CstKind::Ident("b"));
                }
                other => panic!("expected Add(a, b), got {other:?}"),
            }
        }
        other => panic!("expected Paren, got {other:?}"),
    }
}

#[test]
fn parser_comment_between_unary_prefix_and_operand() {
    let cst = parse("! // note\n x");
    match &cst.kind {
        CstKind::Unary {
            op: UnaryOp::Not,
            operand,
        } => {
            assert!(cst.leading.is_empty());
            assert_eq!(
                operand.leading,
                vec![Trivia::Comment("// note"), Trivia::Break]
            );
            assert_eq!(operand.kind, CstKind::Ident("x"));
        }
        other => panic!("expected Unary(Not, _), got {other:?}"),
    }
}

#[test]
fn trailing_semicolon_trivia_anchors_on_the_statement() {
    let cst = parse("(a;\n// todo\n)");
    match &cst.kind {
        CstKind::Paren(inner) => {
            assert_eq!(inner.kind, CstKind::Ident("a"));
            assert_eq!(
                inner.leading,
                vec![Trivia::Break, Trivia::Comment("// todo"), Trivia::Break]
            );
        }
        other => panic!("expected Paren, got {other:?}"),
    }
}

#[test]
fn parser_error_expected_expression_at_eof() {
    let e = parse_source("1 +").unwrap_err();
    assert_eq!(e.found, None);
    assert_eq!(e.expected, ["expression"]);
    assert_eq!(e.message(), "expected expression, found end of input");
}

#[test]
fn parser_error_found_span_is_the_token() {
    let src = "[0, 1 2]";
    let e = parse_source(src).unwrap_err();
    assert_eq!(&src[e.span.clone()], "2");
    assert_eq!(e.found.as_deref(), Some("2"));
    assert_eq!(e.message(), "expected an operator or `]`, found `2`");
}

#[test]
fn parser_error_operator_ladder_collapses() {
    let e = parse_source("[0 1]").unwrap_err();
    assert!(e.message().contains("an operator"), "{}", e.message());
    assert!(!e.message().contains("`*`"), "{}", e.message());
}

#[test]
fn parser_error_two_expectations_join_with_or() {
    let e = parse_source("1 2").unwrap_err();
    assert_eq!(
        e.message(),
        "expected an operator or end of input, found `2`"
    );
}

#[test]
fn parser_error_message_is_never_empty() {
    for src in ["", "1 +", "[)", "1 2", "{", "((", "f(,,", ")"] {
        if let Err(e) = parse_source(src) {
            assert!(!e.message().is_empty(), "empty message for {src:?}");
        }
    }
}

#[test]
fn parser_error_mismatched_delimiter() {
    let src = "[)";
    let e = parse_source(src).unwrap_err();
    assert_eq!(e.message(), "mismatched closing delimiter");
    assert_eq!(&src[e.span.clone()], ")");
    let (opener, label) = e.secondary.clone().expect("opener label");
    assert_eq!(&src[opener], "[");
    assert_eq!(label, "unclosed `[`");
}

#[test]
fn parser_error_unclosed_delimiter() {
    let src = "foo(a";
    let e = parse_source(src).unwrap_err();
    assert_eq!(e.message(), "unclosed delimiter");
    assert_eq!(&src[e.span.clone()], "(");
}

#[test]
fn parser_error_unmatched_closing_delimiter() {
    let e = parse_source("1)").unwrap_err();
    assert_eq!(e.message(), "unmatched closing delimiter");
    assert_eq!(e.found.as_deref(), Some(")"));
}

#[test]
fn parser_delimiters_inside_strings_are_ignored() {
    assert!(parse_source("print('(')").is_ok());
}

#[test]
fn parser_has_open_delimiter_tracks_unclosed_openers() {
    assert!(has_open_delimiter("foo("));
    assert!(has_open_delimiter("[1, 2,"));
    assert!(has_open_delimiter("foo() -> ("));
    assert!(has_open_delimiter("({["));
    assert!(!has_open_delimiter("foo()"));
    assert!(!has_open_delimiter("(a + b) * [c]"));
    assert!(!has_open_delimiter("a = 5"));
    assert!(!has_open_delimiter("a)"));
    assert!(!has_open_delimiter("(a]"));
    assert!(!has_open_delimiter("print('(')"));
    assert!(!has_open_delimiter("foo() // (open"));
    assert!(has_open_delimiter("foo( // a comment"));
}

#[test]
fn parser_error_missing_comma_help() {
    let e = parse_source("[1 2]").unwrap_err();
    assert_eq!(e.help.as_deref(), Some("missing `,`"));
}

// ----- `->`: definitions and map entries ---------------------------------

#[test]
fn arrow_outside_a_map_item_defines_a_function() {
    assert_eq!(
        parse("foo(a, b) -> a + b"),
        def(
            call("foo", vec![id("a"), id("b")]),
            bin(BinOp::Add, id("a"), id("b")),
        )
    );
}

#[test]
fn arrow_at_a_map_item_top_is_a_pair() {
    assert_eq!(
        parse("{'a' -> 1, 'b'}"),
        map(vec![
            entry(str_("'a'"), Some(num("1"))),
            entry(str_("'b'"), None),
        ])
    );
    assert_eq!(
        parse("m('a' -> 1)"),
        map(vec![entry(str_("'a'"), Some(num("1")))])
    );
}

#[test]
fn arrow_below_a_map_item_top_defines_a_function() {
    assert_eq!(
        parse("{1+2;'a'->3*4}"),
        map(vec![entry(
            bin(
                BinOp::Semi,
                bin(BinOp::Add, num("1"), num("2")),
                def(str_("'a'"), bin(BinOp::Mul, num("3"), num("4"))),
            ),
            None,
        )])
    );
}

#[test]
fn arrow_is_right_associative() {
    assert_eq!(
        parse("f() -> g() -> h()"),
        def(call("f", vec![]), def(call("g", vec![]), call("h", vec![])))
    );
}

#[test]
fn list_constructor_spells_a_list() {
    assert_eq!(parse("l(1, 2, 3)"), list(vec![num("1"), num("2"), num("3")]));
    assert_eq!(parse("[1, 2, 3]"), list(vec![num("1"), num("2"), num("3")]));
}

#[test]
fn stripped_definition_keeps_its_shape() {
    let src = "toggle() -> (\n    print(player(), 'hi');\n);";
    let expected = def(
        call("toggle", vec![]),
        paren(call("print", vec![call("player", vec![]), str_("'hi'")])),
    );
    assert_eq!(strip_trivia(&parse(src)), expected);
}

// ----- the syntax tree ---------------------------------------------------

/// The text of a front-end tree: its tokens' texts in preorder.
fn tree_text(src: &str, n: &FNode) -> String {
    fn walk(toks: &[scarpet::lexer::Token<'_>], n: &FNode, out: &mut String) {
        for e in &n.children {
            match e {
                FElem::Token(i, _) => out.push_str(toks[*i].text),
                FElem::Node(m) => walk(toks, m, out),
            }
        }
    }
    let toks = lex(src);
    let mut out = String::new();
    walk(&toks, n, &mut out);
    out
}

/// The syntax tree is lossless: its text is the source, byte for byte.
#[test]
fn syntax_tree_is_lossless() {
    for src in [
        "foo(a, b) -> ( // c\n  a + b;\n)\r\n",
        "// lead\n[1, , 2,]; {'k' -> v}; -x ^ 2 $ + y",
        "f(// note\n)",
        "a; // x\n; b",
    ] {
        let tree = parse_tree(src).expect("parse error");
        assert_eq!(tree_text(src, &tree), src, "lossless for {src:?}");
    }
}

#[test]
fn parse_roots_the_tree_and_keeps_binary_shape() {
    let tree = parse_tree("a + b").expect("parse error");
    assert_eq!(tree.kind, SyntaxKind::ROOT);
    let nodes: Vec<SyntaxKind> = tree
        .children
        .iter()
        .filter_map(|e| match e {
            FElem::Node(m) => Some(m.kind),
            FElem::Token(..) => None,
        })
        .collect();
    assert_eq!(nodes, [SyntaxKind::BIN_EXPR]);
}

#[test]
fn parse_reports_the_same_errors_as_parse_source() {
    let e = parse_tree("1 +").unwrap_err();
    assert_eq!(e.message(), "expected expression, found end of input");
    let e = parse_tree("[)").unwrap_err();
    assert_eq!(e.message(), "mismatched closing delimiter");
}

/// An input still waiting for a closer never parses.
#[test]
fn open_delimiter_input_is_rejected() {
    for src in ["foo(", "[1, 2,", "foo() -> (", "({[", "(]("] {
        assert!(has_open_delimiter(src), "{src:?} reads as open");
        assert!(parse_tree(src).is_err(), "{src:?} parses");
        assert!(parse_source(src).is_err(), "{src:?} lowers");
    }
}

/// The syntax tree holds every token of the stream once, in order.
#[test]
fn syntax_tree_holds_every_token_in_order() {
    fn walk(n: &FNode, out: &mut Vec<usize>) {
        for e in &n.children {
            match e {
                FElem::Token(i, _) => out.push(*i),
                FElem::Node(m) => walk(m, out),
            }
        }
    }
    for src in [
        "a + b",
        "// lead\nf(x, , y) -> [1, {'k' -> v}];  \n",
        "  x // tail",
    ] {
        let tree = parse_tree(src).expect("parse error");
        let mut seen = Vec::new();
        walk(&tree, &mut seen);
        let all: Vec<usize> = (0..lex(src).len()).collect();
        assert_eq!(seen, all, "tokens of {src:?}");
    }
}

/// Stripping twice strips no more than once.
#[test]
fn strip_trivia_is_idempotent() {
    let src = "// head\nf(a, // mid\n b) + [1,\n 2]";
    let once = strip_trivia(&parse(src));
    assert_eq!(strip_trivia(&once), once);
}

/// Leading trivia given to a node vanish when it is stripped.
#[test]
fn strip_trivia_erases_added_leading() {
    let src = "x // c\n + y";
    let c = parse(src);
    let with = c.clone().with_leading(vec![Trivia::Comment("// lead"), Trivia::Break]);
    assert_eq!(with.leading[0], Trivia::Comment("// lead"));
    assert_eq!(strip_trivia(&with), strip_trivia(&c));
}

/// In a `{…}` map, a key/value pair whose key is not a call cannot be
/// followed by `;`: the parse fails there, expecting `,` or `}`.
#[test]
fn map_pair_followed_by_semicolon_is_rejected() {
    let src = "{'k' -> v; w}";
    let e = parse_source(src).err().expect("rejected");
    assert_eq!(&src[e.span.clone()], ";");
    assert_eq!(e.message(), "expected one of `(`, `,`, or `}`, found `;`");
    let e = parse_source("{'k' -> 1; w}").err().expect("rejected");
    assert_eq!(e.message(), "expected `,` or `}`, found `;`");
    for src in ["{(f(x)) -> v; w}", "{l(x) -> v; w}", "{1, 'a' -> b; c}", "{f(x) + 1 -> v; w}"] {
        assert!(parse_source(src).is_err(), "{src:?} parses");
    }
}

/// A call's arrow, a later arrow in the chain, a pair ended by `,`, and the
/// same chain outside a map all still parse.
#[test]
fn map_items_that_may_carry_a_semicolon_parse() {
    for src in ["{f(x) -> v; w}", "{1+2;'a'->3*4}", "{'a' -> 1, 'b' -> 2}", "('k' -> v; w)", "f('k' -> v; w)"] {
        assert!(parse_source(src).is_ok(), "{src:?} is rejected");
    }
}

/// A copy of a tree is the same tree.
#[test]
fn clone_copies_the_whole_tree() {
    let src = "// head\nf(a, // mid\n b) -> {'k' -> [1, -2], x; y}";
    let c = parse(src);
    assert_eq!(c.clone(), c);
    assert_eq!(c.kind.clone(), c.kind);
}
