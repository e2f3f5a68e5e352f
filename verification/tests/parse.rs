//! The parser's tests: tree shapes, trivia placement, errors, and the
//! delimiter helpers.

use scarpet::kind::SyntaxKind;
use scarpet::parse::{Parse, has_open_delimiter, parse_source};

/// The rowan language of Scarpet trees, for walking the green tree.
#[derive(Debug, Clone, Copy, PartialEq, Eq, PartialOrd, Ord, Hash)]
enum Lang {}

impl rowan::Language for Lang {
    type Kind = SyntaxKind;

    fn kind_from_raw(raw: rowan::SyntaxKind) -> SyntaxKind {
        SyntaxKind::from_raw(raw.0).expect("a raw kind the parser emitted")
    }

    fn kind_to_raw(kind: SyntaxKind) -> rowan::SyntaxKind {
        rowan::SyntaxKind(kind.to_raw())
    }
}

type SyntaxNode = rowan::SyntaxNode<Lang>;

/// The red-tree root of a parse.
fn syntax(parse: &Parse) -> SyntaxNode {
    SyntaxNode::new_root(parse.green())
}

/// Parses `src`, asserting success and losslessness, and returns the
/// rowan debug dump of the tree.
fn dump(src: &str) -> String {
    let parse =
        parse_source(src).unwrap_or_else(|e| panic!("{src:?}: parse error: {}", e.message()));
    let syntax = syntax(&parse);
    assert_eq!(syntax.kind(), SyntaxKind::SOURCE_FILE);
    assert_eq!(syntax.text().to_string(), src, "lossless violated");
    format!("{:#?}", syntax)
}

fn check(src: &str, expected: &str) {
    let actual = dump(src);
    assert_eq!(
        actual.trim_end(),
        expected.trim(),
        "tree mismatch for {src:?}\nactual:\n{actual}"
    );
}

fn parse_ok(src: &str) -> SyntaxNode {
    let parse =
        parse_source(src).unwrap_or_else(|e| panic!("{src:?}: parse error: {}", e.message()));
    let syntax = syntax(&parse);
    assert_eq!(syntax.text().to_string(), src, "lossless violated");
    syntax
}

/// The kinds of `node`'s direct children (nodes and tokens), in order.
fn child_kinds(node: &SyntaxNode) -> Vec<SyntaxKind> {
    node.children_with_tokens().map(|e| e.kind()).collect()
}

/// The first descendant node of `kind`, in preorder.
fn first_node(root: &SyntaxNode, kind: SyntaxKind) -> SyntaxNode {
    root.descendants()
        .find(|n| n.kind() == kind)
        .unwrap_or_else(|| panic!("no {kind:?} node in {root:#?}"))
}

#[test]
fn parse_hello_world() {
    check(
        "print('Hello World!')",
        r#"
SOURCE_FILE@0..21
  CALL_EXPR@0..21
    NAME_REF@0..5
      IDENT@0..5 "print"
    ARG_LIST@5..21
      OPEN_PAREN@5..6 "("
      LITERAL@6..20
        STRING@6..20 "'Hello World!'"
      CLOSE_PAREN@20..21 ")"
"#,
    );
}

#[test]
fn parse_arithmetic_precedence() {
    check(
        "2 + 3 * 4",
        r#"
SOURCE_FILE@0..9
  BIN_EXPR@0..9
    LITERAL@0..1
      NUMBER@0..1 "2"
    WHITESPACE@1..2 " "
    PLUS@2..3 "+"
    WHITESPACE@3..4 " "
    BIN_EXPR@4..9
      LITERAL@4..5
        NUMBER@4..5 "3"
      WHITESPACE@5..6 " "
      STAR@6..7 "*"
      WHITESPACE@7..8 " "
      LITERAL@8..9
        NUMBER@8..9 "4"
"#,
    );
}

#[test]
fn parse_additive_left_assoc() {
    check(
        "2 + 3 - 1",
        r#"
SOURCE_FILE@0..9
  BIN_EXPR@0..9
    BIN_EXPR@0..5
      LITERAL@0..1
        NUMBER@0..1 "2"
      WHITESPACE@1..2 " "
      PLUS@2..3 "+"
      WHITESPACE@3..4 " "
      LITERAL@4..5
        NUMBER@4..5 "3"
    WHITESPACE@5..6 " "
    MINUS@6..7 "-"
    WHITESPACE@7..8 " "
    LITERAL@8..9
      NUMBER@8..9 "1"
"#,
    );
}

#[test]
fn parse_power_right_assoc() {
    check(
        "2 ^ 3 ^ 2",
        r#"
SOURCE_FILE@0..9
  BIN_EXPR@0..9
    LITERAL@0..1
      NUMBER@0..1 "2"
    WHITESPACE@1..2 " "
    CARET@2..3 "^"
    WHITESPACE@3..4 " "
    BIN_EXPR@4..9
      LITERAL@4..5
        NUMBER@4..5 "3"
      WHITESPACE@5..6 " "
      CARET@6..7 "^"
      WHITESPACE@7..8 " "
      LITERAL@8..9
        NUMBER@8..9 "2"
"#,
    );
}

#[test]
fn parse_unary_minus_then_get() {
    check(
        "-foo:0",
        r#"
SOURCE_FILE@0..6
  PREFIX_EXPR@0..6
    MINUS@0..1 "-"
    BIN_EXPR@1..6
      NAME_REF@1..4
        IDENT@1..4 "foo"
      COLON@4..5 ":"
      LITERAL@5..6
        NUMBER@5..6 "0"
"#,
    );
}

#[test]
fn parse_match_and_get_chain() {
    check(
        "a:b:c",
        r#"
SOURCE_FILE@0..5
  BIN_EXPR@0..5
    BIN_EXPR@0..3
      NAME_REF@0..1
        IDENT@0..1 "a"
      COLON@1..2 ":"
      NAME_REF@2..3
        IDENT@2..3 "b"
    COLON@3..4 ":"
    NAME_REF@4..5
      IDENT@4..5 "c"
"#,
    );
    check(
        "a~b",
        r#"
SOURCE_FILE@0..3
  BIN_EXPR@0..3
    NAME_REF@0..1
      IDENT@0..1 "a"
    TILDE@1..2 "~"
    NAME_REF@2..3
      IDENT@2..3 "b"
"#,
    );
}

#[test]
fn parse_function_definition() {
    check(
        "foo(a, b) -> a + b",
        r#"
SOURCE_FILE@0..18
  BIN_EXPR@0..18
    CALL_EXPR@0..9
      NAME_REF@0..3
        IDENT@0..3 "foo"
      ARG_LIST@3..9
        OPEN_PAREN@3..4 "("
        NAME_REF@4..5
          IDENT@4..5 "a"
        COMMA@5..6 ","
        WHITESPACE@6..7 " "
        NAME_REF@7..8
          IDENT@7..8 "b"
        CLOSE_PAREN@8..9 ")"
    WHITESPACE@9..10 " "
    ARROW@10..12 "->"
    WHITESPACE@12..13 " "
    BIN_EXPR@13..18
      NAME_REF@13..14
        IDENT@13..14 "a"
      WHITESPACE@14..15 " "
      PLUS@15..16 "+"
      WHITESPACE@16..17 " "
      NAME_REF@17..18
        IDENT@17..18 "b"
"#,
    );
}

#[test]
fn parse_list_and_map_literals() {
    check(
        "[1, 2, 3]",
        r#"
SOURCE_FILE@0..9
  LIST_EXPR@0..9
    OPEN_BRACK@0..1 "["
    LITERAL@1..2
      NUMBER@1..2 "1"
    COMMA@2..3 ","
    WHITESPACE@3..4 " "
    LITERAL@4..5
      NUMBER@4..5 "2"
    COMMA@5..6 ","
    WHITESPACE@6..7 " "
    LITERAL@7..8
      NUMBER@7..8 "3"
    CLOSE_BRACK@8..9 "]"
"#,
    );
    check(
        "{'a' -> 1, 'b' -> 2}",
        r#"
SOURCE_FILE@0..20
  MAP_EXPR@0..20
    OPEN_BRACE@0..1 "{"
    BIN_EXPR@1..9
      LITERAL@1..4
        STRING@1..4 "'a'"
      WHITESPACE@4..5 " "
      ARROW@5..7 "->"
      WHITESPACE@7..8 " "
      LITERAL@8..9
        NUMBER@8..9 "1"
    COMMA@9..10 ","
    WHITESPACE@10..11 " "
    BIN_EXPR@11..19
      LITERAL@11..14
        STRING@11..14 "'b'"
      WHITESPACE@14..15 " "
      ARROW@15..17 "->"
      WHITESPACE@17..18 " "
      LITERAL@18..19
        NUMBER@18..19 "2"
    CLOSE_BRACE@19..20 "}"
"#,
    );
}

#[test]
fn parse_semi_binds_looser_than_arrow_in_map() {
    // `;` (seq_chain) sits outside `->` (arrow_chain), so a map entry
    // `{1+2 ; 'a'->3*4}` groups as `{(1+2) ; ('a'->(3*4))}`. This mirrors
    // Scarpet, where `->` (precedence 2) binds tighter than `;` (1).
    check(
        "{1+2;'a'->3*4}",
        r#"
SOURCE_FILE@0..14
  MAP_EXPR@0..14
    OPEN_BRACE@0..1 "{"
    SEMI_CHAIN@1..13
      BIN_EXPR@1..4
        LITERAL@1..2
          NUMBER@1..2 "1"
        PLUS@2..3 "+"
        LITERAL@3..4
          NUMBER@3..4 "2"
      SEMICOLON@4..5 ";"
      BIN_EXPR@5..13
        LITERAL@5..8
          STRING@5..8 "'a'"
        ARROW@8..10 "->"
        BIN_EXPR@10..13
          LITERAL@10..11
            NUMBER@10..11 "3"
          STAR@11..12 "*"
          LITERAL@12..13
            NUMBER@12..13 "4"
    CLOSE_BRACE@13..14 "}"
"#,
    );
}

#[test]
fn parse_arrow_right_assoc() {
    // `->` is right-associative, so `{f()->g()->h()}` groups as
    // `{f() -> (g() -> h())}`.
    check(
        "{f()->g()->h()}",
        r#"
SOURCE_FILE@0..15
  MAP_EXPR@0..15
    OPEN_BRACE@0..1 "{"
    BIN_EXPR@1..14
      CALL_EXPR@1..4
        NAME_REF@1..2
          IDENT@1..2 "f"
        ARG_LIST@2..4
          OPEN_PAREN@2..3 "("
          CLOSE_PAREN@3..4 ")"
      ARROW@4..6 "->"
      BIN_EXPR@6..14
        CALL_EXPR@6..9
          NAME_REF@6..7
            IDENT@6..7 "g"
          ARG_LIST@7..9
            OPEN_PAREN@7..8 "("
            CLOSE_PAREN@8..9 ")"
        ARROW@9..11 "->"
        CALL_EXPR@11..14
          NAME_REF@11..12
            IDENT@11..12 "h"
          ARG_LIST@12..14
            OPEN_PAREN@12..13 "("
            CLOSE_PAREN@13..14 ")"
    CLOSE_BRACE@14..15 "}"
"#,
    );
}

#[test]
fn parse_assignment_right_assoc() {
    check(
        "a = b = 5",
        r#"
SOURCE_FILE@0..9
  BIN_EXPR@0..9
    NAME_REF@0..1
      IDENT@0..1 "a"
    WHITESPACE@1..2 " "
    EQ@2..3 "="
    WHITESPACE@3..4 " "
    BIN_EXPR@4..9
      NAME_REF@4..5
        IDENT@4..5 "b"
      WHITESPACE@5..6 " "
      EQ@6..7 "="
      WHITESPACE@7..8 " "
      LITERAL@8..9
        NUMBER@8..9 "5"
"#,
    );
}

#[test]
fn parse_semi_and_comma_sequence() {
    // The chain node is n-ary: one SEMI_CHAIN holds all three statements.
    check(
        "a; b; c",
        r#"
SOURCE_FILE@0..7
  SEMI_CHAIN@0..7
    NAME_REF@0..1
      IDENT@0..1 "a"
    SEMICOLON@1..2 ";"
    WHITESPACE@2..3 " "
    NAME_REF@3..4
      IDENT@3..4 "b"
    SEMICOLON@4..5 ";"
    WHITESPACE@5..6 " "
    NAME_REF@6..7
      IDENT@6..7 "c"
"#,
    );
    // `,` binds looser than `;`: the semi chain is an item of the comma
    // chain.
    check(
        "a; b, c",
        r#"
SOURCE_FILE@0..7
  COMMA_CHAIN@0..7
    SEMI_CHAIN@0..4
      NAME_REF@0..1
        IDENT@0..1 "a"
      SEMICOLON@1..2 ";"
      WHITESPACE@2..3 " "
      NAME_REF@3..4
        IDENT@3..4 "b"
    COMMA@4..5 ","
    WHITESPACE@5..6 " "
    NAME_REF@6..7
      IDENT@6..7 "c"
"#,
    );
}

#[test]
fn parse_unpacking_in_call() {
    check(
        "f(...xs)",
        r#"
SOURCE_FILE@0..8
  CALL_EXPR@0..8
    NAME_REF@0..1
      IDENT@0..1 "f"
    ARG_LIST@1..8
      OPEN_PAREN@1..2 "("
      PREFIX_EXPR@2..7
        ELLIPSIS@2..5 "..."
        NAME_REF@5..7
          IDENT@5..7 "xs"
      CLOSE_PAREN@7..8 ")"
"#,
    );
}

#[test]
fn parse_nested_function_call() {
    check(
        "print(format('f » ', 'g hi'))",
        r#"
SOURCE_FILE@0..30
  CALL_EXPR@0..30
    NAME_REF@0..5
      IDENT@0..5 "print"
    ARG_LIST@5..30
      OPEN_PAREN@5..6 "("
      CALL_EXPR@6..29
        NAME_REF@6..12
          IDENT@6..12 "format"
        ARG_LIST@12..29
          OPEN_PAREN@12..13 "("
          LITERAL@13..20
            STRING@13..20 "'f » '"
          COMMA@20..21 ","
          WHITESPACE@21..22 " "
          LITERAL@22..28
            STRING@22..28 "'g hi'"
          CLOSE_PAREN@28..29 ")"
      CLOSE_PAREN@29..30 ")"
"#,
    );
}

#[test]
fn parse_lenient_trailing_semicolon() {
    // The lossless tree keeps a trailing `;` inside a single-item
    // SEMI_CHAIN.
    check(
        "a;",
        r#"
SOURCE_FILE@0..2
  SEMI_CHAIN@0..2
    NAME_REF@0..1
      IDENT@0..1 "a"
    SEMICOLON@1..2 ";"
"#,
    );
    // Without the separator there is no chain wrapper at all.
    check(
        "a",
        r#"
SOURCE_FILE@0..1
  NAME_REF@0..1
    IDENT@0..1 "a"
"#,
    );
}

#[test]
fn parse_anonymous_function_in_call() {
    check(
        "map([1,2,3], _(x) -> x * x)",
        r#"
SOURCE_FILE@0..27
  CALL_EXPR@0..27
    NAME_REF@0..3
      IDENT@0..3 "map"
    ARG_LIST@3..27
      OPEN_PAREN@3..4 "("
      LIST_EXPR@4..11
        OPEN_BRACK@4..5 "["
        LITERAL@5..6
          NUMBER@5..6 "1"
        COMMA@6..7 ","
        LITERAL@7..8
          NUMBER@7..8 "2"
        COMMA@8..9 ","
        LITERAL@9..10
          NUMBER@9..10 "3"
        CLOSE_BRACK@10..11 "]"
      COMMA@11..12 ","
      WHITESPACE@12..13 " "
      BIN_EXPR@13..26
        CALL_EXPR@13..17
          NAME_REF@13..14
            IDENT@13..14 "_"
          ARG_LIST@14..17
            OPEN_PAREN@14..15 "("
            NAME_REF@15..16
              IDENT@15..16 "x"
            CLOSE_PAREN@16..17 ")"
        WHITESPACE@17..18 " "
        ARROW@18..20 "->"
        WHITESPACE@20..21 " "
        BIN_EXPR@21..26
          NAME_REF@21..22
            IDENT@21..22 "x"
          WHITESPACE@22..23 " "
          STAR@23..24 "*"
          WHITESPACE@24..25 " "
          NAME_REF@25..26
            IDENT@25..26 "x"
      CLOSE_PAREN@26..27 ")"
"#,
    );
}

#[test]
fn parse_full_source_from_compdisplay() {
    check(
        "toggle() -> (\n    print(player(), 'hi');\n);",
        r#"
SOURCE_FILE@0..43
  SEMI_CHAIN@0..43
    BIN_EXPR@0..42
      CALL_EXPR@0..8
        NAME_REF@0..6
          IDENT@0..6 "toggle"
        ARG_LIST@6..8
          OPEN_PAREN@6..7 "("
          CLOSE_PAREN@7..8 ")"
      WHITESPACE@8..9 " "
      ARROW@9..11 "->"
      WHITESPACE@11..12 " "
      PAREN_EXPR@12..42
        OPEN_PAREN@12..13 "("
        NEWLINE@13..14 "\n"
        WHITESPACE@14..18 "    "
        SEMI_CHAIN@18..41
          CALL_EXPR@18..39
            NAME_REF@18..23
              IDENT@18..23 "print"
            ARG_LIST@23..39
              OPEN_PAREN@23..24 "("
              CALL_EXPR@24..32
                NAME_REF@24..30
                  IDENT@24..30 "player"
                ARG_LIST@30..32
                  OPEN_PAREN@30..31 "("
                  CLOSE_PAREN@31..32 ")"
              COMMA@32..33 ","
              WHITESPACE@33..34 " "
              LITERAL@34..38
                STRING@34..38 "'hi'"
              CLOSE_PAREN@38..39 ")"
          SEMICOLON@39..40 ";"
          NEWLINE@40..41 "\n"
        CLOSE_PAREN@41..42 ")"
    SEMICOLON@42..43 ";"
"#,
    );
}

#[test]
fn chain_and_empty_arg_mapping() {
    // Trailing `,` at top level: single-item COMMA_CHAIN keeps the token.
    check(
        "a,",
        r#"
SOURCE_FILE@0..2
  COMMA_CHAIN@0..2
    NAME_REF@0..1
      IDENT@0..1 "a"
    COMMA@1..2 ","
"#,
    );
    // A lenient `;;` run stays inside one SEMI_CHAIN.
    check(
        "a;;b",
        r#"
SOURCE_FILE@0..4
  SEMI_CHAIN@0..4
    NAME_REF@0..1
      IDENT@0..1 "a"
    SEMICOLON@1..2 ";"
    SEMICOLON@2..3 ";"
    NAME_REF@3..4
      IDENT@3..4 "b"
"#,
    );
    // Omitted slots get zero-width EMPTY_ARG nodes...
    check(
        "f(a,,b)",
        r#"
SOURCE_FILE@0..7
  CALL_EXPR@0..7
    NAME_REF@0..1
      IDENT@0..1 "f"
    ARG_LIST@1..7
      OPEN_PAREN@1..2 "("
      NAME_REF@2..3
        IDENT@2..3 "a"
      COMMA@3..4 ","
      EMPTY_ARG@4..4
      COMMA@4..5 ","
      NAME_REF@5..6
        IDENT@5..6 "b"
      CLOSE_PAREN@6..7 ")"
"#,
    );
    check(
        "f(,a)",
        r#"
SOURCE_FILE@0..5
  CALL_EXPR@0..5
    NAME_REF@0..1
      IDENT@0..1 "f"
    ARG_LIST@1..5
      OPEN_PAREN@1..2 "("
      EMPTY_ARG@2..2
      COMMA@2..3 ","
      NAME_REF@3..4
        IDENT@3..4 "a"
      CLOSE_PAREN@4..5 ")"
"#,
    );
    // ...but a trailing comma and an empty list do not.
    check(
        "f(a,)",
        r#"
SOURCE_FILE@0..5
  CALL_EXPR@0..5
    NAME_REF@0..1
      IDENT@0..1 "f"
    ARG_LIST@1..5
      OPEN_PAREN@1..2 "("
      NAME_REF@2..3
        IDENT@2..3 "a"
      COMMA@3..4 ","
      CLOSE_PAREN@4..5 ")"
"#,
    );
    check(
        "f()",
        r#"
SOURCE_FILE@0..3
  CALL_EXPR@0..3
    NAME_REF@0..1
      IDENT@0..1 "f"
    ARG_LIST@1..3
      OPEN_PAREN@1..2 "("
      CLOSE_PAREN@2..3 ")"
"#,
    );
}

#[test]
fn call_tolerates_trivia_between_name_and_args() {
    // Trivia between tokens is consumed uniformly, so an identifier
    // reaches its `(` across spaces and line breaks.
    for src in ["f (x)", "f\n(x)", "f // call\n (x)"] {
        let root = parse_ok(src);
        let call = first_node(&root, SyntaxKind::CALL_EXPR);
        assert_eq!(
            call.text().to_string(),
            src,
            "whole input should be one call"
        );
    }
}

#[test]
fn parse_comments_attach_as_leading_trivia() {
    // Leading trivia precedes the expression inside SOURCE_FILE (no node
    // starts with trivia); the trailing break stays on the root.
    let root = parse_ok("// hello\n  a + b\n");
    assert_eq!(
        child_kinds(&root),
        [
            SyntaxKind::COMMENT,
            SyntaxKind::NEWLINE,
            SyntaxKind::WHITESPACE,
            SyntaxKind::BIN_EXPR,
            SyntaxKind::NEWLINE,
        ]
    );
    let bin = first_node(&root, SyntaxKind::BIN_EXPR);
    assert_eq!(
        child_kinds(&bin),
        [
            SyntaxKind::NAME_REF,
            SyntaxKind::WHITESPACE,
            SyntaxKind::PLUS,
            SyntaxKind::WHITESPACE,
            SyntaxKind::NAME_REF,
        ]
    );
}

#[test]
fn parse_break_inside_call_args_attaches_to_next_arg() {
    let root = parse_ok("f(a,\n b)");
    let args = first_node(&root, SyntaxKind::ARG_LIST);
    assert_eq!(
        child_kinds(&args),
        [
            SyntaxKind::OPEN_PAREN,
            SyntaxKind::NAME_REF,
            SyntaxKind::COMMA,
            SyntaxKind::NEWLINE,
            SyntaxKind::WHITESPACE,
            SyntaxKind::NAME_REF,
            SyntaxKind::CLOSE_PAREN,
        ]
    );
}

#[test]
fn parse_comment_between_operator_and_rhs_attaches_to_rhs() {
    // The comment sits inside the BIN_EXPR, between the operator token
    // and the rhs operand node.
    let root = parse_ok("a + // mid\n b");
    let bin = first_node(&root, SyntaxKind::BIN_EXPR);
    assert_eq!(
        child_kinds(&bin),
        [
            SyntaxKind::NAME_REF,
            SyntaxKind::WHITESPACE,
            SyntaxKind::PLUS,
            SyntaxKind::WHITESPACE,
            SyntaxKind::COMMENT,
            SyntaxKind::NEWLINE,
            SyntaxKind::WHITESPACE,
            SyntaxKind::NAME_REF,
        ]
    );
}

#[test]
fn parse_semicolon_trivia_flows_to_next_statement() {
    // Inter-statement trivia sits inside the SEMI_CHAIN, between the `;`
    // and the next item.
    let root = parse_ok("a;\n// note\n b");
    let chain = first_node(&root, SyntaxKind::SEMI_CHAIN);
    assert_eq!(
        child_kinds(&chain),
        [
            SyntaxKind::NAME_REF,
            SyntaxKind::SEMICOLON,
            SyntaxKind::NEWLINE,
            SyntaxKind::COMMENT,
            SyntaxKind::NEWLINE,
            SyntaxKind::WHITESPACE,
            SyntaxKind::NAME_REF,
        ]
    );
}

#[test]
fn parse_trailing_comment_anchored_on_root() {
    // No operator/separator follows `a`, so the pending trivia flows up
    // and lands directly in SOURCE_FILE.
    let root = parse_ok("a\n// trailing");
    assert_eq!(
        child_kinds(&root),
        [
            SyntaxKind::NAME_REF,
            SyntaxKind::NEWLINE,
            SyntaxKind::COMMENT,
        ]
    );
}

#[test]
fn parse_comment_inside_empty_parens_becomes_phantom_empty() {
    // In the lossless tree the comment is just a trivia token inside the
    // (otherwise empty) ARG_LIST — no EMPTY_ARG.
    let root = parse_ok("f(// note\n)");
    let args = first_node(&root, SyntaxKind::ARG_LIST);
    assert_eq!(
        child_kinds(&args),
        [
            SyntaxKind::OPEN_PAREN,
            SyntaxKind::COMMENT,
            SyntaxKind::NEWLINE,
            SyntaxKind::CLOSE_PAREN,
        ]
    );
}

#[test]
fn parse_comment_attaches_to_omitted_empty_arg() {
    // `f(a, , b)` synthesises an EMPTY_ARG between the commas; the
    // comment in that slot sits next to it inside the ARG_LIST.
    let root = parse_ok("f(a, // gap\n , b)");
    let args = first_node(&root, SyntaxKind::ARG_LIST);
    assert_eq!(
        child_kinds(&args),
        [
            SyntaxKind::OPEN_PAREN,
            SyntaxKind::NAME_REF,
            SyntaxKind::COMMA,
            SyntaxKind::WHITESPACE,
            SyntaxKind::COMMENT,
            SyntaxKind::NEWLINE,
            SyntaxKind::WHITESPACE,
            SyntaxKind::EMPTY_ARG,
            SyntaxKind::COMMA,
            SyntaxKind::WHITESPACE,
            SyntaxKind::NAME_REF,
            SyntaxKind::CLOSE_PAREN,
        ]
    );
    // The EMPTY_ARG itself is zero-width.
    let empty = first_node(&root, SyntaxKind::EMPTY_ARG);
    assert_eq!(empty.text().to_string(), "");
}

#[test]
fn parse_comment_after_last_arg_in_call_attaches_back() {
    // No comma follows `a`; the trailing trivia stays inside the
    // ARG_LIST, before the closer.
    let root = parse_ok("f(a // tail\n)");
    let args = first_node(&root, SyntaxKind::ARG_LIST);
    assert_eq!(
        child_kinds(&args),
        [
            SyntaxKind::OPEN_PAREN,
            SyntaxKind::NAME_REF,
            SyntaxKind::WHITESPACE,
            SyntaxKind::COMMENT,
            SyntaxKind::NEWLINE,
            SyntaxKind::CLOSE_PAREN,
        ]
    );
}

#[test]
fn parse_comment_around_trailing_comma_in_list_flushes_onto_last() {
    // The trailing-comma branch keeps both trivia bands (pre- and
    // post-comma) inside the LIST_EXPR rather than dropping them.
    let root = parse_ok("[1, // tail\n]");
    let list = first_node(&root, SyntaxKind::LIST_EXPR);
    assert_eq!(
        child_kinds(&list),
        [
            SyntaxKind::OPEN_BRACK,
            SyntaxKind::LITERAL,
            SyntaxKind::COMMA,
            SyntaxKind::WHITESPACE,
            SyntaxKind::COMMENT,
            SyntaxKind::NEWLINE,
            SyntaxKind::CLOSE_BRACK,
        ]
    );
}

#[test]
fn parse_comment_inside_paren_attaches_to_inner_first_token() {
    // Trivia immediately after `(` is flushed into the PAREN_EXPR before
    // the inner expression starts (which therefore owns no leading
    // trivia).
    let root = parse_ok("(// note\n a + b)");
    let paren = first_node(&root, SyntaxKind::PAREN_EXPR);
    assert_eq!(
        child_kinds(&paren),
        [
            SyntaxKind::OPEN_PAREN,
            SyntaxKind::COMMENT,
            SyntaxKind::NEWLINE,
            SyntaxKind::WHITESPACE,
            SyntaxKind::BIN_EXPR,
            SyntaxKind::CLOSE_PAREN,
        ]
    );
    let bin = first_node(&root, SyntaxKind::BIN_EXPR);
    assert_eq!(
        child_kinds(&bin),
        [
            SyntaxKind::NAME_REF,
            SyntaxKind::WHITESPACE,
            SyntaxKind::PLUS,
            SyntaxKind::WHITESPACE,
            SyntaxKind::NAME_REF,
        ]
    );
}

#[test]
fn comment_after_trailing_separator_stays_in_chain() {
    // Trivia after a trailing `;` stays inside the chain node, not in the
    // enclosing PAREN_EXPR.
    let root = parse_ok("(a; // tail\n)");
    let chain = first_node(&root, SyntaxKind::SEMI_CHAIN);
    assert_eq!(
        child_kinds(&chain),
        [
            SyntaxKind::NAME_REF,
            SyntaxKind::SEMICOLON,
            SyntaxKind::WHITESPACE,
            SyntaxKind::COMMENT,
            SyntaxKind::NEWLINE,
        ]
    );
    // Same for a trailing `,` at the end of input.
    let root = parse_ok("a, // tail");
    let chain = first_node(&root, SyntaxKind::COMMA_CHAIN);
    assert_eq!(
        child_kinds(&chain),
        [
            SyntaxKind::NAME_REF,
            SyntaxKind::COMMA,
            SyntaxKind::WHITESPACE,
            SyntaxKind::COMMENT,
        ]
    );
}

#[test]
fn parse_comment_between_unary_prefix_and_operand() {
    // Trivia between the prefix operator and its operand sits inside the
    // PREFIX_EXPR, before the operand node.
    let root = parse_ok("! // note\n x");
    let prefix = first_node(&root, SyntaxKind::PREFIX_EXPR);
    assert_eq!(
        child_kinds(&prefix),
        [
            SyntaxKind::BANG,
            SyntaxKind::WHITESPACE,
            SyntaxKind::COMMENT,
            SyntaxKind::NEWLINE,
            SyntaxKind::WHITESPACE,
            SyntaxKind::NAME_REF,
        ]
    );
}

/// Where an operand is due but input ends, the message names the missing
/// `expression` and reports EOF — not a bare "unexpected token".
#[test]
fn parse_error_expected_expression_at_eof() {
    let e = parse_source("1 +").unwrap_err();
    assert_eq!(e.found, None);
    assert_eq!(e.expected, ["expression"]);
    assert_eq!(e.message(), "expected expression, found end of input");
}

/// An EOF error carets the empty range `len..len` with no `found` token,
/// including on empty input, at offset zero.
#[test]
fn error_eof_span_is_len_to_len() {
    let src = "1 +";
    let e = parse_source(src).unwrap_err();
    assert_eq!(e.span, src.len()..src.len());
    assert_eq!(e.found, None);
    assert_eq!(e.expected, ["expression"]);
    let e = parse_source("").unwrap_err();
    assert_eq!(e.span, 0..0);
    assert_eq!(e.found, None);
    assert_eq!(e.expected, ["expression"]);
}

/// The `found` span covers exactly the offending token, not the leading
/// whitespace before it.
#[test]
fn parse_error_found_span_is_the_token() {
    let src = "[0, 1 2]";
    let e = parse_source(src).unwrap_err();
    assert_eq!(&src[e.span.clone()], "2");
    assert_eq!(e.found.as_deref(), Some("2"));
    assert_eq!(e.message(), "expected an operator or `]`, found `2`");
}

/// A bare identifier could have been a call, so `(` joins the expected
/// set of an error right after it: the argument-list attempt records the
/// label.
#[test]
fn error_after_identifier_offers_the_call_opener() {
    let e = parse_source("a.b").unwrap_err();
    assert_eq!(
        e.message(),
        "expected one of `(`, an operator, or end of input, found `.`"
    );
}

/// The ~20 infix/prefix operators collapse to one `an operator` rather than
/// being spelled out across the whole precedence ladder.
#[test]
fn parse_error_operator_ladder_collapses() {
    let e = parse_source("[0 1]").unwrap_err();
    assert!(e.message().contains("an operator"), "{}", e.message());
    assert!(!e.message().contains("`*`"), "{}", e.message());
}

/// Exactly two expectations join with `or` (no `one of`).
#[test]
fn parse_error_two_expectations_join_with_or() {
    let e = parse_source("1 2").unwrap_err();
    assert_eq!(
        e.message(),
        "expected an operator or end of input, found `2`"
    );
}

/// Every parse failure yields a non-empty, specific message.
#[test]
fn parse_error_message_is_never_empty() {
    for src in ["", "1 +", "[)", "1 2", "{", "((", "f(,,", ")"] {
        if let Err(e) = parse_source(src) {
            assert!(!e.message().is_empty(), "empty message for {src:?}");
        }
    }
}

/// A wrong closer is flagged structurally: the caret sits on the closer and
/// a secondary label points back at the still-open opener.
#[test]
fn parse_error_mismatched_delimiter() {
    let src = "[)";
    let e = parse_source(src).unwrap_err();
    assert_eq!(e.message(), "mismatched closing delimiter");
    assert_eq!(&src[e.span.clone()], ")");
    let (opener, label) = e.secondary.clone().expect("opener label");
    assert_eq!(&src[opener], "[");
    assert_eq!(label, "unclosed `[`");
}

/// An opener that never closes points the caret at the opener itself.
#[test]
fn parse_error_unclosed_delimiter() {
    let src = "foo(a";
    let e = parse_source(src).unwrap_err();
    assert_eq!(e.message(), "unclosed delimiter");
    assert_eq!(&src[e.span.clone()], "(");
}

/// A closer with no opener is its own kind of error.
#[test]
fn parse_error_unmatched_closing_delimiter() {
    let e = parse_source("1)").unwrap_err();
    assert_eq!(e.message(), "unmatched closing delimiter");
    assert_eq!(e.found.as_deref(), Some(")"));
}

/// A string's contents never count as delimiters.
#[test]
fn parse_delimiters_inside_strings_are_ignored() {
    assert!(parse_source("print('(')").is_ok());
}

/// `has_open_delimiter` is true only while an opener is still waiting for
/// its closer — the REPL's signal to keep a multi-line submission open.
#[test]
fn parse_has_open_delimiter_tracks_unclosed_openers() {
    // Still open: an opener with no matching closer yet.
    assert!(has_open_delimiter("foo("));
    assert!(has_open_delimiter("[1, 2,"));
    assert!(has_open_delimiter("foo() -> ("));
    assert!(has_open_delimiter("({["));
    // Balanced: nothing is waiting to close.
    assert!(!has_open_delimiter("foo()"));
    assert!(!has_open_delimiter("(a + b) * [c]"));
    assert!(!has_open_delimiter("a = 5"));
    // A surplus or mismatched closer is an error, not "open" — so it is not
    // held for more input; the parser reports it instead.
    assert!(!has_open_delimiter("a)"));
    assert!(!has_open_delimiter("(a]"));
    // Delimiters inside strings and comments never count.
    assert!(!has_open_delimiter("print('(')"));
    assert!(!has_open_delimiter("foo() // (open"));
    // But an opener before the comment still counts as open.
    assert!(has_open_delimiter("foo( // a comment"));
}

/// Two adjacent elements with no separator suggest the dropped comma.
#[test]
fn parse_error_missing_comma_help() {
    let e = parse_source("[1 2]").unwrap_err();
    assert_eq!(e.help.as_deref(), Some("missing `,`"));
}

/// Deeply nested input parses instead of overflowing the native stack:
/// every recursion cycle of the grammar passes a `with_stack` guard that
/// grows the stack on demand. Exercises all four cycles — brackets (via `primary` /
/// `delimited`), the assign family, `^`, and prefix operators.
#[test]
fn deep_nesting_does_not_overflow_the_stack() {
    // The interspersed trivia keeps every node above rowan's small-node
    // interning threshold (nodes with <= 3 children are hashed
    // recursively by its node cache, which would make this test
    // quadratic). Unguarded, a debug build aborts at ~10k bracket depth.
    let depth = 50_000;
    for src in [
        format!("{}a{}", "( ".repeat(depth), " )".repeat(depth)),
        format!("{}a{}", "[ ".repeat(depth), " ]".repeat(depth)),
        format!("{}1", "a = \n".repeat(depth)),
        format!("{}1", "2 ^ \n".repeat(depth)),
        format!("{}x", "- \n".repeat(depth)),
    ] {
        let parse = parse_source(&src)
            .unwrap_or_else(|e| panic!("deep input failed to parse: {}", e.message()));
        assert_eq!(syntax(&parse).text().to_string(), src, "lossless violated");
        // *Dropping* a green tree this deep overflows the stack too —
        // rowan's recursive drop is the tree's own depth limit,
        // independent of how it was built. Leak it so this test pins
        // only the parser's depth tolerance.
        std::mem::forget(parse);
    }
}

/// An input still waiting for a closer never parses.
#[test]
fn open_delimiter_input_does_not_parse() {
    for src in ["foo(", "[1, 2,", "foo() -> (", "({[", "(]("] {
        assert!(has_open_delimiter(src), "{src:?} reads as open");
        assert!(parse_source(src).is_err(), "{src:?} parses");
    }
}

/// A lex error mid-expression keeps its precise span in the new pipeline;
/// the old one folds the preceding whitespace in.
#[test]
fn error_lex_error_keeps_precise_span() {
    let src = "a & b";
    let e = parse_source(src).unwrap_err();
    assert_eq!(e.span, 2..3);
    assert_eq!(e.found.as_deref(), Some("&"));
    assert_eq!(
        e.message(),
        "expected one of `(`, an operator, or end of input, found `&`"
    );
    let old = scarpet::parser::parse_source(src).err().expect("old parser rejects");
    assert_eq!(old.span, 1..3);
    assert_eq!(old.found.as_deref(), Some(" &"));
    assert_eq!(e.expected, old.expected);
}

fn assert_error_parity(src: &str) {
    let old = match scarpet::parser::parse_source(src) {
        Ok(_) => panic!("old parser accepted input {src:?}"),
        Err(e) => e,
    };
    let new = match parse_source(src) {
        Ok(_) => panic!("new parser accepted input {src:?}"),
        Err(e) => e,
    };
    assert_eq!(new.span, old.span, "span for {src:?}");
    assert_eq!(new.expected, old.expected, "expected labels for {src:?}");
    assert_eq!(new.found, old.found, "found for {src:?}");
    assert_eq!(new.headline, old.headline, "headline for {src:?}");
    assert_eq!(new.secondary, old.secondary, "secondary for {src:?}");
    assert_eq!(new.help, old.help, "help for {src:?}");
    assert_eq!(new.message(), old.message(), "message for {src:?}");
    assert_eq!(new.caret_label(), old.caret_label(), "caret label for {src:?}");
}

/// Broken input errors identically through both pipelines.
#[test]
fn error_parity_with_old_parser() {
    assert_error_parity("[)");
    assert_error_parity("foo(a");
    assert_error_parity("1)");
    assert_error_parity("");
    assert_error_parity("1 +");
    assert_error_parity("x = ;");
    assert_error_parity("[1 2]");
    assert_error_parity("f(a b)");
    assert_error_parity("{1 2}");
    assert_error_parity("1 2");
    assert_error_parity("a.b");
    assert_error_parity("a ~ ~ b");
    assert_error_parity("f(;)");
    assert_error_parity("&");
}
