//! Operator classification of token kinds.

use scarpet::kind::SyntaxKind;
use scarpet::ops::{BinOpKind, PrefixOpKind, is_atom};

#[test]
fn bin_op_from_token_rejects_non_operators() {
    for kind in [
        SyntaxKind::COMMA,
        SyntaxKind::SEMICOLON,
        SyntaxKind::BANG,
        SyntaxKind::ELLIPSIS,
        SyntaxKind::DOT,
        SyntaxKind::NUMBER,
        SyntaxKind::WHITESPACE,
        SyntaxKind::BIN_EXPR,
    ] {
        assert_eq!(BinOpKind::from_token(kind), None, "{kind:?}");
    }
}

#[test]
fn prefix_op_from_token_rejects_non_operators() {
    for kind in [
        SyntaxKind::STAR,
        SyntaxKind::TILDE,
        SyntaxKind::NUMBER,
        SyntaxKind::PREFIX_EXPR,
    ] {
        assert_eq!(PrefixOpKind::from_token(kind), None, "{kind:?}");
    }
}

#[test]
fn bin_op_from_token_over_every_operator() {
    let cases = [
        (SyntaxKind::PLUS, BinOpKind::Add),
        (SyntaxKind::MINUS, BinOpKind::Sub),
        (SyntaxKind::STAR, BinOpKind::Mul),
        (SyntaxKind::SLASH, BinOpKind::Div),
        (SyntaxKind::PERCENT, BinOpKind::Rem),
        (SyntaxKind::CARET, BinOpKind::Pow),
        (SyntaxKind::EQ_EQ, BinOpKind::Eq),
        (SyntaxKind::BANG_EQ, BinOpKind::NotEq),
        (SyntaxKind::LT, BinOpKind::Lt),
        (SyntaxKind::LT_EQ, BinOpKind::LtEq),
        (SyntaxKind::GT, BinOpKind::Gt),
        (SyntaxKind::GT_EQ, BinOpKind::GtEq),
        (SyntaxKind::AND_AND, BinOpKind::And),
        (SyntaxKind::OR_OR, BinOpKind::Or),
        (SyntaxKind::TILDE, BinOpKind::Match),
        (SyntaxKind::COLON, BinOpKind::Get),
        (SyntaxKind::EQ, BinOpKind::Assign),
        (SyntaxKind::PLUS_EQ, BinOpKind::AddAssign),
        (SyntaxKind::SWAP, BinOpKind::Swap),
        (SyntaxKind::ARROW, BinOpKind::Arrow),
    ];
    for (kind, expected) in cases {
        assert_eq!(BinOpKind::from_token(kind), Some(expected), "{kind:?}");
    }
}

#[test]
fn prefix_op_from_token_over_every_operator() {
    let cases = [
        (SyntaxKind::MINUS, PrefixOpKind::Neg),
        (SyntaxKind::PLUS, PrefixOpKind::Pos),
        (SyntaxKind::BANG, PrefixOpKind::Not),
        (SyntaxKind::ELLIPSIS, PrefixOpKind::Unpack),
    ];
    for (kind, expected) in cases {
        assert_eq!(PrefixOpKind::from_token(kind), Some(expected), "{kind:?}");
    }
}

#[test]
fn is_atom_truth_table() {
    for kind in [SyntaxKind::LITERAL, SyntaxKind::NAME_REF, SyntaxKind::EMPTY_ARG] {
        assert!(is_atom(kind), "{kind:?} should be an atom");
    }
    for kind in [
        SyntaxKind::SOURCE_FILE,
        SyntaxKind::BIN_EXPR,
        SyntaxKind::CALL_EXPR,
        SyntaxKind::PAREN_EXPR,
        SyntaxKind::ERROR,
    ] {
        assert!(!is_atom(kind), "{kind:?} should not be an atom");
    }
}
