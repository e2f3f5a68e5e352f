//! The operators of the syntax tree: which token kinds are binary and which
//! are prefix operators; and which node kinds are atoms.

use vstd::prelude::*;

use crate::kind::SyntaxKind;

verus! {

/// The operator of a `BIN_EXPR`: every infix operator except the chain
/// separators `,` and `;`, which form their own n-ary nodes.
#[derive(Debug, Clone, Copy, PartialEq, Eq, Structural)]
pub enum BinOpKind {
    /// `+`
    Add,
    /// `-`
    Sub,
    /// `*`
    Mul,
    /// `/`
    Div,
    /// `%`
    Rem,
    /// `^`
    Pow,
    /// `==`
    Eq,
    /// `!=`
    NotEq,
    /// `<`
    Lt,
    /// `<=`
    LtEq,
    /// `>`
    Gt,
    /// `>=`
    GtEq,
    /// `&&`
    And,
    /// `||`
    Or,
    /// `~`
    Match,
    /// `:`
    Get,
    /// `=`
    Assign,
    /// `+=`
    AddAssign,
    /// `<>`
    Swap,
    /// `->`
    Arrow,
}

/// The binary operator a token kind denotes, if any.
pub open spec fn bin_op_of(kind: SyntaxKind) -> Option<BinOpKind> {
    match kind {
        SyntaxKind::PLUS => Some(BinOpKind::Add),
        SyntaxKind::MINUS => Some(BinOpKind::Sub),
        SyntaxKind::STAR => Some(BinOpKind::Mul),
        SyntaxKind::SLASH => Some(BinOpKind::Div),
        SyntaxKind::PERCENT => Some(BinOpKind::Rem),
        SyntaxKind::CARET => Some(BinOpKind::Pow),
        SyntaxKind::EQ_EQ => Some(BinOpKind::Eq),
        SyntaxKind::BANG_EQ => Some(BinOpKind::NotEq),
        SyntaxKind::LT => Some(BinOpKind::Lt),
        SyntaxKind::LT_EQ => Some(BinOpKind::LtEq),
        SyntaxKind::GT => Some(BinOpKind::Gt),
        SyntaxKind::GT_EQ => Some(BinOpKind::GtEq),
        SyntaxKind::AND_AND => Some(BinOpKind::And),
        SyntaxKind::OR_OR => Some(BinOpKind::Or),
        SyntaxKind::TILDE => Some(BinOpKind::Match),
        SyntaxKind::COLON => Some(BinOpKind::Get),
        SyntaxKind::EQ => Some(BinOpKind::Assign),
        SyntaxKind::PLUS_EQ => Some(BinOpKind::AddAssign),
        SyntaxKind::SWAP => Some(BinOpKind::Swap),
        SyntaxKind::ARROW => Some(BinOpKind::Arrow),
        _ => None,
    }
}

impl BinOpKind {
    /// Classifies a token kind as a binary operator, or `None` if the kind
    /// is not one.
    pub fn from_token(kind: SyntaxKind) -> (r: Option<BinOpKind>)
        ensures
            r == bin_op_of(kind),
    {
        match kind {
            SyntaxKind::PLUS => Some(BinOpKind::Add),
            SyntaxKind::MINUS => Some(BinOpKind::Sub),
            SyntaxKind::STAR => Some(BinOpKind::Mul),
            SyntaxKind::SLASH => Some(BinOpKind::Div),
            SyntaxKind::PERCENT => Some(BinOpKind::Rem),
            SyntaxKind::CARET => Some(BinOpKind::Pow),
            SyntaxKind::EQ_EQ => Some(BinOpKind::Eq),
            SyntaxKind::BANG_EQ => Some(BinOpKind::NotEq),
            SyntaxKind::LT => Some(BinOpKind::Lt),
            SyntaxKind::LT_EQ => Some(BinOpKind::LtEq),
            SyntaxKind::GT => Some(BinOpKind::Gt),
            SyntaxKind::GT_EQ => Some(BinOpKind::GtEq),
            SyntaxKind::AND_AND => Some(BinOpKind::And),
            SyntaxKind::OR_OR => Some(BinOpKind::Or),
            SyntaxKind::TILDE => Some(BinOpKind::Match),
            SyntaxKind::COLON => Some(BinOpKind::Get),
            SyntaxKind::EQ => Some(BinOpKind::Assign),
            SyntaxKind::PLUS_EQ => Some(BinOpKind::AddAssign),
            SyntaxKind::SWAP => Some(BinOpKind::Swap),
            SyntaxKind::ARROW => Some(BinOpKind::Arrow),
            _ => None,
        }
    }
}

/// The operator of a `PREFIX_EXPR`.
#[derive(Debug, Clone, Copy, PartialEq, Eq, Structural)]
pub enum PrefixOpKind {
    /// `-`
    Neg,
    /// `+`
    Pos,
    /// `!`
    Not,
    /// `...`
    Unpack,
}

/// The prefix operator a token kind denotes, if any.
pub open spec fn prefix_op_of(kind: SyntaxKind) -> Option<PrefixOpKind> {
    match kind {
        SyntaxKind::MINUS => Some(PrefixOpKind::Neg),
        SyntaxKind::PLUS => Some(PrefixOpKind::Pos),
        SyntaxKind::BANG => Some(PrefixOpKind::Not),
        SyntaxKind::ELLIPSIS => Some(PrefixOpKind::Unpack),
        _ => None,
    }
}

impl PrefixOpKind {
    /// Classifies a token kind as a prefix operator, or `None` if the kind
    /// is not one.
    pub fn from_token(kind: SyntaxKind) -> (r: Option<PrefixOpKind>)
        ensures
            r == prefix_op_of(kind),
    {
        match kind {
            SyntaxKind::MINUS => Some(PrefixOpKind::Neg),
            SyntaxKind::PLUS => Some(PrefixOpKind::Pos),
            SyntaxKind::BANG => Some(PrefixOpKind::Not),
            SyntaxKind::ELLIPSIS => Some(PrefixOpKind::Unpack),
            _ => None,
        }
    }
}

/// The prefix operators are exactly the tokens the grammar accepts in
/// prefix position.
pub proof fn lemma_prefix_ops_are_the_grammar_prefixes(kind: SyntaxKind)
    ensures
        prefix_op_of(kind) is Some <==> crate::grammar::is_prefix_op(kind),
{
}

/// Every operator of a binary level of the grammar is a binary operator.
pub proof fn lemma_level_ops_are_binary(lvl: int, kind: SyntaxKind)
    requires
        crate::grammar::is_level_op(lvl, kind),
    ensures
        bin_op_of(kind) is Some,
{
}

/// Whether a node of kind `kind` is an atom: a leaf-like expression with no
/// sub-expressions (`LITERAL`, `NAME_REF` or `EMPTY_ARG`).
pub open spec fn spec_is_atom(kind: SyntaxKind) -> bool {
    kind == SyntaxKind::LITERAL || kind == SyntaxKind::NAME_REF || kind == SyntaxKind::EMPTY_ARG
}

/// Whether a node of kind `kind` is an atom: a leaf-like expression with no
/// sub-expressions (`LITERAL`, `NAME_REF` or `EMPTY_ARG`).
pub fn is_atom(kind: SyntaxKind) -> (b: bool)
    ensures
        b == spec_is_atom(kind),
{
    match kind {
        SyntaxKind::LITERAL | SyntaxKind::NAME_REF | SyntaxKind::EMPTY_ARG => true,
        _ => false,
    }
}

/// The text of a binary operator's token, as bytes.
pub open spec fn bin_op_text(op: BinOpKind) -> Seq<u8> {
    match op {
        BinOpKind::Add => seq![0x2bu8],  // +
        BinOpKind::Sub => seq![0x2du8],  // -
        BinOpKind::Mul => seq![0x2au8],  // *
        BinOpKind::Div => seq![0x2fu8],  // /
        BinOpKind::Rem => seq![0x25u8],  // %
        BinOpKind::Pow => seq![0x5eu8],  // ^
        BinOpKind::Eq => seq![0x3du8, 0x3du8],  // ==
        BinOpKind::NotEq => seq![0x21u8, 0x3du8],  // !=
        BinOpKind::Lt => seq![0x3cu8],  // <
        BinOpKind::LtEq => seq![0x3cu8, 0x3du8],  // <=
        BinOpKind::Gt => seq![0x3eu8],  // >
        BinOpKind::GtEq => seq![0x3eu8, 0x3du8],  // >=
        BinOpKind::And => seq![0x26u8, 0x26u8],  // &&
        BinOpKind::Or => seq![0x7cu8, 0x7cu8],  // ||
        BinOpKind::Match => seq![0x7eu8],  // ~
        BinOpKind::Get => seq![0x3au8],  // :
        BinOpKind::Assign => seq![0x3du8],  // =
        BinOpKind::AddAssign => seq![0x2bu8, 0x3du8],  // +=
        BinOpKind::Swap => seq![0x3cu8, 0x3eu8],  // <>
        BinOpKind::Arrow => seq![0x2du8, 0x3eu8],  // ->
    }
}

/// The text of a prefix operator's token, as bytes.
pub open spec fn prefix_op_text(op: PrefixOpKind) -> Seq<u8> {
    match op {
        PrefixOpKind::Neg => seq![0x2du8],  // -
        PrefixOpKind::Pos => seq![0x2bu8],  // +
        PrefixOpKind::Not => seq![0x21u8],  // !
        PrefixOpKind::Unpack => seq![0x2eu8, 0x2eu8, 0x2eu8],  // ...
    }
}

/// A token is classified as the binary operator its text spells, and only
/// as that one: a kind classifies as `o` exactly when its fixed spelling
/// is `o`'s text.
pub proof fn lemma_bin_op_spells_its_token(kind: SyntaxKind, o: BinOpKind)
    ensures
        bin_op_of(kind) == Some(o) <==> crate::lex::spelling(kind) == Some(bin_op_text(o)),
{
    if crate::lex::spelling(kind) == Some(bin_op_text(o)) {
        assert(bin_op_of(kind) == Some(o)) by {
            if bin_op_text(o).len() == 1 {
                assert(bin_op_text(o) =~= seq![bin_op_text(o)[0]]);
            } else {
                assert(bin_op_text(o) =~= seq![bin_op_text(o)[0], bin_op_text(o)[1]]);
            }
        }
    }
}

/// A token is classified as the prefix operator its text spells, and only
/// as that one.
pub proof fn lemma_prefix_op_spells_its_token(kind: SyntaxKind, o: PrefixOpKind)
    ensures
        prefix_op_of(kind) == Some(o) <==> crate::lex::spelling(kind) == Some(prefix_op_text(o)),
{
    if crate::lex::spelling(kind) == Some(prefix_op_text(o)) {
        assert(prefix_op_of(kind) == Some(o)) by {
            if prefix_op_text(o).len() == 1 {
                assert(prefix_op_text(o) =~= seq![prefix_op_text(o)[0]]);
            } else {
                assert(prefix_op_text(o) =~= seq![
                    prefix_op_text(o)[0],
                    prefix_op_text(o)[1],
                    prefix_op_text(o)[2],
                ]);
            }
        }
    }
}

} // verus!
