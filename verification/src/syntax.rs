//! Every token and node kind of the compact-tree front end's syntax tree,
//! and the classifications its lexer and parser rely on.

use vstd::prelude::*;

verus! {

/// Every token and node kind in the front end's syntax tree.
#[allow(non_camel_case_types)]
#[derive(Debug, Clone, Copy, PartialEq, Eq, Structural, PartialOrd, Ord, Hash)]
pub enum SyntaxKind {
    /// Horizontal whitespace (spaces, tabs, `\r`, form feeds).
    WHITESPACE,
    /// A newline, or `$` (Scarpet's newline stand-in in one-liners).
    BREAK,
    /// A `//` line comment, up to (excluding) the line end.
    COMMENT,
    NUMBER,
    STRING,
    IDENT,
    /// Contextual `l` introducing the parenthesized spelling of a list literal.
    L_KW,
    /// Contextual `m` introducing the parenthesized spelling of a map literal.
    M_KW,
    L_PAREN,
    R_PAREN,
    L_BRACK,
    R_BRACK,
    L_BRACE,
    R_BRACE,
    /// `==`
    EQ2,
    /// `!=`
    BANG_EQ,
    /// `<`
    LT,
    /// `<=`
    LT_EQ,
    /// `>`
    GT,
    /// `>=`
    GT_EQ,
    /// `&&`
    AMP2,
    /// `||`
    PIPE2,
    /// `!`
    BANG,
    /// `+`
    PLUS,
    /// `-`
    MINUS,
    /// `*`
    STAR,
    /// `/`
    SLASH,
    /// `%`
    PERCENT,
    /// `^`
    CARET,
    /// `=`
    EQ,
    /// `+=`
    PLUS_EQ,
    /// `<>`
    LT_GT,
    /// `~`
    TILDE,
    /// `:`
    COLON,
    /// `.`
    DOT,
    /// `...`
    DOT3,
    /// `,`
    COMMA,
    /// `;`
    SEMICOLON,
    /// `->`
    ARROW,
    /// A character sequence the lexer cannot type (a stray `@`, a lone `&`,
    /// an unterminated string, …).
    ERROR,
    /// A number or string literal.
    LITERAL,
    /// A bare identifier reference (also the callee of a `CALL_EXPR`).
    NAME_REF,
    /// The parenthesized argument list of a call.
    ARG_LIST,
    /// `name(args)`.
    CALL_EXPR,
    /// `[ ... ]`.
    LIST_EXPR,
    /// `{ ... }`.
    MAP_EXPR,
    /// `( ... )`.
    PAREN_EXPR,
    /// A prefix operator application (`-x`, `+x`, `!x`, `...x`).
    PREFIX_EXPR,
    /// A binary operator application; `;` and `,` chains are binary too.
    BIN_EXPR,
    /// The top-level node covering the whole source.
    ROOT,
}

/// The number of kinds; raw numbers run from zero up to, excluding, this.
pub const KIND_COUNT: u16 = 50;

impl SyntaxKind {
    /// The raw number of a kind: its position in the declaration order.
    pub open spec fn raw(self) -> int {
        match self {
            SyntaxKind::WHITESPACE => 0,
            SyntaxKind::BREAK => 1,
            SyntaxKind::COMMENT => 2,
            SyntaxKind::NUMBER => 3,
            SyntaxKind::STRING => 4,
            SyntaxKind::IDENT => 5,
            SyntaxKind::L_KW => 6,
            SyntaxKind::M_KW => 7,
            SyntaxKind::L_PAREN => 8,
            SyntaxKind::R_PAREN => 9,
            SyntaxKind::L_BRACK => 10,
            SyntaxKind::R_BRACK => 11,
            SyntaxKind::L_BRACE => 12,
            SyntaxKind::R_BRACE => 13,
            SyntaxKind::EQ2 => 14,
            SyntaxKind::BANG_EQ => 15,
            SyntaxKind::LT => 16,
            SyntaxKind::LT_EQ => 17,
            SyntaxKind::GT => 18,
            SyntaxKind::GT_EQ => 19,
            SyntaxKind::AMP2 => 20,
            SyntaxKind::PIPE2 => 21,
            SyntaxKind::BANG => 22,
            SyntaxKind::PLUS => 23,
            SyntaxKind::MINUS => 24,
            SyntaxKind::STAR => 25,
            SyntaxKind::SLASH => 26,
            SyntaxKind::PERCENT => 27,
            SyntaxKind::CARET => 28,
            SyntaxKind::EQ => 29,
            SyntaxKind::PLUS_EQ => 30,
            SyntaxKind::LT_GT => 31,
            SyntaxKind::TILDE => 32,
            SyntaxKind::COLON => 33,
            SyntaxKind::DOT => 34,
            SyntaxKind::DOT3 => 35,
            SyntaxKind::COMMA => 36,
            SyntaxKind::SEMICOLON => 37,
            SyntaxKind::ARROW => 38,
            SyntaxKind::ERROR => 39,
            SyntaxKind::LITERAL => 40,
            SyntaxKind::NAME_REF => 41,
            SyntaxKind::ARG_LIST => 42,
            SyntaxKind::CALL_EXPR => 43,
            SyntaxKind::LIST_EXPR => 44,
            SyntaxKind::MAP_EXPR => 45,
            SyntaxKind::PAREN_EXPR => 46,
            SyntaxKind::PREFIX_EXPR => 47,
            SyntaxKind::BIN_EXPR => 48,
            SyntaxKind::ROOT => 49,
        }
    }

    /// The raw number of a kind.
    pub fn to_raw(self) -> (r: u16)
        ensures
            r == self.raw(),
    {
        match self {
            SyntaxKind::WHITESPACE => 0,
            SyntaxKind::BREAK => 1,
            SyntaxKind::COMMENT => 2,
            SyntaxKind::NUMBER => 3,
            SyntaxKind::STRING => 4,
            SyntaxKind::IDENT => 5,
            SyntaxKind::L_KW => 6,
            SyntaxKind::M_KW => 7,
            SyntaxKind::L_PAREN => 8,
            SyntaxKind::R_PAREN => 9,
            SyntaxKind::L_BRACK => 10,
            SyntaxKind::R_BRACK => 11,
            SyntaxKind::L_BRACE => 12,
            SyntaxKind::R_BRACE => 13,
            SyntaxKind::EQ2 => 14,
            SyntaxKind::BANG_EQ => 15,
            SyntaxKind::LT => 16,
            SyntaxKind::LT_EQ => 17,
            SyntaxKind::GT => 18,
            SyntaxKind::GT_EQ => 19,
            SyntaxKind::AMP2 => 20,
            SyntaxKind::PIPE2 => 21,
            SyntaxKind::BANG => 22,
            SyntaxKind::PLUS => 23,
            SyntaxKind::MINUS => 24,
            SyntaxKind::STAR => 25,
            SyntaxKind::SLASH => 26,
            SyntaxKind::PERCENT => 27,
            SyntaxKind::CARET => 28,
            SyntaxKind::EQ => 29,
            SyntaxKind::PLUS_EQ => 30,
            SyntaxKind::LT_GT => 31,
            SyntaxKind::TILDE => 32,
            SyntaxKind::COLON => 33,
            SyntaxKind::DOT => 34,
            SyntaxKind::DOT3 => 35,
            SyntaxKind::COMMA => 36,
            SyntaxKind::SEMICOLON => 37,
            SyntaxKind::ARROW => 38,
            SyntaxKind::ERROR => 39,
            SyntaxKind::LITERAL => 40,
            SyntaxKind::NAME_REF => 41,
            SyntaxKind::ARG_LIST => 42,
            SyntaxKind::CALL_EXPR => 43,
            SyntaxKind::LIST_EXPR => 44,
            SyntaxKind::MAP_EXPR => 45,
            SyntaxKind::PAREN_EXPR => 46,
            SyntaxKind::PREFIX_EXPR => 47,
            SyntaxKind::BIN_EXPR => 48,
            SyntaxKind::ROOT => 49,
        }
    }

    /// The kind whose raw number is `raw`, or `None` past the last kind.
    pub fn from_raw(raw: u16) -> (k: Option<SyntaxKind>)
        ensures
            match k {
                Some(k) => k.raw() == raw,
                None => raw >= KIND_COUNT,
            },
    {
        match raw {
            0 => Some(SyntaxKind::WHITESPACE),
            1 => Some(SyntaxKind::BREAK),
            2 => Some(SyntaxKind::COMMENT),
            3 => Some(SyntaxKind::NUMBER),
            4 => Some(SyntaxKind::STRING),
            5 => Some(SyntaxKind::IDENT),
            6 => Some(SyntaxKind::L_KW),
            7 => Some(SyntaxKind::M_KW),
            8 => Some(SyntaxKind::L_PAREN),
            9 => Some(SyntaxKind::R_PAREN),
            10 => Some(SyntaxKind::L_BRACK),
            11 => Some(SyntaxKind::R_BRACK),
            12 => Some(SyntaxKind::L_BRACE),
            13 => Some(SyntaxKind::R_BRACE),
            14 => Some(SyntaxKind::EQ2),
            15 => Some(SyntaxKind::BANG_EQ),
            16 => Some(SyntaxKind::LT),
            17 => Some(SyntaxKind::LT_EQ),
            18 => Some(SyntaxKind::GT),
            19 => Some(SyntaxKind::GT_EQ),
            20 => Some(SyntaxKind::AMP2),
            21 => Some(SyntaxKind::PIPE2),
            22 => Some(SyntaxKind::BANG),
            23 => Some(SyntaxKind::PLUS),
            24 => Some(SyntaxKind::MINUS),
            25 => Some(SyntaxKind::STAR),
            26 => Some(SyntaxKind::SLASH),
            27 => Some(SyntaxKind::PERCENT),
            28 => Some(SyntaxKind::CARET),
            29 => Some(SyntaxKind::EQ),
            30 => Some(SyntaxKind::PLUS_EQ),
            31 => Some(SyntaxKind::LT_GT),
            32 => Some(SyntaxKind::TILDE),
            33 => Some(SyntaxKind::COLON),
            34 => Some(SyntaxKind::DOT),
            35 => Some(SyntaxKind::DOT3),
            36 => Some(SyntaxKind::COMMA),
            37 => Some(SyntaxKind::SEMICOLON),
            38 => Some(SyntaxKind::ARROW),
            39 => Some(SyntaxKind::ERROR),
            40 => Some(SyntaxKind::LITERAL),
            41 => Some(SyntaxKind::NAME_REF),
            42 => Some(SyntaxKind::ARG_LIST),
            43 => Some(SyntaxKind::CALL_EXPR),
            44 => Some(SyntaxKind::LIST_EXPR),
            45 => Some(SyntaxKind::MAP_EXPR),
            46 => Some(SyntaxKind::PAREN_EXPR),
            47 => Some(SyntaxKind::PREFIX_EXPR),
            48 => Some(SyntaxKind::BIN_EXPR),
            49 => Some(SyntaxKind::ROOT),
            _ => None,
        }
    }

    /// True for the token kinds the grammar skips over: whitespace, breaks,
    /// and comments. Breaks and comments still matter to the compact tree,
    /// which re-attaches them as leading trivia.
    pub open spec fn spec_is_trivia(self) -> bool {
        self == SyntaxKind::WHITESPACE || self == SyntaxKind::BREAK || self == SyntaxKind::COMMENT
    }

    /// True for the opening delimiters `(`, `[`, `{`.
    pub open spec fn spec_is_opener(self) -> bool {
        self == SyntaxKind::L_PAREN || self == SyntaxKind::L_BRACK || self == SyntaxKind::L_BRACE
    }

    /// True for the closing delimiters `)`, `]`, `}`.
    pub open spec fn spec_is_closer(self) -> bool {
        self == SyntaxKind::R_PAREN || self == SyntaxKind::R_BRACK || self == SyntaxKind::R_BRACE
    }

    /// True for the node kinds (everything from `LITERAL` on); the rest are
    /// token kinds.
    pub open spec fn spec_is_node(self) -> bool {
        self.raw() >= SyntaxKind::LITERAL.raw()
    }

    /// True for the token kinds the grammar skips over: whitespace, breaks,
    /// and comments.
    #[verifier::when_used_as_spec(spec_is_trivia)]
    pub fn is_trivia(self) -> (b: bool)
        ensures
            b == self.spec_is_trivia(),
    {
        matches!(self, SyntaxKind::WHITESPACE | SyntaxKind::BREAK | SyntaxKind::COMMENT)
    }

    /// True for the opening delimiters `(`, `[`, `{`.
    #[verifier::when_used_as_spec(spec_is_opener)]
    pub fn is_opener(self) -> (b: bool)
        ensures
            b == self.spec_is_opener(),
    {
        matches!(self, SyntaxKind::L_PAREN | SyntaxKind::L_BRACK | SyntaxKind::L_BRACE)
    }

    /// True for the closing delimiters `)`, `]`, `}`.
    #[verifier::when_used_as_spec(spec_is_closer)]
    pub fn is_closer(self) -> (b: bool)
        ensures
            b == self.spec_is_closer(),
    {
        matches!(self, SyntaxKind::R_PAREN | SyntaxKind::R_BRACK | SyntaxKind::R_BRACE)
    }
}

/// Distinct kinds have distinct raw numbers, all below [`KIND_COUNT`], so
/// [`SyntaxKind::from_raw`] undoes [`SyntaxKind::to_raw`].
pub proof fn lemma_raw_round_trip(k1: SyntaxKind, k2: SyntaxKind)
    ensures
        0 <= k1.raw() < KIND_COUNT,
        k1.raw() == k2.raw() ==> k1 == k2,
{
}

/// The text of a token kind that is always spelled the same way, as bytes:
/// each operator and delimiter is the characters it names; `None` for the
/// kinds whose text varies (names, numbers, strings, trivia, errors).
pub open spec fn spelling(k: SyntaxKind) -> Option<Seq<u8>> {
    match k {
        SyntaxKind::L_PAREN => Some(seq![0x28u8]),  // (
        SyntaxKind::R_PAREN => Some(seq![0x29u8]),  // )
        SyntaxKind::L_BRACK => Some(seq![0x5bu8]),  // [
        SyntaxKind::R_BRACK => Some(seq![0x5du8]),  // ]
        SyntaxKind::L_BRACE => Some(seq![0x7bu8]),  // {
        SyntaxKind::R_BRACE => Some(seq![0x7du8]),  // }
        SyntaxKind::EQ2 => Some(seq![0x3du8, 0x3du8]),  // ==
        SyntaxKind::BANG_EQ => Some(seq![0x21u8, 0x3du8]),  // !=
        SyntaxKind::LT => Some(seq![0x3cu8]),  // <
        SyntaxKind::LT_EQ => Some(seq![0x3cu8, 0x3du8]),  // <=
        SyntaxKind::GT => Some(seq![0x3eu8]),  // >
        SyntaxKind::GT_EQ => Some(seq![0x3eu8, 0x3du8]),  // >=
        SyntaxKind::AMP2 => Some(seq![0x26u8, 0x26u8]),  // &&
        SyntaxKind::PIPE2 => Some(seq![0x7cu8, 0x7cu8]),  // ||
        SyntaxKind::BANG => Some(seq![0x21u8]),  // !
        SyntaxKind::PLUS => Some(seq![0x2bu8]),  // +
        SyntaxKind::MINUS => Some(seq![0x2du8]),  // -
        SyntaxKind::STAR => Some(seq![0x2au8]),  // *
        SyntaxKind::SLASH => Some(seq![0x2fu8]),  // /
        SyntaxKind::PERCENT => Some(seq![0x25u8]),  // %
        SyntaxKind::CARET => Some(seq![0x5eu8]),  // ^
        SyntaxKind::EQ => Some(seq![0x3du8]),  // =
        SyntaxKind::PLUS_EQ => Some(seq![0x2bu8, 0x3du8]),  // +=
        SyntaxKind::LT_GT => Some(seq![0x3cu8, 0x3eu8]),  // <>
        SyntaxKind::TILDE => Some(seq![0x7eu8]),  // ~
        SyntaxKind::COLON => Some(seq![0x3au8]),  // :
        SyntaxKind::DOT => Some(seq![0x2eu8]),  // .
        SyntaxKind::DOT3 => Some(seq![0x2eu8, 0x2eu8, 0x2eu8]),  // ...
        SyntaxKind::COMMA => Some(seq![0x2cu8]),  // ,
        SyntaxKind::SEMICOLON => Some(seq![0x3bu8]),  // ;
        SyntaxKind::ARROW => Some(seq![0x2du8, 0x3eu8]),  // ->
        _ => None,
    }
}

} // verus!
