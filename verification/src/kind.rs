//! Every token and node kind of a Scarpet syntax tree, and the small
//! classifications the lexer and parser rely on.

use vstd::prelude::*;

verus! {

/// Every token and node kind in a Scarpet syntax tree.
#[allow(non_camel_case_types)]
#[derive(Debug, Clone, Copy, PartialEq, Eq, Structural, PartialOrd, Ord, Hash)]
pub enum SyntaxKind {
    /// Horizontal whitespace (spaces, tabs, `\r`, form feeds).
    WHITESPACE,
    /// A newline, or `$` (Scarpet's newline stand-in in one-liners).
    NEWLINE,
    /// A `//` line comment, up to (excluding) the line end.
    COMMENT,
    NUMBER,
    STRING,
    IDENT,
    OPEN_PAREN,
    CLOSE_PAREN,
    OPEN_BRACK,
    CLOSE_BRACK,
    OPEN_BRACE,
    CLOSE_BRACE,
    /// `==`
    EQ_EQ,
    /// `!=`
    BANG_EQ,
    /// `<`
    LT,
    /// `<=`
    LT_EQ,
    /// `>`
    GT,
    /// `>=`
    GT_EQ,
    /// `&&`
    AND_AND,
    /// `||`
    OR_OR,
    /// `!`
    BANG,
    /// `+`
    PLUS,
    /// `-`
    MINUS,
    /// `*`
    STAR,
    /// `/`
    SLASH,
    /// `%`
    PERCENT,
    /// `^`
    CARET,
    /// `=`
    EQ,
    /// `+=`
    PLUS_EQ,
    /// `<>`
    SWAP,
    /// `~`
    TILDE,
    /// `:`
    COLON,
    /// `.`
    DOT,
    /// `...`
    ELLIPSIS,
    /// `,`
    COMMA,
    /// `;`
    SEMICOLON,
    /// `->`
    ARROW,
    /// A character sequence the lexer cannot type.
    ERROR_TOKEN,
    /// The root node covering the whole source.
    SOURCE_FILE,
    /// A number or string literal.
    LITERAL,
    /// A bare identifier reference (also the callee of a `CALL_EXPR`).
    NAME_REF,
    /// The parenthesized argument list of a call.
    ARG_LIST,
    /// `name(args)`.
    CALL_EXPR,
    /// `[ ... ]`.
    LIST_EXPR,
    /// `{ ... }`.
    MAP_EXPR,
    /// `( ... )`.
    PAREN_EXPR,
    /// A prefix operator application.
    PREFIX_EXPR,
    /// A binary operator application.
    BIN_EXPR,
    /// An n-ary `,` chain.
    COMMA_CHAIN,
    /// An n-ary `;` chain.
    SEMI_CHAIN,
    /// A zero-width omitted slot between separators.
    EMPTY_ARG,
    /// A node of unparseable input.
    ERROR,
}


/// The number of kinds; raw numbers run from zero up to, excluding, this.
pub const KIND_COUNT: u16 = 52;

impl SyntaxKind {
    /// The raw number of a kind: its position in the declaration order.
    pub open spec fn raw(self) -> int {
        match self {
            SyntaxKind::WHITESPACE => 0,
            SyntaxKind::NEWLINE => 1,
            SyntaxKind::COMMENT => 2,
            SyntaxKind::NUMBER => 3,
            SyntaxKind::STRING => 4,
            SyntaxKind::IDENT => 5,
            SyntaxKind::OPEN_PAREN => 6,
            SyntaxKind::CLOSE_PAREN => 7,
            SyntaxKind::OPEN_BRACK => 8,
            SyntaxKind::CLOSE_BRACK => 9,
            SyntaxKind::OPEN_BRACE => 10,
            SyntaxKind::CLOSE_BRACE => 11,
            SyntaxKind::EQ_EQ => 12,
            SyntaxKind::BANG_EQ => 13,
            SyntaxKind::LT => 14,
            SyntaxKind::LT_EQ => 15,
            SyntaxKind::GT => 16,
            SyntaxKind::GT_EQ => 17,
            SyntaxKind::AND_AND => 18,
            SyntaxKind::OR_OR => 19,
            SyntaxKind::BANG => 20,
            SyntaxKind::PLUS => 21,
            SyntaxKind::MINUS => 22,
            SyntaxKind::STAR => 23,
            SyntaxKind::SLASH => 24,
            SyntaxKind::PERCENT => 25,
            SyntaxKind::CARET => 26,
            SyntaxKind::EQ => 27,
            SyntaxKind::PLUS_EQ => 28,
            SyntaxKind::SWAP => 29,
            SyntaxKind::TILDE => 30,
            SyntaxKind::COLON => 31,
            SyntaxKind::DOT => 32,
            SyntaxKind::ELLIPSIS => 33,
            SyntaxKind::COMMA => 34,
            SyntaxKind::SEMICOLON => 35,
            SyntaxKind::ARROW => 36,
            SyntaxKind::ERROR_TOKEN => 37,
            SyntaxKind::SOURCE_FILE => 38,
            SyntaxKind::LITERAL => 39,
            SyntaxKind::NAME_REF => 40,
            SyntaxKind::ARG_LIST => 41,
            SyntaxKind::CALL_EXPR => 42,
            SyntaxKind::LIST_EXPR => 43,
            SyntaxKind::MAP_EXPR => 44,
            SyntaxKind::PAREN_EXPR => 45,
            SyntaxKind::PREFIX_EXPR => 46,
            SyntaxKind::BIN_EXPR => 47,
            SyntaxKind::COMMA_CHAIN => 48,
            SyntaxKind::SEMI_CHAIN => 49,
            SyntaxKind::EMPTY_ARG => 50,
            SyntaxKind::ERROR => 51,
        }
    }

    /// The raw number of this kind (see [`SyntaxKind::raw`]).
    pub fn to_raw(self) -> (r: u16)
        ensures
            r == self.raw(),
    {
        match self {
            SyntaxKind::WHITESPACE => 0,
            SyntaxKind::NEWLINE => 1,
            SyntaxKind::COMMENT => 2,
            SyntaxKind::NUMBER => 3,
            SyntaxKind::STRING => 4,
            SyntaxKind::IDENT => 5,
            SyntaxKind::OPEN_PAREN => 6,
            SyntaxKind::CLOSE_PAREN => 7,
            SyntaxKind::OPEN_BRACK => 8,
            SyntaxKind::CLOSE_BRACK => 9,
            SyntaxKind::OPEN_BRACE => 10,
            SyntaxKind::CLOSE_BRACE => 11,
            SyntaxKind::EQ_EQ => 12,
            SyntaxKind::BANG_EQ => 13,
            SyntaxKind::LT => 14,
            SyntaxKind::LT_EQ => 15,
            SyntaxKind::GT => 16,
            SyntaxKind::GT_EQ => 17,
            SyntaxKind::AND_AND => 18,
            SyntaxKind::OR_OR => 19,
            SyntaxKind::BANG => 20,
            SyntaxKind::PLUS => 21,
            SyntaxKind::MINUS => 22,
            SyntaxKind::STAR => 23,
            SyntaxKind::SLASH => 24,
            SyntaxKind::PERCENT => 25,
            SyntaxKind::CARET => 26,
            SyntaxKind::EQ => 27,
            SyntaxKind::PLUS_EQ => 28,
            SyntaxKind::SWAP => 29,
            SyntaxKind::TILDE => 30,
            SyntaxKind::COLON => 31,
            SyntaxKind::DOT => 32,
            SyntaxKind::ELLIPSIS => 33,
            SyntaxKind::COMMA => 34,
            SyntaxKind::SEMICOLON => 35,
            SyntaxKind::ARROW => 36,
            SyntaxKind::ERROR_TOKEN => 37,
            SyntaxKind::SOURCE_FILE => 38,
            SyntaxKind::LITERAL => 39,
            SyntaxKind::NAME_REF => 40,
            SyntaxKind::ARG_LIST => 41,
            SyntaxKind::CALL_EXPR => 42,
            SyntaxKind::LIST_EXPR => 43,
            SyntaxKind::MAP_EXPR => 44,
            SyntaxKind::PAREN_EXPR => 45,
            SyntaxKind::PREFIX_EXPR => 46,
            SyntaxKind::BIN_EXPR => 47,
            SyntaxKind::COMMA_CHAIN => 48,
            SyntaxKind::SEMI_CHAIN => 49,
            SyntaxKind::EMPTY_ARG => 50,
            SyntaxKind::ERROR => 51,
        }
    }

    /// The kind whose raw number is `raw`, or `None` past the last kind.
    pub fn from_raw(raw: u16) -> (k: Option<SyntaxKind>)
        ensures
            match k {
                Some(k) => k.raw() == raw,
                None => raw >= KIND_COUNT,
            },
    {
        match raw {
            0 => Some(SyntaxKind::WHITESPACE),
            1 => Some(SyntaxKind::NEWLINE),
            2 => Some(SyntaxKind::COMMENT),
            3 => Some(SyntaxKind::NUMBER),
            4 => Some(SyntaxKind::STRING),
            5 => Some(SyntaxKind::IDENT),
            6 => Some(SyntaxKind::OPEN_PAREN),
            7 => Some(SyntaxKind::CLOSE_PAREN),
            8 => Some(SyntaxKind::OPEN_BRACK),
            9 => Some(SyntaxKind::CLOSE_BRACK),
            10 => Some(SyntaxKind::OPEN_BRACE),
            11 => Some(SyntaxKind::CLOSE_BRACE),
            12 => Some(SyntaxKind::EQ_EQ),
            13 => Some(SyntaxKind::BANG_EQ),
            14 => Some(SyntaxKind::LT),
            15 => Some(SyntaxKind::LT_EQ),
            16 => Some(SyntaxKind::GT),
            17 => Some(SyntaxKind::GT_EQ),
            18 => Some(SyntaxKind::AND_AND),
            19 => Some(SyntaxKind::OR_OR),
            20 => Some(SyntaxKind::BANG),
            21 => Some(SyntaxKind::PLUS),
            22 => Some(SyntaxKind::MINUS),
            23 => Some(SyntaxKind::STAR),
            24 => Some(SyntaxKind::SLASH),
            25 => Some(SyntaxKind::PERCENT),
            26 => Some(SyntaxKind::CARET),
            27 => Some(SyntaxKind::EQ),
            28 => Some(SyntaxKind::PLUS_EQ),
            29 => Some(SyntaxKind::SWAP),
            30 => Some(SyntaxKind::TILDE),
            31 => Some(SyntaxKind::COLON),
            32 => Some(SyntaxKind::DOT),
            33 => Some(SyntaxKind::ELLIPSIS),
            34 => Some(SyntaxKind::COMMA),
            35 => Some(SyntaxKind::SEMICOLON),
            36 => Some(SyntaxKind::ARROW),
            37 => Some(SyntaxKind::ERROR_TOKEN),
            38 => Some(SyntaxKind::SOURCE_FILE),
            39 => Some(SyntaxKind::LITERAL),
            40 => Some(SyntaxKind::NAME_REF),
            41 => Some(SyntaxKind::ARG_LIST),
            42 => Some(SyntaxKind::CALL_EXPR),
            43 => Some(SyntaxKind::LIST_EXPR),
            44 => Some(SyntaxKind::MAP_EXPR),
            45 => Some(SyntaxKind::PAREN_EXPR),
            46 => Some(SyntaxKind::PREFIX_EXPR),
            47 => Some(SyntaxKind::BIN_EXPR),
            48 => Some(SyntaxKind::COMMA_CHAIN),
            49 => Some(SyntaxKind::SEMI_CHAIN),
            50 => Some(SyntaxKind::EMPTY_ARG),
            51 => Some(SyntaxKind::ERROR),
            _ => None,
        }
    }

    /// True for the token kinds the grammar skips over: whitespace, line
    /// breaks, and comments.
    pub open spec fn spec_is_trivia(self) -> bool {
        self == SyntaxKind::WHITESPACE || self == SyntaxKind::NEWLINE || self == SyntaxKind::COMMENT
    }

    /// True for the opening delimiters `(`, `[`, `{`.
    pub open spec fn spec_is_opener(self) -> bool {
        self == SyntaxKind::OPEN_PAREN || self == SyntaxKind::OPEN_BRACK || self
            == SyntaxKind::OPEN_BRACE
    }

    /// True for the closing delimiters `)`, `]`, `}`.
    pub open spec fn spec_is_closer(self) -> bool {
        self == SyntaxKind::CLOSE_PAREN || self == SyntaxKind::CLOSE_BRACK || self
            == SyntaxKind::CLOSE_BRACE
    }

    /// True for the node kinds (everything from `SOURCE_FILE` on); the rest
    /// are token kinds.
    pub open spec fn spec_is_node(self) -> bool {
        self.raw() >= SyntaxKind::SOURCE_FILE.raw()
    }

    /// True for the token kinds the grammar skips over: whitespace, line
    /// breaks, and comments.
    #[verifier::when_used_as_spec(spec_is_trivia)]
    pub fn is_trivia(self) -> (b: bool)
        ensures
            b == self.spec_is_trivia(),
    {
        matches!(self, SyntaxKind::WHITESPACE | SyntaxKind::NEWLINE | SyntaxKind::COMMENT)
    }

    /// True for the opening delimiters `(`, `[`, `{`.
    #[verifier::when_used_as_spec(spec_is_opener)]
    pub fn is_opener(self) -> (b: bool)
        ensures
            b == self.spec_is_opener(),
    {
        matches!(self, SyntaxKind::OPEN_PAREN | SyntaxKind::OPEN_BRACK | SyntaxKind::OPEN_BRACE)
    }

    /// True for the closing delimiters `)`, `]`, `}`.
    #[verifier::when_used_as_spec(spec_is_closer)]
    pub fn is_closer(self) -> (b: bool)
        ensures
            b == self.spec_is_closer(),
    {
        matches!(self, SyntaxKind::CLOSE_PAREN | SyntaxKind::CLOSE_BRACK | SyntaxKind::CLOSE_BRACE)
    }
}

/// Distinct kinds have distinct raw numbers, all below [`KIND_COUNT`], so
/// [`SyntaxKind::from_raw`] undoes [`SyntaxKind::to_raw`].
pub proof fn lemma_raw_round_trip(k1: SyntaxKind, k2: SyntaxKind)
    ensures
        0 <= k1.raw() < KIND_COUNT,
        k1.raw() == k2.raw() ==> k1 == k2,
{
}

} // verus!
