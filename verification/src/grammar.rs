//! The Scarpet grammar as a specification: a recursive-descent reading of a
//! token stream into preorder tree events, with the farthest-failure
//! recorder that names what was expected when the parse fails.
//!
//! Precedence ladder (low → high), by level number:
//!
//! ```text
//!   13 comma_chain = seq_chain (`,` seq_chain)*
//!   12 seq_chain   = arrow (`;` arrow)*
//!   11 arrow       = assign (`->` arrow)?                  right-assoc
//!   10 assign      = lor ((`=` | `+=` | `<>`) assign)?      right-assoc
//!    9 lor         = land (`||` land)*
//!    8 land        = equality (`&&` equality)*
//!    7 equality    = compare ((`==` | `!=`) compare)*
//!    6 compare     = additive ((`<` | `<=` | `>` | `>=`) additive)*
//!    5 additive    = mult ((`+` | `-`) mult)*
//!    4 mult        = power ((`*` | `/` | `%`) power)*
//!    3 power       = unary (`^` power)?                     right-assoc
//!    2 unary       = (`+` | `-` | `!` | `...`)* get
//!    1 get         = primary ((`~` | `:`) primary)*
//!    0 primary     = literal | name | call | `(` top `)` | `[` args `]` | `{` args `}`
//! ```
//!
//! Trivia policy: no node starts with a trivia token. Pending trivia goes
//! into the currently open node right before a child node starts or a
//! significant token is consumed.

use vstd::prelude::*;

use crate::kind::SyntaxKind;
use crate::tree::{Event, Tok, balanced, lemma_balanced_tokens};

verus! {

/// A label of what the parser expected at a failure position.
#[derive(Debug, Clone, Copy, PartialEq, Eq, Structural)]
pub enum Expect {
    /// `expression`
    Expression,
    /// `an operator`
    Operator,
    /// `end of input`
    EndOfInput,
    /// `` `(` ``
    OpenParen,
    /// `` `)` ``
    CloseParen,
    /// `` `]` ``
    CloseBrack,
    /// `` `}` ``
    CloseBrace,
}

/// The display text of an expectation label.
pub open spec fn expect_text(e: Expect) -> Seq<char> {
    match e {
        Expect::Expression => "expression"@,
        Expect::Operator => "an operator"@,
        Expect::EndOfInput => "end of input"@,
        Expect::OpenParen => "`(`"@,
        Expect::CloseParen => "`)`"@,
        Expect::CloseBrack => "`]`"@,
        Expect::CloseBrace => "`}`"@,
    }
}

/// The label of a closing delimiter kind.
pub open spec fn closer_expect(close: SyntaxKind) -> Expect {
    if close == SyntaxKind::CLOSE_PAREN {
        Expect::CloseParen
    } else if close == SyntaxKind::CLOSE_BRACK {
        Expect::CloseBrack
    } else {
        Expect::CloseBrace
    }
}

/// The parser's state: the index of the next token not yet emitted (trivia
/// included), and the farthest-failure recorder — the labels expected at
/// byte offset `expected_at`.
pub struct PState {
    pub pos: int,
    pub expected: Seq<Expect>,
    pub expected_at: int,
}

/// What a grammar rule yields: the events it emits into the currently open
/// node and the state after it, or the state at the failure.
pub type PRes = Result<(Seq<Event>, PState), PState>;

// ====================================================================
// Token cursor
// ====================================================================

/// The index of the first significant (non-trivia) token at or after `i`,
/// or the end of the stream.
pub open spec fn next_sig(toks: Seq<Tok>, i: int) -> int
    decreases toks.len() - i,
{
    if 0 <= i < toks.len() && toks[i].kind.spec_is_trivia() {
        next_sig(toks, i + 1)
    } else {
        i
    }
}

/// The kind of the next significant token.
pub open spec fn peek(toks: Seq<Tok>, s: PState) -> Option<SyntaxKind> {
    let j = next_sig(toks, s.pos);
    if 0 <= j < toks.len() {
        Some(toks[j].kind)
    } else {
        None
    }
}

/// The kind of the significant token after the next one.
pub open spec fn peek2(toks: Seq<Tok>, s: PState) -> Option<SyntaxKind> {
    let k = next_sig(toks, next_sig(toks, s.pos) + 1);
    if 0 <= next_sig(toks, s.pos) < toks.len() && 0 <= k < toks.len() {
        Some(toks[k].kind)
    } else {
        None
    }
}

/// Byte offset of the next significant token, or the source length `n` at
/// the end.
pub open spec fn cur_offset(toks: Seq<Tok>, n: int, s: PState) -> int {
    let j = next_sig(toks, s.pos);
    if 0 <= j < toks.len() {
        toks[j].start as int
    } else {
        n
    }
}

/// Records `label` as expected at the current position: a position past the
/// farthest one so far resets the set; a label already in the set is not
/// repeated.
pub open spec fn record(toks: Seq<Tok>, n: int, s: PState, label: Expect) -> PState {
    let at = cur_offset(toks, n, s);
    if at > s.expected_at {
        PState { pos: s.pos, expected: seq![label], expected_at: at }
    } else if s.expected.contains(label) {
        s
    } else {
        PState { pos: s.pos, expected: s.expected.push(label), expected_at: s.expected_at }
    }
}

/// The token events of `toks[i..j]`.
pub open spec fn token_events(toks: Seq<Tok>, i: int, j: int) -> Seq<Event>
    decreases j - i,
{
    if 0 <= i < j && j <= toks.len() {
        seq![Event::Token(toks[i])] + token_events(toks, i + 1, j)
    } else {
        seq![]
    }
}

/// Emits the pending trivia tokens.
pub open spec fn flush(toks: Seq<Tok>, s: PState) -> (Seq<Event>, PState) {
    let j = next_sig(toks, s.pos);
    (token_events(toks, s.pos, j), PState { pos: j, expected: s.expected, expected_at: s.expected_at })
}

/// Emits the pending trivia and then the next significant token.
pub open spec fn bump(toks: Seq<Tok>, s: PState) -> (Seq<Event>, PState) {
    let j = next_sig(toks, s.pos);
    (
        token_events(toks, s.pos, j + 1),
        PState { pos: j + 1, expected: s.expected, expected_at: s.expected_at },
    )
}

/// `s1` lies strictly past `s` and within the stream.
pub open spec fn progressed(toks: Seq<Tok>, s: PState, s1: PState) -> bool {
    s.pos < s1.pos <= toks.len()
}

/// Whether the next token ends a comma chain: a closer or end of input.
pub open spec fn at_comma_chain_end(toks: Seq<Tok>, s: PState) -> bool {
    match peek(toks, s) {
        None => true,
        Some(k) => k.spec_is_closer(),
    }
}

/// Whether the next token ends a semi chain: a closer, end of input, or `,`.
pub open spec fn at_seq_chain_end(toks: Seq<Tok>, s: PState) -> bool {
    at_comma_chain_end(toks, s) || peek(toks, s) == Some(SyntaxKind::COMMA)
}

// ====================================================================
// Operator levels
// ====================================================================

/// Whether `lvl` is a left-associative binary level.
pub open spec fn is_left_level(lvl: int) -> bool {
    lvl == 1 || (4 <= lvl <= 9)
}

/// Whether `lvl` is a right-associative binary level.
pub open spec fn is_right_level(lvl: int) -> bool {
    lvl == 3 || lvl == 10 || lvl == 11
}

/// The operator tokens of binary level `lvl`.
pub open spec fn is_level_op(lvl: int, k: SyntaxKind) -> bool {
    if lvl == 1 {
        k == SyntaxKind::TILDE || k == SyntaxKind::COLON
    } else if lvl == 3 {
        k == SyntaxKind::CARET
    } else if lvl == 4 {
        k == SyntaxKind::STAR || k == SyntaxKind::SLASH || k == SyntaxKind::PERCENT
    } else if lvl == 5 {
        k == SyntaxKind::PLUS || k == SyntaxKind::MINUS
    } else if lvl == 6 {
        k == SyntaxKind::LT || k == SyntaxKind::LT_EQ || k == SyntaxKind::GT || k
            == SyntaxKind::GT_EQ
    } else if lvl == 7 {
        k == SyntaxKind::EQ_EQ || k == SyntaxKind::BANG_EQ
    } else if lvl == 8 {
        k == SyntaxKind::AND_AND
    } else if lvl == 9 {
        k == SyntaxKind::OR_OR
    } else if lvl == 10 {
        k == SyntaxKind::EQ || k == SyntaxKind::PLUS_EQ || k == SyntaxKind::SWAP
    } else if lvl == 11 {
        k == SyntaxKind::ARROW
    } else {
        false
    }
}

/// Whether the next token is an operator of level `lvl`.
pub open spec fn at_level_op(toks: Seq<Tok>, lvl: int, s: PState) -> bool {
    match peek(toks, s) {
        Some(k) => is_level_op(lvl, k),
        None => false,
    }
}

/// The prefix operators.
pub open spec fn is_prefix_op(k: SyntaxKind) -> bool {
    k == SyntaxKind::PLUS || k == SyntaxKind::MINUS || k == SyntaxKind::BANG || k
        == SyntaxKind::ELLIPSIS
}

// ====================================================================
// Rules
// ====================================================================

/// `r` with `e` emitted before it (failures pass through).
pub open spec fn prepend(e: Seq<Event>, r: PRes) -> PRes {
    match r {
        Ok((x, s1)) => Ok((e + x, s1)),
        Err(s1) => Err(s1),
    }
}

/// Wraps `body` in a node of `kind`.
pub open spec fn wrap(kind: SyntaxKind, body: Seq<Event>) -> Seq<Event> {
    seq![Event::Start(kind)] + body + seq![Event::Finish]
}

/// Rule `lvl` of the ladder (0 ..= 13) at state `s`.
pub open spec fn rule(toks: Seq<Tok>, n: int, lvl: int, s: PState) -> PRes
    decreases toks.len() - s.pos, lvl + 2,
{
    if s.pos < 0 || s.pos > toks.len() || lvl < 0 || lvl > 13 {
        Err(s)
    } else if lvl == 13 {
        // comma_chain
        let (t, s0) = flush(toks, s);
        if !(s.pos <= s0.pos <= toks.len()) {
            Err(s0)
        } else {
            match rule(toks, n, 12, s0) {
                Err(e) => Err(e),
                Ok((e1, s1)) => if peek(toks, s1) != Some(SyntaxKind::COMMA) {
                    Ok((t + e1, s1))
                } else if !progressed(toks, s, s1) {
                    Err(s1)
                } else {
                    match comma_rest(toks, n, s1) {
                        Err(e) => Err(e),
                        Ok((e2, s2)) => Ok((t + wrap(SyntaxKind::COMMA_CHAIN, e1 + e2), s2)),
                    }
                },
            }
        }
    } else if lvl == 12 {
        // seq_chain
        let (t, s0) = flush(toks, s);
        if !(s.pos <= s0.pos <= toks.len()) {
            Err(s0)
        } else {
            match rule(toks, n, 11, s0) {
                Err(e) => Err(e),
                Ok((e1, s1)) => if peek(toks, s1) != Some(SyntaxKind::SEMICOLON) {
                    Ok((t + e1, s1))
                } else if !progressed(toks, s, s1) {
                    Err(s1)
                } else {
                    match seq_rest(toks, n, s1) {
                        Err(e) => Err(e),
                        Ok((e2, s2)) => Ok((t + wrap(SyntaxKind::SEMI_CHAIN, e1 + e2), s2)),
                    }
                },
            }
        }
    } else if is_right_level(lvl) {
        let (t, s0) = flush(toks, s);
        if !(s.pos <= s0.pos <= toks.len()) {
            Err(s0)
        } else {
            match rule(toks, n, lvl - 1, s0) {
                Err(e) => Err(e),
                Ok((e1, s1)) => if at_level_op(toks, lvl, s1) {
                    let (b, s2) = bump(toks, s1);
                    if !progressed(toks, s, s2) {
                        Err(s2)
                    } else {
                        match rule(toks, n, lvl, s2) {
                            Err(e) => Err(e),
                            Ok((e2, s3)) => Ok((t + wrap(SyntaxKind::BIN_EXPR, e1 + b + e2), s3)),
                        }
                    }
                } else {
                    Ok((t + e1, record(toks, n, s1, Expect::Operator)))
                },
            }
        }
    } else if is_left_level(lvl) {
        let (t, s0) = flush(toks, s);
        if !(s.pos <= s0.pos <= toks.len()) {
            Err(s0)
        } else {
            match rule(toks, n, lvl - 1, s0) {
                Err(e) => Err(e),
                Ok((e1, s1)) => if !progressed(toks, s, s1) {
                    Err(s1)
                } else {
                    match left_rest(toks, n, lvl, s1, e1) {
                        Err(e) => Err(e),
                        Ok((e2, s2)) => Ok((t + e2, s2)),
                    }
                },
            }
        }
    } else if lvl == 2 {
        // unary
        match peek(toks, s) {
            Some(k) => if is_prefix_op(k) {
                let (t, s0) = flush(toks, s);
                let (b, s1) = bump(toks, s0);
                if !progressed(toks, s, s1) {
                    Err(s1)
                } else {
                    match rule(toks, n, 2, s1) {
                        Err(e) => Err(e),
                        Ok((e1, s2)) => Ok((t + wrap(SyntaxKind::PREFIX_EXPR, b + e1), s2)),
                    }
                }
            } else {
                rule(toks, n, 1, s)
            },
            None => rule(toks, n, 1, s),
        }
    } else {
        // primary
        primary(toks, n, s)
    }
}

/// `primary`: a literal, a name or call, a parenthesized body, a list or a
/// map.
pub open spec fn primary(toks: Seq<Tok>, n: int, s: PState) -> PRes
    decreases toks.len() - s.pos, 1int,
{
    if s.pos < 0 || s.pos > toks.len() {
        Err(s)
    } else {
        match peek(toks, s) {
            Some(k) => if k == SyntaxKind::NUMBER || k == SyntaxKind::STRING {
                let (t, s0) = flush(toks, s);
                let (b, s1) = bump(toks, s0);
                Ok((t + wrap(SyntaxKind::LITERAL, b), s1))
            } else if k == SyntaxKind::IDENT {
                let (t, s0) = flush(toks, s);
                let (b, s1) = bump(toks, s0);
                if peek2(toks, s) == Some(SyntaxKind::OPEN_PAREN) {
                    if !progressed(toks, s, s1) {
                        Err(s1)
                    } else {
                        match delimited(toks, n, s1, SyntaxKind::ARG_LIST, SyntaxKind::CLOSE_PAREN) {
                            Err(e) => Err(e),
                            Ok((d, s2)) => Ok(
                                (
                                    t + wrap(
                                        SyntaxKind::CALL_EXPR,
                                        wrap(SyntaxKind::NAME_REF, b) + d,
                                    ),
                                    s2,
                                ),
                            ),
                        }
                    }
                } else {
                    Ok(
                        (
                            t + wrap(SyntaxKind::NAME_REF, b),
                            record(toks, n, s1, Expect::OpenParen),
                        ),
                    )
                }
            } else if k == SyntaxKind::OPEN_PAREN {
                let (t, s0) = flush(toks, s);
                let (b, s1) = bump(toks, s0);
                if !progressed(toks, s, s1) {
                    Err(s1)
                } else {
                    match rule(toks, n, 13, s1) {
                        Err(e) => Err(e),
                        Ok((e1, s2)) => if peek(toks, s2) == Some(SyntaxKind::CLOSE_PAREN) {
                            let (b2, s3) = bump(toks, s2);
                            Ok((t + wrap(SyntaxKind::PAREN_EXPR, b + e1 + b2), s3))
                        } else {
                            Err(record(toks, n, s2, Expect::CloseParen))
                        },
                    }
                }
            } else if k == SyntaxKind::OPEN_BRACK {
                delimited(toks, n, s, SyntaxKind::LIST_EXPR, SyntaxKind::CLOSE_BRACK)
            } else if k == SyntaxKind::OPEN_BRACE {
                delimited(toks, n, s, SyntaxKind::MAP_EXPR, SyntaxKind::CLOSE_BRACE)
            } else {
                Err(record(toks, n, s, Expect::Expression))
            },
            None => Err(record(toks, n, s, Expect::Expression)),
        }
    }
}

/// A `node` of comma-separated `seq_chain` items from the opener (the next
/// token) through the closer `close`.
pub open spec fn delimited(toks: Seq<Tok>, n: int, s: PState, node: SyntaxKind, close: SyntaxKind) -> PRes
    decreases toks.len() - s.pos, 0int,
{
    let (t, s0) = flush(toks, s);
    let (b, s1) = bump(toks, s0);
    if !progressed(toks, s, s1) {
        Err(s1)
    } else {
        match delim_items(toks, n, s1, close) {
            Err(e) => Err(e),
            Ok((r, s2)) => Ok((t + wrap(node, b + r), s2)),
        }
    }
}

/// The items of a delimited list, through its closer. An omitted entry
/// becomes a zero-width `EMPTY_ARG` node; a trailing comma adds none.
pub open spec fn delim_items(toks: Seq<Tok>, n: int, s: PState, close: SyntaxKind) -> PRes
    decreases toks.len() - s.pos, 20int,
{
    if s.pos < 0 || s.pos > toks.len() {
        Err(s)
    } else if peek(toks, s) == Some(close) {
        Ok(bump(toks, s))
    } else if peek(toks, s) is None {
        Err(record(toks, n, s, closer_expect(close)))
    } else {
        let item: PRes = if peek(toks, s) == Some(SyntaxKind::COMMA) {
            let (t, s0) = flush(toks, s);
            Ok((t + wrap(SyntaxKind::EMPTY_ARG, seq![]), s0))
        } else {
            rule(toks, n, 12, s)
        };
        match item {
            Err(e) => Err(e),
            Ok((e1, s1)) => if !(s.pos <= s1.pos <= toks.len()) {
                Err(s1)
            } else if peek(toks, s1) == Some(SyntaxKind::COMMA) {
                let (b, s2) = bump(toks, s1);
                if !progressed(toks, s, s2) {
                    Err(s2)
                } else {
                    match delim_items(toks, n, s2, close) {
                        Err(e) => Err(e),
                        Ok((r, s3)) => Ok((e1 + b + r, s3)),
                    }
                }
            } else if peek(toks, s1) == Some(close) {
                let (b, s2) = bump(toks, s1);
                Ok((e1 + b, s2))
            } else {
                Err(record(toks, n, s1, closer_expect(close)))
            },
        }
    }
}

/// The links of a left-associative level after its first operand; `acc` is
/// everything since the level's start, wrapped into a `BIN_EXPR` per link.
pub open spec fn left_rest(toks: Seq<Tok>, n: int, lvl: int, s: PState, acc: Seq<Event>) -> PRes
    decreases toks.len() - s.pos, 20int,
{
    if s.pos < 0 || s.pos > toks.len() || lvl < 1 || lvl > 13 {
        Err(s)
    } else if at_level_op(toks, lvl, s) {
        let (b, s1) = bump(toks, s);
        if !progressed(toks, s, s1) {
            Err(s1)
        } else {
            match rule(toks, n, lvl - 1, s1) {
                Err(e) => Err(e),
                Ok((e1, s2)) => if !progressed(toks, s, s2) {
                    Err(s2)
                } else {
                    left_rest(toks, n, lvl, s2, wrap(SyntaxKind::BIN_EXPR, acc + b + e1))
                },
            }
        }
    } else {
        Ok((acc, record(toks, n, s, Expect::Operator)))
    }
}

/// The links of a comma chain after its first item (the next token is `,`).
pub open spec fn comma_rest(toks: Seq<Tok>, n: int, s: PState) -> PRes
    decreases toks.len() - s.pos, 20int,
{
    let (b, s1) = bump(toks, s);
    if !progressed(toks, s, s1) {
        Err(s1)
    } else if at_comma_chain_end(toks, s1) {
        let (f, s2) = flush(toks, s1);
        Ok((b + f, s2))
    } else {
        match rule(toks, n, 12, s1) {
            Err(e) => Err(e),
            Ok((e1, s2)) => if peek(toks, s2) == Some(SyntaxKind::COMMA) {
                if !progressed(toks, s, s2) {
                    Err(s2)
                } else {
                    match comma_rest(toks, n, s2) {
                        Err(e) => Err(e),
                        Ok((r, s3)) => Ok((b + e1 + r, s3)),
                    }
                }
            } else {
                Ok((b + e1, s2))
            },
        }
    }
}

/// A run of `;` tokens (the next token is `;`).
pub open spec fn semis(toks: Seq<Tok>, s: PState) -> (Seq<Event>, PState)
    decreases toks.len() - s.pos,
{
    let (b, s1) = bump(toks, s);
    if progressed(toks, s, s1) && peek(toks, s1) == Some(SyntaxKind::SEMICOLON) {
        let (r, s2) = semis(toks, s1);
        (b + r, s2)
    } else {
        (b, s1)
    }
}

/// The links of a semi chain after its first item (the next token is `;`).
/// Runs of `;` count as one separator; a trailing `;` is allowed.
pub open spec fn seq_rest(toks: Seq<Tok>, n: int, s: PState) -> PRes
    decreases toks.len() - s.pos, 20int,
{
    let (b, s1) = semis(toks, s);
    if !progressed(toks, s, s1) {
        Err(s1)
    } else if at_seq_chain_end(toks, s1) {
        let (f, s2) = flush(toks, s1);
        Ok((b + f, s2))
    } else {
        match rule(toks, n, 11, s1) {
            Err(e) => Err(e),
            Ok((e1, s2)) => if peek(toks, s2) == Some(SyntaxKind::SEMICOLON) {
                if !progressed(toks, s, s2) {
                    Err(s2)
                } else {
                    match seq_rest(toks, n, s2) {
                        Err(e) => Err(e),
                        Ok((r, s3)) => Ok((b + e1 + r, s3)),
                    }
                }
            } else {
                Ok((b + e1, s2))
            },
        }
    }
}

/// The whole program: a `SOURCE_FILE` around the top-level comma chain and
/// any trailing trivia; anything left over fails as `end of input` expected.
pub open spec fn source_file(toks: Seq<Tok>, n: int) -> PRes {
    let s = PState { pos: 0, expected: seq![], expected_at: 0 };
    match rule(toks, n, 13, s) {
        Err(e) => Err(e),
        Ok((e1, s1)) => if peek(toks, s1).is_some() {
            Err(record(toks, n, s1, Expect::EndOfInput))
        } else {
            let (f, s2) = flush(toks, s1);
            Ok((wrap(SyntaxKind::SOURCE_FILE, e1 + f), s2))
        },
    }
}

// ====================================================================
// Cursor lemmas
// ====================================================================

/// `next_sig` lands in `i ..= len`, on a significant token or the end, past
/// trivia only.
pub proof fn lemma_next_sig(toks: Seq<Tok>, i: int)
    requires
        0 <= i <= toks.len(),
    ensures
        i <= next_sig(toks, i) <= toks.len(),
        next_sig(toks, i) < toks.len() ==> !toks[next_sig(toks, i)].kind.spec_is_trivia(),
        forall|k: int| i <= k < next_sig(toks, i) ==> (#[trigger] toks[k]).kind.spec_is_trivia(),
    decreases toks.len() - i,
{
    if i < toks.len() && toks[i].kind.spec_is_trivia() {
        lemma_next_sig(toks, i + 1);
    }
}

/// From a significant token, `next_sig` stays put.
pub proof fn lemma_next_sig_at_sig(toks: Seq<Tok>, i: int)
    requires
        0 <= i <= toks.len(),
        i < toks.len() ==> !toks[i].kind.spec_is_trivia(),
    ensures
        next_sig(toks, i) == i,
{
}

/// Appending one token to a run of token events.
pub proof fn lemma_token_events_snoc(toks: Seq<Tok>, i: int, j: int)
    requires
        0 <= i <= j < toks.len(),
    ensures
        token_events(toks, i, j + 1) == token_events(toks, i, j).push(Event::Token(toks[j])),
    decreases j - i,
{
    if i == j {
        assert(token_events(toks, i + 1, j + 1) =~= Seq::<Event>::empty());
        assert(token_events(toks, i, j) =~= Seq::<Event>::empty());
        assert(token_events(toks, i, j + 1) =~= seq![Event::Token(toks[j])]);
    } else {
        lemma_token_events_snoc(toks, i + 1, j);
        assert(token_events(toks, i, j + 1) =~= token_events(toks, i, j).push(
            Event::Token(toks[j]),
        ));
    }
}

/// A run of token events holds only tokens, so it is balanced.
pub proof fn lemma_token_events_balanced(toks: Seq<Tok>, i: int, j: int)
    ensures
        balanced(token_events(toks, i, j)),
        forall|k: int|
            0 <= k < token_events(toks, i, j).len() ==> (#[trigger] token_events(toks, i, j)[k]) is Token,
    decreases j - i,
{
    if 0 <= i < j && j <= toks.len() {
        lemma_token_events_balanced(toks, i + 1, j);
        let r = token_events(toks, i + 1, j);
        assert forall|k: int|
            0 <= k < token_events(toks, i, j).len() implies (#[trigger] token_events(
            toks,
            i,
            j,
        )[k]) is Token by {
            if k > 0 {
                assert(token_events(toks, i, j)[k] == r[k - 1]);
            }
        }
    }
    lemma_balanced_tokens(token_events(toks, i, j));
}

/// The events of a flush or a bump are balanced.
pub proof fn lemma_step_balanced(toks: Seq<Tok>, s: PState)
    ensures
        balanced(flush(toks, s).0),
        balanced(bump(toks, s).0),
{
    lemma_token_events_balanced(toks, s.pos, next_sig(toks, s.pos));
    lemma_token_events_balanced(toks, s.pos, next_sig(toks, s.pos) + 1);
}

/// An empty run of token events.
pub proof fn lemma_token_events_empty(toks: Seq<Tok>, i: int)
    ensures
        token_events(toks, i, i) == Seq::<Event>::empty(),
{
    assert(token_events(toks, i, i) =~= Seq::<Event>::empty());
}

} // verus!
