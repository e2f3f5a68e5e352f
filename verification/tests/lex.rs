//! The lossless lexer's tests: token kinds and texts, boundary cases, and
//! losslessness.

use scarpet::kind::SyntaxKind as K;
use scarpet::lex::{lex, lex_with_text};

/// Full lossless stream as `(kind, text)` pairs.
fn texts(src: &str) -> Vec<(K, &str)> {
    lex_with_text(src)
}

/// Stream with WHITESPACE filtered out.
fn non_ws(src: &str) -> Vec<(K, &str)> {
    lex_with_text(src)
        .into_iter()
        .filter(|(k, _)| *k != K::WHITESPACE)
        .collect()
}


#[test]
fn lex_single_function_expr() {
    assert_eq!(
        texts("println('Hello World!')"),
        [
            (K::IDENT, "println"),
            (K::OPEN_PAREN, "("),
            (K::STRING, "'Hello World!'"),
            (K::CLOSE_PAREN, ")"),
        ]
    );
}

#[test]
fn lex_numeric_literals() {
    assert_eq!(
        non_ws("0xff 1 1.5 1e-10 67E22 0.7"),
        [
            (K::NUMBER, "0xff"),
            (K::NUMBER, "1"),
            (K::NUMBER, "1.5"),
            (K::NUMBER, "1e-10"),
            (K::NUMBER, "67E22"),
            (K::NUMBER, "0.7"),
        ]
    );
}

#[test]
fn lex_identifiers_with_digits() {
    assert_eq!(
        non_ws("block1 __on_start global_color"),
        [
            (K::IDENT, "block1"),
            (K::IDENT, "__on_start"),
            (K::IDENT, "global_color"),
        ]
    );
}

#[test]
fn lex_operators_and_punctuation() {
    assert_eq!(
        non_ws("-> <> ... ^ ! += == != <= >= && ||"),
        [
            (K::ARROW, "->"),
            (K::SWAP, "<>"),
            (K::ELLIPSIS, "..."),
            (K::CARET, "^"),
            (K::BANG, "!"),
            (K::PLUS_EQ, "+="),
            (K::EQ_EQ, "=="),
            (K::BANG_EQ, "!="),
            (K::LT_EQ, "<="),
            (K::GT_EQ, ">="),
            (K::AND_AND, "&&"),
            (K::OR_OR, "||"),
        ]
    );
}

#[test]
fn lex_dollar_treated_as_break() {
    assert_eq!(
        texts("a$b"),
        [(K::IDENT, "a"), (K::NEWLINE, "$"), (K::IDENT, "b")]
    );
}

#[test]
fn lex_crlf_comment_excludes_carriage_return() {
    // The `\r` of a CRLF line ending is whitespace, not part of the
    // comment text, and the `\n` alone is the NEWLINE.
    assert_eq!(
        texts("// hi\r\nx"),
        [
            (K::COMMENT, "// hi"),
            (K::WHITESPACE, "\r"),
            (K::NEWLINE, "\n"),
            (K::IDENT, "x"),
        ]
    );
}

// ===== Boundary cases =====

#[test]
fn number_boundaries() {
    // `.` only joins a number when a digit follows.
    assert_eq!(texts("1."), [(K::NUMBER, "1"), (K::DOT, ".")]);
    // The exponent only joins when it terminates with digits.
    assert_eq!(texts("1e"), [(K::NUMBER, "1"), (K::IDENT, "e")]);
    assert_eq!(
        texts("1e+"),
        [(K::NUMBER, "1"), (K::IDENT, "e"), (K::PLUS, "+")]
    );
    assert_eq!(texts("1.5e"), [(K::NUMBER, "1.5"), (K::IDENT, "e")]);
    assert_eq!(texts("1.5e-10"), [(K::NUMBER, "1.5e-10")]);
    // Hex needs at least one hex digit; `0x` alone backtracks to `0`.
    assert_eq!(texts("0x"), [(K::NUMBER, "0"), (K::IDENT, "x")]);
    assert_eq!(texts("0xFF"), [(K::NUMBER, "0xFF")]);
    assert_eq!(texts("0xZ"), [(K::NUMBER, "0"), (K::IDENT, "xZ")]);
    assert_eq!(
        texts("1..2"),
        [
            (K::NUMBER, "1"),
            (K::DOT, "."),
            (K::DOT, "."),
            (K::NUMBER, "2")
        ]
    );
}

#[test]
fn dots_and_ellipsis() {
    // `..` is two DOTs; `...` is one ELLIPSIS; `....` is ELLIPSIS + DOT.
    assert_eq!(texts(".."), [(K::DOT, "."), (K::DOT, ".")]);
    assert_eq!(texts("..."), [(K::ELLIPSIS, "...")]);
    assert_eq!(texts("...."), [(K::ELLIPSIS, "..."), (K::DOT, ".")]);
}

#[test]
fn lone_ampersand_and_pipe_are_errors() {
    assert_eq!(texts("&"), [(K::ERROR_TOKEN, "&")]);
    assert_eq!(texts("|"), [(K::ERROR_TOKEN, "|")]);
    assert_eq!(texts("&x"), [(K::ERROR_TOKEN, "&"), (K::IDENT, "x")]);
    assert_eq!(texts("&&"), [(K::AND_AND, "&&")]);
    assert_eq!(texts("||"), [(K::OR_OR, "||")]);
}

#[test]
fn strings() {
    assert_eq!(texts("''"), [(K::STRING, "''")]);
    // Escaped quote.
    assert_eq!(texts(r"'a\'b'"), [(K::STRING, r"'a\'b'")]);
    // A backslash escapes anything, including a newline.
    assert_eq!(texts("'a\\\nb'"), [(K::STRING, "'a\\\nb'")]);
}

#[test]
fn unterminated_string_is_one_error_to_eof() {
    // The failed string match swallows everything from the
    // opening quote to end of input as a single error.
    assert_eq!(texts("'abc"), [(K::ERROR_TOKEN, "'abc")]);
    assert_eq!(
        texts("x = 'abc\ny = 1"),
        [
            (K::IDENT, "x"),
            (K::WHITESPACE, " "),
            (K::EQ, "="),
            (K::WHITESPACE, " "),
            (K::ERROR_TOKEN, "'abc\ny = 1"),
        ]
    );
    assert_eq!(texts("'''"), [(K::STRING, "''"), (K::ERROR_TOKEN, "'")]);
}

#[test]
fn dangling_backslash_at_eof_rewinds_the_escape() {
    // The lexer rewinds an escape left incomplete by EOF: the error stops
    // before the backslash and the backslash errors on its own.
    assert_eq!(
        texts(r"'a\"),
        [(K::ERROR_TOKEN, "'a"), (K::ERROR_TOKEN, r"\")]
    );
    assert_eq!(
        texts(r"'\"),
        [(K::ERROR_TOKEN, "'"), (K::ERROR_TOKEN, r"\")]
    );
    // A *completed* escape before the dangling one stays in the error.
    assert_eq!(
        texts(r"'ab\\cd\"),
        [(K::ERROR_TOKEN, r"'ab\\cd"), (K::ERROR_TOKEN, r"\")]
    );
    // ...and an escape completed by a non-EOF byte keeps error-to-EOF.
    assert_eq!(texts("'a\\é"), [(K::ERROR_TOKEN, "'a\\é")]);
}

#[test]
fn non_ascii_is_one_error_per_char() {
    assert_eq!(
        texts("héllo"),
        [(K::IDENT, "h"), (K::ERROR_TOKEN, "é"), (K::IDENT, "llo")]
    );
    assert_eq!(
        texts("日本"),
        [(K::ERROR_TOKEN, "日"), (K::ERROR_TOKEN, "本")]
    );
}

#[test]
fn whitespace_and_newlines() {
    assert_eq!(texts(""), [] as [(K, &str); 0]);
    // Maximal whitespace runs; every `\n` is its own NEWLINE.
    assert_eq!(
        texts(" \t\r\x0C\n\n a"),
        [
            (K::WHITESPACE, " \t\r\x0C"),
            (K::NEWLINE, "\n"),
            (K::NEWLINE, "\n"),
            (K::WHITESPACE, " "),
            (K::IDENT, "a"),
        ]
    );
    // Comments run to end of line, exclusive; `//` at EOF is fine.
    assert_eq!(texts("//"), [(K::COMMENT, "//")]);
    assert_eq!(
        texts("// a $ b\nc"),
        [
            (K::COMMENT, "// a $ b"),
            (K::NEWLINE, "\n"),
            (K::IDENT, "c")
        ]
    );
}

// ===== Lossless property =====

#[test]
fn lossless_on_tricky_sources() {
    let sources = [
        "",
        "println('Hello World!')",
        "1. 1e 1e+ 0x 0xFF 1.5e-10 .. ... & | 'abc",
        "'a\\'b' 'a\\\nb' // comment\r\nx $ y\n",
        "héllo 日本 \u{0C}\t\r",
        "x = 'unterminated\nrest of file",
        r"'trailing backslash\",
    ];
    for src in sources {
        assert_lossless(src);
    }
}

fn assert_lossless(src: &str) {
    let tokens = lex(src);
    let total: u32 = tokens.iter().map(|t| t.len).sum();
    assert_eq!(total, src.len() as u32, "lens must sum to the input length");
    assert!(tokens.iter().all(|t| t.len > 0), "tokens must be non-empty");
    let rebuilt: String = lex_with_text(src).into_iter().map(|(_, text)| text).collect();
    assert_eq!(rebuilt, src, "token texts must reconstruct the source");
}

