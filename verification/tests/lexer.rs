//! The front end's lexer tests: token kinds and texts, and losslessness.

use scarpet::lexer::{Token, lex};
use scarpet::syntax::SyntaxKind::{self, AMP2, ARROW, BANG, BANG_EQ, BREAK, CARET, COMMENT, DOT, DOT3, EQ2, ERROR, GT_EQ, IDENT, LT_EQ, LT_GT, L_PAREN, NUMBER, PIPE2, PLUS, PLUS_EQ, R_PAREN, STRING, WHITESPACE};

    /// The non-trivia (kind, text) pairs of `src`.
    fn kinds(src: &str) -> Vec<(SyntaxKind, &str)> {
        lex(src)
            .into_iter()
            .filter(|t| t.kind != WHITESPACE)
            .map(|t| (t.kind, t.text))
            .collect()
    }

    #[test]
    fn lexer_single_function_expr() {
        assert_eq!(
            kinds("println('Hello World!')"),
            [
                (IDENT, "println"),
                (L_PAREN, "("),
                (STRING, "'Hello World!'"),
                (R_PAREN, ")"),
            ]
        );
    }

    #[test]
    fn lexer_numeric_literals() {
        assert_eq!(
            kinds("0xff 1 1.5 1e-10 67E22 0.7"),
            [
                (NUMBER, "0xff"),
                (NUMBER, "1"),
                (NUMBER, "1.5"),
                (NUMBER, "1e-10"),
                (NUMBER, "67E22"),
                (NUMBER, "0.7"),
            ]
        );
    }

    #[test]
    fn incomplete_number_suffixes_back_off() {
        assert_eq!(kinds("1."), [(NUMBER, "1"), (DOT, ".")]);
        assert_eq!(kinds("1e"), [(NUMBER, "1"), (IDENT, "e")]);
        assert_eq!(kinds("1e+"), [(NUMBER, "1"), (IDENT, "e"), (PLUS, "+")]);
        assert_eq!(kinds("0x"), [(NUMBER, "0"), (IDENT, "x")]);
    }

    #[test]
    fn lexer_identifiers_with_digits() {
        assert_eq!(
            kinds("block1 __on_start global_color"),
            [
                (IDENT, "block1"),
                (IDENT, "__on_start"),
                (IDENT, "global_color"),
            ]
        );
    }

    #[test]
    fn lexer_operators_and_punctuation() {
        let src = "-> <> ... ^ ! += == != <= >= && ||";
        let got: Vec<SyntaxKind> = kinds(src).into_iter().map(|(k, _)| k).collect();
        assert_eq!(
            got,
            [
                ARROW, LT_GT, DOT3, CARET, BANG, PLUS_EQ, EQ2, BANG_EQ, LT_EQ, GT_EQ, AMP2, PIPE2
            ]
        );
    }

    #[test]
    fn lexer_dollar_treated_as_break() {
        assert_eq!(kinds("a$b"), [(IDENT, "a"), (BREAK, "$"), (IDENT, "b")]);
    }

    #[test]
    fn lexer_crlf_comment_excludes_carriage_return() {
        // A `\r` before the newline (CRLF source) is whitespace, not part of
        // the comment text, and the `\n` alone is the Break.
        assert_eq!(
            kinds("// hi\r\nx"),
            [(COMMENT, "// hi"), (BREAK, "\n"), (IDENT, "x")]
        );
    }

    #[test]
    fn escaped_quote_stays_inside_string() {
        assert_eq!(kinds(r"'a\'b'"), [(STRING, r"'a\'b'")]);
    }

    #[test]
    fn unterminated_string_is_an_error_token() {
        assert_eq!(kinds("'abc"), [(ERROR, "'abc")]);
    }

    #[test]
    fn lone_ampersand_and_pipe_are_error_tokens() {
        assert_eq!(kinds("&"), [(ERROR, "&")]);
        assert_eq!(kinds("|"), [(ERROR, "|")]);
    }

    #[test]
    fn lexing_is_lossless() {
        let src = "foo(a, b) -> ( // c\n  a + b;\n)\r\n";
        let rebuilt: String = lex(src).iter().map(|t| t.text).collect();
        assert_eq!(rebuilt, src);
        // Offsets are contiguous.
        let mut pos = 0;
        for t in lex(src) {
            assert_eq!(t.start, pos, "token {t:?} starts at the previous end");
            pos = t.end();
        }
        assert_eq!(pos, src.len());
    }

    #[test]
    fn non_ascii_is_a_single_error_token() {
        let toks: Vec<Token> = lex("é");
        assert_eq!(toks.len(), 1);
        assert_eq!(toks[0].kind, ERROR);
        assert_eq!(toks[0].text, "é");
    }
