# scarpet

Lexing, parsing and lowering for Scarpet, the scripting language of the
Carpet mod for Minecraft, written in Verus: every function of the library
carries a contract, and Verus proves that the code meets it.

## Layout

`src/` is the verified library.

| Module | What it holds |
| --- | --- |
| `kind`, `syntax` | the token and node kinds of the two syntax trees |
| `lex`, `lexer` | lossless lexers: every byte lands in exactly one token |
| `grammar`, `parse`, `tree`, `green` | the parser that builds a `rowan` green tree, its grammar as a specification, and its delimiter pre-pass and error messages |
| `cst_grammar`, `parser`, `ftree`, `token_cover` | the front end's parser, its grammar, the tree it builds from its events, and the proof that the tree holds every token once, in order |
| `cst`, `cst_lower` | the compact tree with its trivia, its value, copying and stripping (with the laws of stripping), and its lowering from the front end's tree |
| `ast` | the typed syntax tree and its fallible lowering from the compact tree |
| `ops` | operator classification and atom kinds |
| `corpus` | the tally of a corpus run |
| `vm` | the evaluator's errors, its integer and literal arithmetic, the decisions of a destructuring assignment, and the string form of the `~` match |

`tests/` exercises the library from outside. `app/` holds what stays
unverified: the corpus runner (`main.rs`) and the evaluator
(`scarpet_vm`), whose values are built on floating point, trait-object
lists and shared, lock-guarded slots, and which calls the library for its
arithmetic on integers and literals, its destructuring decisions and its
regular-expression matching.
