use vstd::prelude::*;

pub mod kind;
pub mod syntax;
pub mod lex;
pub mod lexer;
pub mod tree;
pub mod grammar;
pub mod cst_grammar;
pub mod ftree;
pub mod token_cover;
pub mod green;
pub mod parse;
pub mod parser;
pub mod ops;
pub mod cst;
pub mod cst_lower;
pub mod ast;
pub mod corpus;
pub mod vm;

verus! {
}
