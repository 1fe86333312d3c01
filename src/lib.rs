//! A tokenizer engine: flat scanning of text into typed tokens, folding of the
//! token stream into a tree along configurable delimiter pairs, and a
//! precedence table for literal operators.

pub mod ast;
pub mod group;
pub mod lexer;
pub mod prec;
pub mod text;
pub mod token;

pub use ast::{AstAny, AstError, AstResult, Handler};
pub use group::{group_tokens, DelimPair};
pub use lexer::{first_match, store_value, LexRegex, Lexer};
pub use prec::{build_prec_table, lookup_prec, PrecEntry};
pub use token::{GroupOrToken, LexGroupToken, LexPrec, LexToken};
