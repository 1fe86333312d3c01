use vstd::prelude::*;

use crate::text::bytes_of;
use crate::token::LexToken;

verus! {

/// The value a handler gives to a token.
#[derive(Clone, Debug)]
pub enum AstAny {
    /// No value has been assigned yet.
    Unknow,
    Bool(bool),
    Int(i64),
    Text(String),
}

/// The errors of the engine and of the handlers it drives.
#[derive(Clone, Debug)]
pub enum AstError {
    /// A delimiter opener was never closed: its type, lexeme and line.
    NoMatchClose { ty: &'static str, lexeme: String, lineno: usize },
    /// An error reported by a handler.
    Handler(String),
}

pub type AstResult<T> = Result<T, AstError>;

impl AstError {
    /// The error for an opener that no closer matched.
    pub fn new_no_match_close_error(token: LexToken) -> (r: AstError)
        requires
            token.wf(),
        ensures
            r == (AstError::NoMatchClose {
                ty: token.ty,
                lexeme: r->NoMatchClose_lexeme,
                lineno: token.lineno,
            }),
            bytes_of(r->NoMatchClose_lexeme@) == token.lexeme(),
    {
        let lexeme = token.get_value().to_owned();
        AstError::NoMatchClose { ty: token.ty, lexeme, lineno: token.lineno }
    }
}

/// What interprets a finished token: called once for each root token of the
/// grouped tree, it decides itself whether to walk the token's children.
pub trait Handler {
    fn on_read(&mut self, token: &mut LexToken) -> AstResult<AstAny>;
}

} // verus!
