//! Tokens, precedence declarations and group values.
use std::sync::Arc;
use vstd::prelude::*;
use vstd::string::StringSliceAdditionalSpecFns;
use vstd::utf8::*;

use crate::ast::AstAny;
use crate::text::{bytes_of, lemma_prefix_boundary};

verus! {

broadcast use vstd::utf8::encode_utf8_valid_utf8;

/// A span `[start, end)` of a shared text, with its type, its line, the tokens
/// nested under it and the value a handler gave it.
#[derive(Debug)]
pub struct LexToken {
    pub ty: &'static str,
    pub data: Arc<String>,
    pub lineno: usize,
    pub start: usize,
    pub end: usize,
    pub subs: Vec<LexToken>,
    pub value: AstAny,
}

impl LexToken {
    /// The bytes of the text the token refers to.
    pub open spec fn text_bytes(&self) -> Seq<u8> {
        bytes_of(self.data@)
    }

    /// The span lies within the text, both ends on character boundaries.
    pub open spec fn wf(&self) -> bool {
        &&& self.start <= self.end
        &&& self.end <= self.text_bytes().len()
        &&& is_char_boundary(self.text_bytes(), self.start as int)
        &&& is_char_boundary(self.text_bytes(), self.end as int)
    }

    /// The bytes the token covers.
    pub open spec fn lexeme(&self) -> Seq<u8> {
        self.text_bytes().subrange(self.start as int, self.end as int)
    }

    /// The text the token covers.
    pub fn get_value(&self) -> (r: &str)
        requires
            self.wf(),
        ensures
            r.spec_bytes() == self.lexeme(),
    {
        let s: &str = self.data.as_str();
        proof {
            lemma_prefix_boundary(self.text_bytes(), self.start as int, self.end as int);
        }
        let (pre, _rest) = s.split_at(self.end);
        let (_before, v) = pre.split_at(self.start);
        assert(v.spec_bytes() =~= self.lexeme());
        v
    }

    /// A copy of the token without children and without a value.
    pub fn clone_base_token(&self) -> (r: LexToken)
        ensures
            r.ty == self.ty,
            r.data == self.data,
            r.lineno == self.lineno,
            r.start == self.start,
            r.end == self.end,
            r.subs@.len() == 0,
            r.value == AstAny::Unknow,
    {
        LexToken {
            ty: self.ty,
            data: self.data.clone(),
            lineno: self.lineno,
            start: self.start,
            end: self.end,
            subs: Vec::new(),
            value: AstAny::Unknow,
        }
    }
}

/// One precedence declaration: a token type, whether its lexemes associate to
/// the left, and the lexemes that share its rank.
#[derive(Clone, Debug)]
pub struct LexPrec {
    pub ty: &'static str,
    pub left: bool,
    pub precs: Vec<&'static str>,
}

impl LexPrec {
    pub fn new(ty: &'static str, left: bool, precs: Vec<&'static str>) -> (r: Self)
        ensures
            r.ty == ty,
            r.left == left,
            r.precs@ == precs@,
    {
        LexPrec { ty, left, precs }
    }
}

/// A nested group of groups.
#[derive(Debug)]
pub struct LexGroupToken {
    pub tokens: Vec<LexGroupToken>,
}

/// Either a group of tokens or a single token.
#[derive(Debug)]
pub enum GroupOrToken {
    Group(Vec<LexToken>),
    Token(LexToken),
}

impl GroupOrToken {
    /// An empty group.
    pub fn group() -> (r: GroupOrToken)
        ensures
            r matches GroupOrToken::Group(v) && v@.len() == 0,
    {
        GroupOrToken::Group(Vec::new())
    }

    /// A group that holds just `token`.
    pub fn group_by_token(token: LexToken) -> (r: GroupOrToken)
        ensures
            r matches GroupOrToken::Group(v) && v@ == seq![token],
    {
        GroupOrToken::Group(vec![token])
    }
}

} // verus!
