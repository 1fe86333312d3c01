//! The lexer: configuration, the token matcher, and the driving operations.
use regex::Regex;
use std::sync::Arc;
use vstd::prelude::*;
use vstd::string::StringSliceAdditionalSpecFns;
use vstd::utf8::*;

use crate::ast::{AstAny, AstError, AstResult, Handler};
use crate::group::{
    closer_of, flat_forest, group_run, group_tokens, heads_of, lemma_group_keeps_tokens, trees_of,
    DelimPair,
};
use crate::prec::{build_prec_table, lookup_prec, prec_of, table_matches, PrecEntry};
use crate::text::{
    bytes_of, char_width, char_width_of, lemma_inside_char, lemma_next_boundary, line_at,
    line_number, occurs_at, occurs_in,
};
use crate::token::{LexPrec, LexToken};

verus! {

broadcast use {vstd::utf8::encode_utf8_valid_utf8, vstd::utf8::is_char_boundary_start_end_of_seq};

/// regex::Regex, a compiled pattern: carried through as an opaque value.
#[verifier::external_type_specification]
#[verifier::external_body]
pub struct ExRegex(Regex);

/// Relies on regex::Regex::find_at: it searches `text` from byte `start` on
/// and gives the leftmost match, whose span lies in `[start, len]` with both
/// ends on character boundaries. It panics only when `start` is past the end.
#[verifier::external_body]
fn regex_find_at(re: &Regex, text: &str, start: usize) -> (r: Option<(usize, usize)>)
    requires
        start <= text.spec_bytes().len(),
    ensures
        r matches Some((s, e)) ==> {
            &&& start <= s <= e <= text.spec_bytes().len()
            &&& is_char_boundary(text.spec_bytes(), s as int)
            &&& is_char_boundary(text.spec_bytes(), e as int)
        },
{
    re.find_at(text, start).map(|m| (m.start(), m.end()))
}

/// A pattern rule: tokens of type `ty` are the matches of `re`.
#[derive(Debug)]
pub struct LexRegex {
    pub re: Regex,
    pub ty: &'static str,
}

/// A rule's search result counts only as a non-empty match that starts at
/// the cursor.
pub open spec fn starts_at(m: Option<(usize, usize)>, ori: usize) -> bool {
    m matches Some((s, e)) && s == ori && e > ori
}

/// Of the rules' search results, in order of registration, the first that
/// counts: the earliest registered rule wins, whatever the lengths.
pub fn first_match(found: &Vec<Option<(usize, usize)>>, ori: usize) -> (r: Option<usize>)
    ensures
        match r {
            Some(k) => k < found@.len() && starts_at(found@[k as int], ori) && forall|j: int|
                0 <= j < k ==> !starts_at(#[trigger] found@[j], ori),
            None => forall|j: int| 0 <= j < found@.len() ==> !starts_at(#[trigger] found@[j], ori),
        },
{
    let mut k: usize = 0;
    while k < found.len()
        invariant
            k <= found@.len(),
            forall|j: int| 0 <= j < k ==> !starts_at(#[trigger] found@[j], ori),
        decreases found@.len() - k,
    {
        if let Some((s, e)) = found[k] {
            if s == ori && e > ori {
                return Some(k);
            }
        }
        k = k + 1;
    }
    None
}

/// The bytes of the character that starts at `i`.
pub open spec fn char_span(b: Seq<u8>, i: int) -> Seq<u8> {
    b.subrange(i, i + char_width(b[i]))
}

/// `r` and `after` are what storing the handler's result `res` in the token
/// `before` gives: its value on success, the token untouched on error.
pub open spec fn value_stored(
    before: LexToken,
    res: AstResult<AstAny>,
    after: LexToken,
    r: AstResult<()>,
) -> bool {
    match res {
        Ok(v) => {
            &&& r is Ok
            &&& after.value == v
            &&& after.ty == before.ty
            &&& after.data == before.data
            &&& after.lineno == before.lineno
            &&& after.start == before.start
            &&& after.end == before.end
            &&& after.subs == before.subs
        },
        Err(e) => r == Err::<(), AstError>(e) && after == before,
    }
}

/// Stores a handler's result in a token: the value on success; on error the
/// token stays as it was and the error is passed on.
pub fn store_value(token: &mut LexToken, res: AstResult<AstAny>) -> (r: AstResult<()>)
    ensures
        value_stored(*old(token), res, *final(token), r),
        res matches Ok(v) ==> r is Ok && final(token).value == v,
        res matches Err(e) ==> r == Err::<(), AstError>(e) && *final(token) == *old(token),
{
    match res {
        Ok(v) => {
            token.value = v;
            Ok(())
        },
        Err(e) => Err(e),
    }
}

/// A tokenizer over one text. It scans the text into flat tokens, folds them
/// into a tree along its delimiter pairs, and hands each root to its handler.
pub struct Lexer<H: Handler> {
    pub res: Vec<LexRegex>,
    pub data: Arc<String>,
    pub tokenstack: Vec<LexToken>,
    pub pos: usize,
    pub len: usize,
    pub handler: H,
    pub ignore: &'static str,
    pub literals: &'static str,
    pub hash_matchs: Vec<DelimPair>,
    pub precs: Vec<LexPrec>,
    pub prec_hash: Vec<PrecEntry>,
}

impl<H: Handler> Lexer<H> {
    /// The bytes of the text.
    pub open spec fn bytes(&self) -> Seq<u8> {
        bytes_of(self.data@)
    }

    /// The cursor stands on a character boundary of the text, `len` is the
    /// text's length, and the precedence table follows the declarations.
    pub open spec fn wf(&self) -> bool {
        &&& self.len == self.bytes().len()
        &&& self.len < usize::MAX
        &&& self.pos <= self.len
        &&& is_char_boundary(self.bytes(), self.pos as int)
        &&& table_matches(self.prec_hash@, self.precs@)
    }

    /// What a token read from this text carries.
    pub open spec fn token_of_text(&self, t: LexToken) -> bool {
        &&& t.wf()
        &&& t.data == self.data
        &&& t.start < t.end
        &&& t.lineno == line_at(self.bytes(), t.start as int)
        &&& t.subs@.len() == 0
        &&& t.value == AstAny::Unknow
    }

    /// The character at `q` is one the matcher passes over when no token
    /// starts there: it is ignorable, or it is not a literal.
    pub open spec fn skipped(&self, q: int) -> bool {
        occurs_in(self.ignore.spec_bytes(), char_span(self.bytes(), q)) || !occurs_in(
            self.literals.spec_bytes(),
            char_span(self.bytes(), q),
        )
    }

    /// Every character from `from` up to `to` is one the matcher passes over.
    pub open spec fn skipped_between(&self, from: int, to: int) -> bool {
        forall|q: int|
            from <= q < to && is_char_boundary(self.bytes(), q) ==> #[trigger] self.skipped(q)
    }

    /// `t` is a token the matcher can read with its cursor at `from`: it
    /// starts at or past `from`, only passed-over characters lie between,
    /// and it is a literal character that is not ignorable, or a match of a
    /// pattern rule at a character that is neither ignorable nor a literal.
    pub open spec fn token_step(&self, from: int, t: LexToken) -> bool {
        &&& self.token_of_text(t)
        &&& from <= t.start
        &&& self.skipped_between(from, t.start as int)
        &&& ({
            ||| (t.ty@ == "lit"@ && t.end == t.start + char_width(self.bytes()[t.start as int])
                && occurs_in(self.literals.spec_bytes(), t.lexeme())
                && !occurs_in(self.ignore.spec_bytes(), t.lexeme()))
            ||| (!occurs_in(self.literals.spec_bytes(), char_span(self.bytes(), t.start as int))
                && !occurs_in(self.ignore.spec_bytes(), char_span(self.bytes(), t.start as int))
                && exists|k: int| 0 <= k < self.res@.len() && t.ty == (#[trigger] self.res@[k]).ty)
        })
    }

    /// A token read from `before` that leaves the cursor in `after`.
    pub open spec fn read_step(before: &Self, after: &Self, t: LexToken) -> bool {
        &&& before.token_step(before.pos as int, t)
        &&& t.end == after.pos
    }

    /// Only the cursor moves.
    pub open spec fn same_but_pos(&self, other: &Self) -> bool {
        &&& self.res == other.res
        &&& self.data == other.data
        &&& self.tokenstack == other.tokenstack
        &&& self.len == other.len
        &&& self.handler == other.handler
        &&& self.ignore == other.ignore
        &&& self.literals == other.literals
        &&& self.hash_matchs == other.hash_matchs
        &&& self.precs == other.precs
        &&& self.prec_hash == other.prec_hash
    }

    /// A lexer over `data` with the default configuration: spaces and tabs
    /// ignorable; the single-character literals `+-*/%^<>=!?()[]{}.,;:`;
    /// the pairs `(`/`)`, `{`/`}`, `[`/`]` on literals; and the precedence
    /// declarations `left {+, -}`, `left {*, /}`, `right {-}`.
    pub fn new(data: String, handler: H) -> (r: Lexer<H>)
        requires
            bytes_of(data@).len() < usize::MAX,
        ensures
            r.wf(),
            r.data@ == data@,
            r.pos == 0,
            r.handler == handler,
            r.res@.len() == 0,
            r.tokenstack@.len() == 0,
            r.ignore@ == " \t"@,
            r.literals@ == "+-*/%^<>=!?()[]{}.,;:"@,
            r.hash_matchs@ == seq![
                (DelimPair { ty: "lit", open: "(", close: ")" }),
                (DelimPair { ty: "lit", open: "{", close: "}" }),
                (DelimPair { ty: "lit", open: "[", close: "]" }),
            ],
            r.precs@.len() == 3,
            r.precs@[0].ty == "lit" && r.precs@[0].left && r.precs@[0].precs@ == seq!["+", "-"],
            r.precs@[1].ty == "lit" && r.precs@[1].left && r.precs@[1].precs@ == seq!["*", "/"],
            r.precs@[2].ty == "lit" && !r.precs@[2].left && r.precs@[2].precs@ == seq!["-"],
    {
        let len = data.as_str().len();
        let pairs = vec![
            DelimPair { ty: "lit", open: "(", close: ")" },
            DelimPair { ty: "lit", open: "{", close: "}" },
            DelimPair { ty: "lit", open: "[", close: "]" },
        ];
        let precs = vec![
            LexPrec::new("lit", true, vec!["+", "-"]),
            LexPrec::new("lit", true, vec!["*", "/"]),
            LexPrec::new("lit", false, vec!["-"]),
        ];
        let table = build_prec_table(&precs);
        Lexer {
            res: Vec::new(),
            data: Arc::new(data),
            tokenstack: Vec::new(),
            pos: 0,
            len,
            handler,
            ignore: " \t",
            literals: "+-*/%^<>=!?()[]{}.,;:",
            hash_matchs: pairs,
            precs,
            prec_hash: table,
        }
    }

    /// Appends a pattern rule; earlier rules take priority.
    pub fn add_regex(&mut self, ty: &'static str, re: Regex)
        requires
            old(self).wf(),
        ensures
            final(self).wf(),
            final(self).res@.len() == old(self).res@.len() + 1,
            forall|k: int| 0 <= k < old(self).res@.len() ==> final(self).res@[k] == old(self).res@[k],
            final(self).res@.last().ty == ty,
            final(self).res@.last().re == re,
            final(self).data == old(self).data,
            final(self).pos == old(self).pos,
            final(self).hash_matchs == old(self).hash_matchs,
            final(self).precs == old(self).precs,
            final(self).tokenstack == old(self).tokenstack,
            final(self).handler == old(self).handler,
            final(self).ignore == old(self).ignore,
            final(self).literals == old(self).literals,
            final(self).prec_hash == old(self).prec_hash,
            final(self).len == old(self).len,
    {
        let reg = LexRegex { ty, re };
        self.res.push(reg);
    }

    /// Registers `end` as the closer of the opener `start` for tokens of type
    /// `ty`, replacing an earlier registration of the same opener.
    pub fn add_hash_match(&mut self, ty: &'static str, start: &'static str, end: &'static str)
        requires
            old(self).wf(),
        ensures
            final(self).wf(),
            final(self).hash_matchs@ == old(self).hash_matchs@.push(
                DelimPair { ty, open: start, close: end },
            ),
            final(self).res == old(self).res,
            final(self).data == old(self).data,
            final(self).pos == old(self).pos,
            final(self).precs == old(self).precs,
            final(self).tokenstack == old(self).tokenstack,
            final(self).handler == old(self).handler,
            final(self).ignore == old(self).ignore,
            final(self).literals == old(self).literals,
            final(self).prec_hash == old(self).prec_hash,
            final(self).len == old(self).len,
            closer_of(final(self).hash_matchs@, ty@, bytes_of(start@)) == Some(bytes_of(end@)),
            forall|t: Seq<char>, o: Seq<u8>|
                !(t == ty@ && o == bytes_of(start@)) ==> #[trigger] closer_of(
                    final(self).hash_matchs@,
                    t,
                    o,
                ) == closer_of(old(self).hash_matchs@, t, o),
    {
        proof {
            assert(old(self).hash_matchs@.push(DelimPair { ty, open: start, close: end }).drop_last()
                =~= old(self).hash_matchs@);
        }
        self.hash_matchs.push(DelimPair { ty, open: start, close: end });
    }

    /// The associativity (left or not) and rank of `(ty, lexeme)`.
    pub fn get_prec(&self, ty: &str, lexeme: &str) -> (r: Option<(bool, usize)>)
        requires
            self.wf(),
        ensures
            match r {
                None => prec_of(self.precs@, ty@, lexeme@) is None,
                Some((left, rank)) => prec_of(self.precs@, ty@, lexeme@) == Some((left, rank as nat)),
            },
    {
        lookup_prec(&self.prec_hash, ty, lexeme)
    }

    /// The offset of the character after the one at `ori`: its width is read
    /// from its leading byte. None at or past the end, or where the width
    /// would reach past it.
    pub fn get_next_pos(&self, ori: usize) -> (r: Option<usize>)
        requires
            self.wf(),
        ensures
            ori >= self.bytes().len() ==> r is None,
            ori < self.bytes().len() ==> r == if ori + char_width(self.bytes()[ori as int])
                <= self.bytes().len() {
                Some((ori + char_width(self.bytes()[ori as int])) as usize)
            } else {
                None
            },
            ori < self.bytes().len() && is_char_boundary(self.bytes(), ori as int) ==> r is Some
                && is_char_boundary(self.bytes(), r->0 as int),
    {
        let bytes = self.data.as_str().as_bytes();
        if ori >= bytes.len() {
            return None;
        }
        let w = char_width_of(bytes[ori]);
        proof {
            if is_char_boundary(self.bytes(), ori as int) {
                lemma_next_boundary(self.bytes(), ori as int);
            }
        }
        if w > bytes.len() - ori {
            None
        } else {
            Some(ori + w)
        }
    }

    /// The 1-based line of byte offset `pos`.
    pub fn get_now_lineno(&self, pos: usize) -> (r: usize)
        requires
            self.wf(),
            pos <= self.bytes().len(),
        ensures
            r == line_at(self.bytes(), pos as int),
    {
        line_number(self.data.as_str().as_bytes(), pos)
    }

    /// Reads the next flat token from the cursor on. Ignorable characters are
    /// stepped over; a literal character is a token of type `lit`; otherwise
    /// the first pattern rule, in order of registration, whose match starts at
    /// the cursor and is not empty gives the token; a character that nothing
    /// recognizes is skipped. None once the end of the text is reached.
    pub fn get_token(&mut self) -> (r: Option<LexToken>)
        requires
            old(self).wf(),
        ensures
            final(self).wf(),
            final(self).same_but_pos(old(self)),
            match r {
                Some(t) => Self::read_step(old(self), final(self), t),
                None => final(self).pos == final(self).len && old(self).skipped_between(
                    old(self).pos as int,
                    old(self).len as int,
                ),
            },
    {
        let mut ori = self.pos;
        loop
            invariant
                self.wf(),
                self.same_but_pos(old(self)),
                old(self).pos <= self.pos <= ori <= self.len,
                is_char_boundary(self.bytes(), ori as int),
                old(self).skipped_between(old(self).pos as int, ori as int),
            decreases self.len - ori,
        {
            let next = match self.get_next_pos(ori) {
                None => {
                    self.pos = ori;
                    return None;
                },
                Some(p) => p,
            };
            let text: &str = self.data.as_str();
            let bytes = text.as_bytes();
            assert(bytes@ == self.bytes());
            proof {
                assert forall|q: int| ori < q < next implies !is_char_boundary(self.bytes(), q) by {
                    lemma_inside_char(self.bytes(), ori as int, q);
                }
            }
            if occurs_at(self.ignore.as_bytes(), bytes, ori, next) {
                self.pos = next;
                ori = next;
                continue;
            }
            if occurs_at(self.literals.as_bytes(), bytes, ori, next) {
                self.pos = next;
                let lineno = line_number(bytes, ori);
                let t = LexToken {
                    ty: "lit",
                    data: self.data.clone(),
                    lineno,
                    start: ori,
                    end: next,
                    subs: Vec::new(),
                    value: AstAny::Unknow,
                };
                return Some(t);
            }
            let mut found: Vec<Option<(usize, usize)>> = Vec::new();
            let mut hit = false;
            while found.len() < self.res.len() && !hit
                invariant
                    self.wf(),
                    self.same_but_pos(old(self)),
                    ori < self.len,
                    text@ == self.data@,
                    found@.len() <= self.res@.len(),
                    hit == (found@.len() > 0 && starts_at(found@.last(), ori)),
                    forall|j: int| 0 <= j < found@.len() - 1 ==> !starts_at(#[trigger] found@[j], ori),
                    forall|j: int|
                        0 <= j < found@.len() ==> (#[trigger] found@[j] matches Some((s, e)) ==> {
                            &&& e <= self.len
                            &&& is_char_boundary(self.bytes(), e as int)
                        }),
                decreases self.res@.len() - found@.len(),
            {
                let m = regex_find_at(&self.res[found.len()].re, text, ori);
                hit = match m {
                    Some((s, e)) => s == ori && e > ori,
                    None => false,
                };
                found.push(m);
            }
            if let Some(k) = first_match(&found, ori) {
                if let Some((_s, e)) = found[k] {
                    self.pos = e;
                    let lineno = line_number(bytes, ori);
                    let t = LexToken {
                        ty: self.res[k].ty,
                        data: self.data.clone(),
                        lineno,
                        start: ori,
                        end: e,
                        subs: Vec::new(),
                        value: AstAny::Unknow,
                    };
                    assert(t.ty == old(self).res@[k as int].ty);
                    return Some(t);
                }
            }
            ori = next;
        }
    }

    /// Tokens read one after another from `before`: each is a token of its
    /// text, they follow each other without overlap, and they lie between the
    /// old cursor and the end of the text.
    pub open spec fn scanned(before: &Self, toks: Seq<LexToken>) -> bool {
        &&& toks.len() > 0 ==> before.token_step(before.pos as int, toks[0])
        &&& forall|i: int|
            0 <= i < toks.len() - 1 ==> #[trigger] before.token_step(toks[i].end as int, toks[i + 1])
        &&& forall|i: int| 0 <= i < toks.len() ==> before.token_of_text(#[trigger] toks[i])
        &&& forall|i: int| 0 <= i < toks.len() ==> before.pos <= (#[trigger] toks[i]).start
        &&& forall|i: int| 0 <= i < toks.len() ==> (#[trigger] toks[i]).end <= before.len
        &&& forall|i: int, j: int| 0 <= i < j < toks.len() ==> (#[trigger] toks[i]).end <= (#[trigger] toks[j]).start
    }

    /// Around and between tokens read from `before` lie only characters the
    /// matcher steps over.
    pub open spec fn gaps_skipped(before: &Self, toks: Seq<LexToken>) -> bool {
        &&& toks.len() == 0 ==> before.skipped_between(before.pos as int, before.len as int)
        &&& toks.len() > 0 ==> before.skipped_between(before.pos as int, toks[0].start as int)
        &&& toks.len() > 0 ==> before.skipped_between(toks.last().end as int, before.len as int)
        &&& forall|i: int|
            0 <= i < toks.len() - 1 ==> #[trigger] before.skipped_between(
                toks[i].end as int,
                toks[i + 1].start as int,
            )
    }

    /// Which characters are stepped over depends on the text and the two
    /// character sets alone.
    proof fn lemma_skipped_same(a: &Self, b: &Self, from: int, to: int)
        requires
            a.data == b.data,
            a.ignore == b.ignore,
            a.literals == b.literals,
            a.skipped_between(from, to),
        ensures
            b.skipped_between(from, to),
    {
        assert forall|q: int| from <= q < to && is_char_boundary(b.bytes(), q) implies #[trigger] b.skipped(q) by {
            assert(a.skipped(q));
        }
    }

    /// Whether a token can be read from a position does not depend on the
    /// cursor.
    proof fn lemma_step_same(a: &Self, b: &Self, from: int, t: LexToken)
        requires
            a.same_but_pos(b),
            a.token_step(from, t),
        ensures
            b.token_step(from, t),
    {
        Self::lemma_skipped_same(a, b, from, t.start as int);
        if !(t.ty@ == "lit"@ && t.end == t.start + char_width(a.bytes()[t.start as int])
            && occurs_in(a.literals.spec_bytes(), t.lexeme()) && !occurs_in(
            a.ignore.spec_bytes(),
            t.lexeme(),
        )) {
            let k = choose|k: int| 0 <= k < a.res@.len() && t.ty == (#[trigger] a.res@[k]).ty;
            assert(t.ty == b.res@[k].ty);
        }
    }

    /// Reads tokens until the end of the text.
    pub fn read_tokens(&mut self) -> (r: Vec<LexToken>)
        requires
            old(self).wf(),
        ensures
            final(self).wf(),
            final(self).same_but_pos(old(self)),
            final(self).pos == final(self).len,
            Self::scanned(old(self), r@),
            Self::gaps_skipped(old(self), r@),
    {
        let mut out: Vec<LexToken> = Vec::new();
        let mut done = false;
        while !done
            invariant
                self.wf(),
                self.same_but_pos(old(self)),
                old(self).pos <= self.pos,
                done ==> self.pos == self.len,
                Self::scanned(old(self), out@),
                forall|i: int| 0 <= i < out@.len() ==> (#[trigger] out@[i]).end <= self.pos,
                !done && out@.len() == 0 ==> self.pos == old(self).pos,
                !done && out@.len() > 0 ==> self.pos == out@.last().end,
                out@.len() > 0 ==> old(self).skipped_between(
                    old(self).pos as int,
                    out@[0].start as int,
                ),
                forall|i: int|
                    0 <= i < out@.len() - 1 ==> #[trigger] old(self).skipped_between(
                        out@[i].end as int,
                        out@[i + 1].start as int,
                    ),
                done && out@.len() == 0 ==> old(self).skipped_between(
                    old(self).pos as int,
                    self.len as int,
                ),
                done && out@.len() > 0 ==> old(self).skipped_between(
                    out@.last().end as int,
                    self.len as int,
                ),
            decreases self.len - self.pos + if done { 0int } else { 1int },
        {
            let ghost prev = out@;
            let ghost before = *self;
            match self.get_token() {
                Some(t) => {
                    proof {
                        Self::lemma_skipped_same(&before, old(self), before.pos as int, t.start as int);
                        Self::lemma_step_same(&before, old(self), before.pos as int, t);
                    }
                    out.push(t);
                    assert(out@.drop_last() == prev);
                    assert(out@.last() == t);
                    assert forall|i: int| 0 <= i < out@.len() - 1 implies #[trigger] old(self).skipped_between(
                        out@[i].end as int,
                        out@[i + 1].start as int,
                    ) by {
                        assert(out@[i] == prev[i]);
                        if i < out@.len() - 2 {
                            assert(out@[i + 1] == prev[i + 1]);
                            assert(old(self).skipped_between(prev[i].end as int, prev[i + 1].start as int));
                        } else {
                            assert(prev.last() == prev[i]);
                        }
                    }
                },
                None => {
                    done = true;
                    proof {
                        Self::lemma_skipped_same(&before, old(self), before.pos as int, before.len as int);
                    }
                },
            }
        }
        out
    }

    /// Reads the whole text and folds its tokens into the tree, which is kept
    /// in `tokenstack`. Fails with the outermost opener left unclosed.
    pub fn parser_token(&mut self) -> (r: AstResult<()>)
        requires
            old(self).wf(),
        ensures
            final(self).wf(),
            final(self).pos == final(self).len,
            final(self).data == old(self).data,
            final(self).res == old(self).res,
            final(self).hash_matchs == old(self).hash_matchs,
            final(self).precs == old(self).precs,
            final(self).handler == old(self).handler,
            exists|flat: Seq<LexToken>|
                {
                    let st = group_run(old(self).hash_matchs@, flat);
                    &&& #[trigger] Self::scanned(old(self), flat)
                    &&& Self::gaps_skipped(old(self), flat)
                    &&& match r {
                        Ok(_) => st.pending.len() == 0 && trees_of(final(self).tokenstack@)
                            == st.build && flat_forest(st.build) == heads_of(flat),
                        Err(e) => st.pending.len() > 0 && e is NoMatchClose
                            && e->NoMatchClose_ty@ == st.pending[0].ty
                            && bytes_of(e->NoMatchClose_lexeme@) == st.pending[0].lexeme
                            && e->NoMatchClose_lineno == st.pending[0].lineno
                            && final(self).tokenstack == old(self).tokenstack,
                    }
                },
    {
        let flat = self.read_tokens();
        let ghost fl = flat@;
        proof {
            lemma_group_keeps_tokens(self.hash_matchs@, fl);
        }
        match group_tokens(flat, &self.hash_matchs) {
            Ok(v) => {
                self.tokenstack = v;
                assert(Self::scanned(old(self), fl) && Self::gaps_skipped(old(self), fl));
                Ok(())
            },
            Err(o) => {
                let e = AstError::new_no_match_close_error(o);
                assert(Self::scanned(old(self), fl) && Self::gaps_skipped(old(self), fl));
                Err(e)
            },
        }
    }

    /// Hands `token` to `handler` and stores the value it gives.
    pub fn read_token(handler: &mut H, token: &mut LexToken) -> (r: AstResult<()>)
        ensures
            exists|mid: LexToken, res: AstResult<AstAny>|
                #[trigger] value_stored(mid, res, *final(token), r),
    {
        let res = handler.on_read(token);
        let ghost mid = *token;
        let ghost given = res;
        let r = store_value(token, res);
        assert(value_stored(mid, given, *token, r));
        r
    }

    /// Hands one root token to the lexer's handler; only the handler changes.
    pub fn iter_read_token(&mut self, token: LexToken) -> (r: AstResult<()>)
        ensures
            final(self).res == old(self).res,
            final(self).data == old(self).data,
            final(self).tokenstack == old(self).tokenstack,
            final(self).pos == old(self).pos,
            final(self).len == old(self).len,
            final(self).ignore == old(self).ignore,
            final(self).literals == old(self).literals,
            final(self).hash_matchs == old(self).hash_matchs,
            final(self).precs == old(self).precs,
            final(self).prec_hash == old(self).prec_hash,
            exists|mid: LexToken, res: AstResult<AstAny>, after: LexToken|
                #[trigger] value_stored(mid, res, after, r),
    {
        let mut token = token;
        Self::read_token(&mut self.handler, &mut token)
    }

    /// Groups the text if that has not been done, then hands each root token
    /// of the tree, from left to right, to the handler, stopping at the first
    /// error it reports.
    pub fn eval(&mut self) -> (r: AstResult<AstAny>)
        requires
            old(self).wf(),
        ensures
            final(self).data == old(self).data,
            r is Ok ==> r == Ok::<AstAny, AstError>(AstAny::Unknow),
            r is Ok ==> final(self).tokenstack@.len() == 0,
            old(self).tokenstack@.len() == 0 ==> exists|flat: Seq<LexToken>|
                {
                    let st = group_run(old(self).hash_matchs@, flat);
                    &&& #[trigger] Self::scanned(old(self), flat)
                    &&& Self::gaps_skipped(old(self), flat)
                    &&& st.pending.len() > 0 ==> {
                        &&& r matches Err(e) && e is NoMatchClose
                            && e->NoMatchClose_ty@ == st.pending[0].ty
                            && bytes_of(e->NoMatchClose_lexeme@) == st.pending[0].lexeme
                            && e->NoMatchClose_lineno == st.pending[0].lineno
                        &&& final(self).handler == old(self).handler
                    }
                    &&& st.pending.len() == 0 && st.build.len() == 0 ==> r == Ok::<
                        AstAny,
                        AstError,
                    >(AstAny::Unknow)
                },
    {
        let ghost mut wit: Seq<LexToken> = Seq::empty();
        if self.tokenstack.len() == 0 {
            match self.parser_token() {
                Ok(_) => {
                    proof {
                        wit = choose|flat: Seq<LexToken>|
                            #[trigger] Self::scanned(old(self), flat) && Self::gaps_skipped(
                                old(self),
                                flat,
                            ) && group_run(old(self).hash_matchs@, flat).pending.len() == 0
                                && trees_of(self.tokenstack@) == group_run(
                                old(self).hash_matchs@,
                                flat,
                            ).build;
                        assert(trees_of(self.tokenstack@).len() == self.tokenstack@.len());
                    }
                    if self.tokenstack.len() == 0 {
                        return Ok(AstAny::Unknow);
                    }
                },
                Err(e) => return Err(e),
            }
        }
        let mut temp: Vec<LexToken> = Vec::new();
        std::mem::swap(&mut temp, &mut self.tokenstack);
        let mut rev: Vec<LexToken> = Vec::new();
        while temp.len() > 0
            invariant
                self.tokenstack@.len() == 0,
                self.data == old(self).data,
                old(self).tokenstack@.len() == 0 ==> {
                    &&& Self::scanned(old(self), wit)
                    &&& Self::gaps_skipped(old(self), wit)
                    &&& group_run(old(self).hash_matchs@, wit).pending.len() == 0
                    &&& group_run(old(self).hash_matchs@, wit).build.len() > 0
                },
            decreases temp@.len(),
        {
            let t = temp.pop().unwrap();
            rev.push(t);
        }
        while rev.len() > 0
            invariant
                self.tokenstack@.len() == 0,
                self.data == old(self).data,
                old(self).tokenstack@.len() == 0 ==> {
                    &&& Self::scanned(old(self), wit)
                    &&& Self::gaps_skipped(old(self), wit)
                    &&& group_run(old(self).hash_matchs@, wit).pending.len() == 0
                    &&& group_run(old(self).hash_matchs@, wit).build.len() > 0
                },
            decreases rev@.len(),
        {
            let t = rev.pop().unwrap();
            match self.iter_read_token(t) {
                Ok(_) => {},
                Err(e) => return Err(e),
            }
        }
        Ok(AstAny::Unknow)
    }
}

} // verus!
