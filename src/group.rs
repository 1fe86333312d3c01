//! Folding a flat token stream into a tree along delimiter pairs.
use vstd::prelude::*;
use vstd::string::StringSliceAdditionalSpecFns;

use crate::text::{bytes_of, str_eq};
use crate::token::LexToken;

verus! {

broadcast use {vstd::std_specs::vec::group_vec_axioms, vstd::utf8::encode_utf8_decode_utf8};

/// A delimiter pair: for tokens of type `ty`, the lexeme `open` starts a group
/// that the lexeme `close` ends.
#[derive(Clone, Copy, Debug)]
pub struct DelimPair {
    pub ty: &'static str,
    pub open: &'static str,
    pub close: &'static str,
}

/// What grouping reads of a token: its type, lexeme, line and span.
pub ghost struct Head {
    pub ty: Seq<char>,
    pub lexeme: Seq<u8>,
    pub lineno: usize,
    pub start: usize,
    pub end: usize,
}

/// A token with the tokens nested under it.
pub ghost struct TokTree {
    pub head: Head,
    pub subs: Seq<TokTree>,
}

pub open spec fn head_of(t: LexToken) -> Head {
    Head { ty: t.ty@, lexeme: t.lexeme(), lineno: t.lineno, start: t.start, end: t.end }
}

pub open spec fn leaf(h: Head) -> TokTree {
    TokTree { head: h, subs: Seq::empty() }
}

/// The tree a token heads.
pub open spec fn tree_of(t: LexToken) -> TokTree
    decreases t,
{
    TokTree {
        head: head_of(t),
        subs: Seq::new(
            t.subs@.len(),
            |i: int|
                if 0 <= i < t.subs@.len() {
                    tree_of(t.subs@[i])
                } else {
                    leaf(head_of(t))
                },
        ),
    }
}

pub open spec fn trees_of(s: Seq<LexToken>) -> Seq<TokTree> {
    s.map_values(|t: LexToken| tree_of(t))
}

pub open spec fn heads_of(s: Seq<LexToken>) -> Seq<Head> {
    s.map_values(|t: LexToken| head_of(t))
}

/// The closer registered for the opener `open` of type `ty`; of several
/// registrations of one key the last counts.
pub open spec fn closer_of(pairs: Seq<DelimPair>, ty: Seq<char>, open: Seq<u8>) -> Option<Seq<u8>>
    decreases pairs.len(),
{
    if pairs.len() == 0 {
        None
    } else if pairs.last().ty@ == ty && bytes_of(pairs.last().open@) == open {
        Some(bytes_of(pairs.last().close@))
    } else {
        closer_of(pairs.drop_last(), ty, open)
    }
}

pub open spec fn is_opener(pairs: Seq<DelimPair>, h: Head) -> bool {
    closer_of(pairs, h.ty, h.lexeme) is Some
}

/// Whether `h` closes the group that `opener` started.
pub open spec fn closes(pairs: Seq<DelimPair>, opener: Head, h: Head) -> bool {
    opener.ty == h.ty && closer_of(pairs, opener.ty, opener.lexeme) == Some(h.lexeme)
}

pub open spec fn with_child(p: TokTree, c: TokTree) -> TokTree {
    TokTree { head: p.head, subs: p.subs.push(c) }
}

/// The state of a grouping pass: the roots and open groups built so far, and
/// the openers that wait for their closers.
pub ghost struct GroupState {
    pub build: Seq<TokTree>,
    pub pending: Seq<Head>,
}

/// One token of the pass.
pub open spec fn group_step(pairs: Seq<DelimPair>, st: GroupState, t: LexToken) -> GroupState {
    let h = head_of(t);
    if is_opener(pairs, h) {
        GroupState { build: st.build.push(tree_of(t)), pending: st.pending.push(h) }
    } else if st.pending.len() > 0 {
        let top = with_child(st.build.last(), tree_of(t));
        let rest = st.build.drop_last();
        if closes(pairs, st.pending.last(), h) {
            let pending = st.pending.drop_last();
            if pending.len() > 0 {
                GroupState { build: rest.drop_last().push(with_child(rest.last(), top)), pending }
            } else {
                GroupState { build: rest.push(top), pending }
            }
        } else {
            GroupState { build: rest.push(top), pending: st.pending }
        }
    } else {
        GroupState { build: st.build.push(tree_of(t)), pending: st.pending }
    }
}

/// The state after a pass over `tokens`.
pub open spec fn group_run(pairs: Seq<DelimPair>, tokens: Seq<LexToken>) -> GroupState
    decreases tokens.len(),
{
    if tokens.len() == 0 {
        GroupState { build: Seq::empty(), pending: Seq::empty() }
    } else {
        group_step(pairs, group_run(pairs, tokens.drop_last()), tokens.last())
    }
}

/// The closer registered for an opener, the last registration winning.
pub fn find_closer(pairs: &Vec<DelimPair>, ty: &str, open: &str) -> (r: Option<&'static str>)
    ensures
        match r {
            None => closer_of(pairs@, ty@, open.spec_bytes()) is None,
            Some(c) => closer_of(pairs@, ty@, open.spec_bytes()) == Some(bytes_of(c@)),
        },
{
    let mut i: usize = pairs.len();
    assert(pairs@.take(i as int) =~= pairs@);
    while i > 0
        invariant
            i <= pairs@.len(),
            closer_of(pairs@, ty@, open.spec_bytes()) == closer_of(
                pairs@.take(i as int),
                ty@,
                open.spec_bytes(),
            ),
        decreases i,
    {
        let p = pairs[i - 1];
        assert(pairs@.take(i as int).last() == p);
        assert(pairs@.take(i as int).drop_last() =~= pairs@.take(i - 1));
        proof {
            vstd::utf8::encode_utf8_decode_utf8(p.open@);
            vstd::utf8::encode_utf8_decode_utf8(open@);
        }
        if str_eq(p.ty, ty) && str_eq(p.open, open) {
            return Some(p.close);
        }
        i = i - 1;
    }
    assert(pairs@.take(0) =~= Seq::<DelimPair>::empty());
    None
}

/// Pushing a child onto a token adds its tree as the last subtree.
proof fn lemma_push_child(before: LexToken, after: LexToken, c: LexToken)
    requires
        after.subs@ == before.subs@.push(c),
        head_of(after) == head_of(before),
    ensures
        tree_of(after) == with_child(tree_of(before), tree_of(c)),
{
    assert(tree_of(after).subs =~= tree_of(before).subs.push(tree_of(c)));
}

/// The two lexemes are equal exactly when the two texts are.
proof fn lemma_bytes_eq(a: Seq<char>, b: Seq<char>)
    ensures
        (bytes_of(a) == bytes_of(b)) == (a == b),
{
    vstd::utf8::encode_utf8_decode_utf8(a);
    vstd::utf8::encode_utf8_decode_utf8(b);
}

/// Folds a flat token stream into a tree. A registered opener starts a group
/// that takes the following tokens as children until the token that closes
/// it, which becomes its last child; finished inner groups go into their
/// enclosing group. Fails with the outermost opener left unclosed.
pub fn group_tokens(tokens: Vec<LexToken>, pairs: &Vec<DelimPair>) -> (r: Result<
    Vec<LexToken>,
    LexToken,
>)
    requires
        forall|k: int| 0 <= k < tokens@.len() ==> (#[trigger] tokens@[k]).wf(),
    ensures
        ({
            let st = group_run(pairs@, tokens@);
            match r {
                Ok(v) => st.pending.len() == 0 && trees_of(v@) == st.build,
                Err(o) => st.pending.len() > 0 && head_of(o) == st.pending[0] && o.wf(),
            }
        }),
{
    let ghost n = tokens@.len();
    let mut src = tokens;
    let mut rev: Vec<LexToken> = Vec::new();
    while src.len() > 0
        invariant
            rev@.len() + src@.len() == n,
            src@ == tokens@.take(src@.len() as int),
            n == tokens@.len(),
            forall|k: int| 0 <= k < rev@.len() ==> #[trigger] rev@[k] == tokens@[n - 1 - k],
        decreases src@.len(),
    {
        let t = src.pop().unwrap();
        rev.push(t);
    }
    let mut build: Vec<LexToken> = Vec::new();
    let mut pending: Vec<LexToken> = Vec::new();
    assert(tokens@.take(0) =~= Seq::<LexToken>::empty());
    assert(trees_of(build@) =~= Seq::<TokTree>::empty());
    assert(heads_of(pending@) =~= Seq::<Head>::empty());
    while rev.len() > 0
        invariant
            n == tokens@.len(),
            rev@.len() <= n,
            forall|k: int| 0 <= k < rev@.len() ==> #[trigger] rev@[k] == tokens@[n - 1 - k],
            forall|k: int| 0 <= k < tokens@.len() ==> (#[trigger] tokens@[k]).wf(),
            forall|k: int| 0 <= k < pending@.len() ==> (#[trigger] pending@[k]).wf(),
            build@.len() >= pending@.len(),
            trees_of(build@) == group_run(pairs@, tokens@.take(n - rev@.len())).build,
            heads_of(pending@) == group_run(pairs@, tokens@.take(n - rev@.len())).pending,
        decreases rev@.len(),
    {
        let ghost i = n - rev@.len();
        let ghost st = group_run(pairs@, tokens@.take(i));
        let token = rev.pop().unwrap();
        assert(token == tokens@[i]);
        assert(tokens@.take(i + 1).drop_last() =~= tokens@.take(i));
        assert(tokens@.take(i + 1).last() == token);
        let ghost h = head_of(token);
        let v = token.get_value();
        let is_open = find_closer(pairs, token.ty, v).is_some();
        if is_open {
            let base = token.clone_base_token();
            pending.push(base);
            build.push(token);
            assert(trees_of(build@) =~= st.build.push(tree_of(token)));
            assert(heads_of(pending@) =~= st.pending.push(h));
        } else if pending.len() > 0 {
            let last = &pending[pending.len() - 1];
            assert(head_of(*last) == st.pending.last());
            let mut same = false;
            if str_eq(last.ty, token.ty) {
                let lv = last.get_value();
                match find_closer(pairs, last.ty, lv) {
                    Some(c) => {
                        same = str_eq(c, v);
                        proof {
                            lemma_bytes_eq(c@, v@);
                        }
                    },
                    None => {},
                }
            }
            assert(same == closes(pairs@, st.pending.last(), h));
            let ghost b0 = build@;
            let mut top = build.pop().unwrap();
            let ghost top0 = top;
            top.subs.push(token);
            proof {
                lemma_push_child(top0, top, token);
            }
            assert(trees_of(b0.drop_last()) =~= st.build.drop_last());
            if same {
                pending.pop();
                assert(heads_of(pending@) =~= st.pending.drop_last());
                if pending.len() > 0 {
                    let mut parent = build.pop().unwrap();
                    let ghost parent0 = parent;
                    parent.subs.push(top);
                    proof {
                        lemma_push_child(parent0, parent, top);
                    }
                    build.push(parent);
                    assert(trees_of(build@) =~= st.build.drop_last().drop_last().push(
                        with_child(st.build.drop_last().last(), with_child(st.build.last(), tree_of(token))),
                    ));
                } else {
                    build.push(top);
                    assert(trees_of(build@) =~= st.build.drop_last().push(
                        with_child(st.build.last(), tree_of(token)),
                    ));
                }
            } else {
                build.push(top);
                assert(trees_of(build@) =~= st.build.drop_last().push(
                    with_child(st.build.last(), tree_of(token)),
                ));
            }
        } else {
            build.push(token);
            assert(trees_of(build@) =~= st.build.push(tree_of(token)));
        }
    }
    assert(tokens@.take(n as int) =~= tokens@);
    if pending.len() > 0 {
        let o = pending.swap_remove(0);
        Err(o)
    } else {
        Ok(build)
    }
}

/// The heads of a tree in pre-order, counting the head and its first `n`
/// subtrees.
pub open spec fn flat_part(t: TokTree, n: nat) -> Seq<Head>
    decreases t, n,
{
    if n == 0 || n > t.subs.len() {
        seq![t.head]
    } else {
        flat_part(t, (n - 1) as nat) + flat_part(t.subs[n - 1], t.subs[n - 1].subs.len())
    }
}

/// The heads of a tree in pre-order.
pub open spec fn flat_tree(t: TokTree) -> Seq<Head> {
    flat_part(t, t.subs.len())
}

/// The heads of a sequence of trees in pre-order.
pub open spec fn flat_forest(s: Seq<TokTree>) -> Seq<Head>
    decreases s.len(),
{
    if s.len() == 0 {
        Seq::empty()
    } else {
        flat_forest(s.drop_last()) + flat_tree(s.last())
    }
}

proof fn lemma_flat_part_prefix(p: TokTree, c: TokTree, n: nat)
    requires
        n <= p.subs.len(),
    ensures
        flat_part(with_child(p, c), n) == flat_part(p, n),
    decreases n,
{
    if n > 0 {
        lemma_flat_part_prefix(p, c, (n - 1) as nat);
        assert(with_child(p, c).subs[n - 1] == p.subs[n - 1]);
    }
}

proof fn lemma_flat_with_child(p: TokTree, c: TokTree)
    ensures
        flat_tree(with_child(p, c)) == flat_tree(p) + flat_tree(c),
{
    lemma_flat_part_prefix(p, c, p.subs.len());
    assert(with_child(p, c).subs[p.subs.len() as int] == c);
}

proof fn lemma_flat_forest_push(s: Seq<TokTree>, t: TokTree)
    ensures
        flat_forest(s.push(t)) == flat_forest(s) + flat_tree(t),
{
    assert(s.push(t).drop_last() =~= s);
}

/// Grouping loses, duplicates and reorders no token: read in pre-order, the
/// trees built from a stream of childless tokens give back the stream.
pub proof fn lemma_group_keeps_tokens(pairs: Seq<DelimPair>, tokens: Seq<LexToken>)
    requires
        forall|k: int| 0 <= k < tokens.len() ==> (#[trigger] tokens[k]).subs@.len() == 0,
    ensures
        flat_forest(group_run(pairs, tokens).build) == heads_of(tokens),
        group_run(pairs, tokens).build.len() >= group_run(pairs, tokens).pending.len(),
    decreases tokens.len(),
{
    if tokens.len() > 0 {
        let prefix = tokens.drop_last();
        let t = tokens.last();
        lemma_group_keeps_tokens(pairs, prefix);
        let st = group_run(pairs, prefix);
        let h = head_of(t);
        let leaf_t = tree_of(t);
        assert(leaf_t.subs =~= Seq::<TokTree>::empty());
        assert(flat_tree(leaf_t) == seq![h]);
        assert(heads_of(tokens) =~= heads_of(prefix).push(h));
        assert(heads_of(prefix).push(h) =~= heads_of(prefix) + seq![h]);
        if is_opener(pairs, h) {
            lemma_flat_forest_push(st.build, leaf_t);
        } else if st.pending.len() > 0 {
            let rest = st.build.drop_last();
            let top = with_child(st.build.last(), leaf_t);
            assert(rest.push(st.build.last()) =~= st.build);
            lemma_flat_forest_push(rest, st.build.last());
            lemma_flat_with_child(st.build.last(), leaf_t);
            lemma_flat_forest_push(rest, top);
            if closes(pairs, st.pending.last(), h) && st.pending.drop_last().len() > 0 {
                let r2 = rest.drop_last();
                assert(r2.push(rest.last()) =~= rest);
                lemma_flat_forest_push(r2, rest.last());
                lemma_flat_with_child(rest.last(), top);
                lemma_flat_forest_push(r2, with_child(rest.last(), top));
                assert(flat_forest(r2) + flat_tree(rest.last()) + (flat_tree(st.build.last()) + seq![h])
                    =~= flat_forest(r2) + (flat_tree(rest.last()) + (flat_tree(st.build.last()) + seq![h])));
            }
            assert(flat_forest(rest) + flat_tree(st.build.last()) + seq![h]
                =~= flat_forest(rest) + (flat_tree(st.build.last()) + seq![h]));
        } else {
            lemma_flat_forest_push(st.build, leaf_t);
        }
    }
}

} // verus!
