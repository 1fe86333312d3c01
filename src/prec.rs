//! The precedence table: `(type, lexeme) -> (left-associative, rank)`.
use vstd::prelude::*;

use crate::text::str_eq;
use crate::token::LexPrec;

verus! {

/// One row of the table.
#[derive(Clone, Copy, Debug)]
pub struct PrecEntry {
    pub ty: &'static str,
    pub lexeme: &'static str,
    pub left: bool,
    pub rank: usize,
}

/// Whether declaration `r` lists `lex` for type `ty`.
pub open spec fn declares(r: LexPrec, ty: Seq<char>, lex: Seq<char>) -> bool {
    r.ty@ == ty && exists|k: int| 0 <= k < r.precs@.len() && (#[trigger] r.precs@[k])@ == lex
}

/// Associativity and rank of `(ty, lex)` under a list of declarations: the
/// last declaration that lists it counts, and its rank is its position.
pub open spec fn prec_of(rules: Seq<LexPrec>, ty: Seq<char>, lex: Seq<char>) -> Option<(bool, nat)>
    decreases rules.len(),
{
    if rules.len() == 0 {
        None
    } else if declares(rules.last(), ty, lex) {
        Some((rules.last().left, (rules.len() - 1) as nat))
    } else {
        prec_of(rules.drop_last(), ty, lex)
    }
}

/// What a table gives for a key: its last row with that key.
pub open spec fn entry_lookup(es: Seq<PrecEntry>, ty: Seq<char>, lex: Seq<char>) -> Option<(bool, nat)>
    decreases es.len(),
{
    if es.len() == 0 {
        None
    } else if es.last().ty@ == ty && es.last().lexeme@ == lex {
        Some((es.last().left, es.last().rank as nat))
    } else {
        entry_lookup(es.drop_last(), ty, lex)
    }
}

/// The table answers for each key what the declarations say.
pub open spec fn table_matches(es: Seq<PrecEntry>, rules: Seq<LexPrec>) -> bool {
    forall|ty: Seq<char>, lex: Seq<char>|
        #[trigger] entry_lookup(es, ty, lex) == prec_of(rules, ty, lex)
}

/// Builds the table from the declarations in order, a later row for a key
/// overriding an earlier one.
pub fn build_prec_table(rules: &Vec<LexPrec>) -> (r: Vec<PrecEntry>)
    ensures
        table_matches(r@, rules@),
{
    let mut table: Vec<PrecEntry> = Vec::new();
    let mut i: usize = 0;
    assert(rules@.take(0) =~= Seq::<LexPrec>::empty());
    while i < rules.len()
        invariant
            i <= rules@.len(),
            table_matches(table@, rules@.take(i as int)),
            forall|k: int| 0 <= k < table@.len() ==> (#[trigger] table@[k]).rank < i,
        decreases rules@.len() - i,
    {
        let rule = &rules[i];
        let ghost before = table@;
        let ghost prev = rules@.take(i as int);
        assert(rules@.take(i + 1).drop_last() =~= prev);
        assert(rules@.take(i + 1).last() == *rule);
        let mut j: usize = 0;
        while j < rule.precs.len()
            invariant
                i < rules@.len(),
                *rule == rules@[i as int],
                j <= rule.precs@.len(),
                forall|k: int| 0 <= k < table@.len() ==> (#[trigger] table@[k]).rank <= i,
                forall|ty: Seq<char>, lex: Seq<char>|
                    #[trigger] entry_lookup(table@, ty, lex) == if ty == rule.ty@ && exists|k: int|
                        0 <= k < j && (#[trigger] rule.precs@[k])@ == lex {
                        Some((rule.left, i as nat))
                    } else {
                        prec_of(prev, ty, lex)
                    },
            decreases rule.precs@.len() - j,
        {
            let e = PrecEntry { ty: rule.ty, lexeme: rule.precs[j], left: rule.left, rank: i };
            let ghost t0 = table@;
            table.push(e);
            assert(table@.drop_last() =~= t0);
            assert forall|ty: Seq<char>, lex: Seq<char>|
                #[trigger] entry_lookup(table@, ty, lex) == if ty == rule.ty@ && exists|k: int|
                    0 <= k < j + 1 && (#[trigger] rule.precs@[k])@ == lex {
                    Some((rule.left, i as nat))
                } else {
                    prec_of(prev, ty, lex)
                } by {
                let prior = entry_lookup(t0, ty, lex);
                if ty == rule.ty@ && lex == rule.precs@[j as int]@ {
                    assert(rule.precs@[j as int]@ == lex);
                } else {
                    assert(entry_lookup(table@, ty, lex) == prior);
                    if exists|k: int| 0 <= k < j + 1 && (#[trigger] rule.precs@[k])@ == lex {
                        let k = choose|k: int| 0 <= k < j + 1 && (#[trigger] rule.precs@[k])@ == lex;
                        if ty == rule.ty@ {
                            assert(k < j);
                        }
                    }
                }
            }
            j = j + 1;
        }
        assert forall|ty: Seq<char>, lex: Seq<char>|
            #[trigger] entry_lookup(table@, ty, lex) == prec_of(rules@.take(i + 1), ty, lex) by {
            assert(declares(*rule, ty, lex) == (ty == rule.ty@ && exists|k: int|
                0 <= k < rule.precs@.len() && (#[trigger] rule.precs@[k])@ == lex));
        }
        i = i + 1;
    }
    assert(rules@.take(rules@.len() as int) =~= rules@);
    table
}

/// Looks up `(ty, lex)` in a table: the last row with that key.
pub fn lookup_prec(table: &Vec<PrecEntry>, ty: &str, lex: &str) -> (r: Option<(bool, usize)>)
    ensures
        match r {
            None => entry_lookup(table@, ty@, lex@) is None,
            Some((left, rank)) => entry_lookup(table@, ty@, lex@) == Some((left, rank as nat)),
        },
{
    let mut i: usize = table.len();
    assert(table@.take(i as int) =~= table@);
    while i > 0
        invariant
            i <= table@.len(),
            entry_lookup(table@, ty@, lex@) == entry_lookup(table@.take(i as int), ty@, lex@),
        decreases i,
    {
        let e = table[i - 1];
        assert(table@.take(i as int).last() == e);
        assert(table@.take(i as int).drop_last() =~= table@.take(i - 1));
        if str_eq(e.ty, ty) && str_eq(e.lexeme, lex) {
            return Some((e.left, e.rank));
        }
        i = i - 1;
    }
    assert(table@.take(0) =~= Seq::<PrecEntry>::empty());
    None
}

} // verus!
