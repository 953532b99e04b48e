//! Flat EBNF grammars: grammars whose rules use alternation and sequence
//! only, and every element of a sequence is a single symbol.
//!
//! Lowering a flat grammar to BNF takes no fresh nonterminal: each rule
//! keeps its alternatives as they are. Since BNF and EBNF are printed alike,
//! a flat grammar and its lowering read the same.

use vstd::prelude::*;
use crate::ebnf::{
    ebnf_distinct_names, lower, lower_alt, lower_rules, lower_seq, to_bnf_spec, with_productions,
    EbnfRuleView, ExprView, Lowered,
};
use crate::grammar::{
    defines, distinct_names, index_of, lemma_index_of, with_production, RuleView,
};
use crate::print::{
    bar, ebnf_lines, ebnf_names, ebnf_text, expansion_text, expansion_texts,
    expr_text, expr_texts, grammar_lines, grammar_text, rule_names, symbol_text, symbol_texts,
};
use crate::text::{bracketed_spec, is_nonterminal_spec, join_spec};

verus! {

/// A single symbol: a nonterminal, or a terminal whose text is not written
/// like a nonterminal; or such a symbol as the only element of a sequence
/// or of an alternation.
pub open spec fn single(x: ExprView) -> bool
    decreases x,
{
    match x {
        ExprView::NT(_) => true,
        ExprView::T(s) => !is_nonterminal_spec(s),
        ExprView::Cat(es) => es.len() == 1 && single(es[0]),
        ExprView::Alt(es) => es.len() == 1 && single(es[0]),
        _ => false,
    }
}

/// The symbol of a single symbol as a BNF grammar writes it.
pub open spec fn single_symbol(x: ExprView) -> Seq<char>
    decreases x,
{
    match x {
        ExprView::NT(s) => bracketed_spec(s),
        ExprView::T(s) => s,
        ExprView::Cat(es) => if es.len() == 1 {
            single_symbol(es[0])
        } else {
            Seq::empty()
        },
        ExprView::Alt(es) => if es.len() == 1 {
            single_symbol(es[0])
        } else {
            Seq::empty()
        },
        _ => Seq::empty(),
    }
}

/// Every expression of the list is a single symbol.
pub open spec fn all_single(es: Seq<ExprView>) -> bool {
    forall|j: int| 0 <= j < es.len() ==> single(#[trigger] es[j])
}

/// The symbols of the first `k` single symbols of a list.
pub open spec fn single_symbols(es: Seq<ExprView>, k: nat) -> Seq<Seq<char>> {
    Seq::new(k, |j: int| single_symbol(es[j]))
}

/// A flat sequence: a symbol, a sequence of single symbols, or a flat
/// sequence as the only element of an alternation.
pub open spec fn flat_sequence(x: ExprView) -> bool
    decreases x,
{
    match x {
        ExprView::NT(_) => true,
        ExprView::T(s) => !is_nonterminal_spec(s),
        ExprView::Cat(es) => all_single(es),
        ExprView::Alt(es) => es.len() == 1 && flat_sequence(es[0]),
        _ => false,
    }
}

/// The expansion that a flat sequence stands for.
pub open spec fn flat_expansion(x: ExprView) -> Seq<Seq<char>>
    decreases x,
{
    match x {
        ExprView::NT(s) => seq![bracketed_spec(s)],
        ExprView::T(s) => seq![s],
        ExprView::Cat(es) => single_symbols(es, es.len()),
        ExprView::Alt(es) => if es.len() == 1 {
            flat_expansion(es[0])
        } else {
            Seq::empty()
        },
        _ => Seq::empty(),
    }
}

/// A flat expression: a flat sequence, or a choice between one or more
/// flat expressions.
pub open spec fn flat(x: ExprView) -> bool
    decreases x, 0nat,
{
    flat_sequence(x) || match x {
        ExprView::Alt(es) => es.len() > 0 && all_flat(es, es.len()),
        _ => false,
    }
}

/// The first `k` expressions of the list are flat.
pub open spec fn all_flat(es: Seq<ExprView>, k: nat) -> bool
    decreases es, k,
{
    if k == 0 || k > es.len() {
        true
    } else {
        all_flat(es, (k - 1) as nat) && flat(es[k - 1])
    }
}

/// The expansions that a flat expression stands for.
pub open spec fn flat_expansions(x: ExprView) -> Seq<Seq<Seq<char>>>
    decreases x, 0nat,
{
    if flat_sequence(x) {
        seq![flat_expansion(x)]
    } else {
        match x {
            ExprView::Alt(es) => alt_expansions(es, es.len()),
            _ => Seq::empty(),
        }
    }
}

/// The expansions of the first `k` flat expressions of a list, one after
/// the other.
pub open spec fn alt_expansions(es: Seq<ExprView>, k: nat) -> Seq<Seq<Seq<char>>>
    decreases es, k,
{
    if k == 0 || k > es.len() {
        Seq::empty()
    } else {
        alt_expansions(es, (k - 1) as nat) + flat_expansions(es[k - 1])
    }
}

/// Every rule of the grammar has a flat expression.
pub open spec fn flat_grammar(g: Seq<EbnfRuleView>) -> bool {
    forall|i: int| 0 <= i < g.len() ==> flat((#[trigger] g[i]).expr)
}

/// The BNF rules that the first `k` rules of a flat grammar stand for.
pub open spec fn flat_rules(g: Seq<EbnfRuleView>, k: nat) -> Seq<RuleView> {
    Seq::new(
        k,
        |i: int| RuleView { name: bracketed_spec(g[i].name), expansions: flat_expansions(g[i].expr) },
    )
}

/// A single symbol lowers to its symbol, without a fresh nonterminal.
pub proof fn lemma_lower_single(bnf: Seq<RuleView>, x: ExprView, i: nat)
    requires
        single(x),
    ensures
        lower(bnf, x, i) == Some(
            Lowered { bnf: bnf, counter: i, expansions: seq![seq![single_symbol(x)]] },
        ),
    decreases x,
{
    match x {
        ExprView::Cat(es) => {
            lemma_lower_single(bnf, es[0], i);
            let p = lower_seq(bnf, es, 0, i);
            assert(p == Some(Lowered { bnf: bnf, counter: i, expansions: seq![Seq::empty()] }));
            assert(p->0.expansions[0] == Seq::<Seq<char>>::empty());
            assert(Seq::<Seq<char>>::empty().push(single_symbol(es[0])) =~= seq![
                single_symbol(es[0]),
            ]);
            assert(lower_seq(bnf, es, 1, i) == Some(
                Lowered { bnf: bnf, counter: i, expansions: seq![seq![single_symbol(es[0])]] },
            ));
            assert(lower(bnf, x, i) == lower_seq(bnf, es, es.len(), i));
            assert(single_symbol(x) == single_symbol(es[0]));
        },
        ExprView::Alt(es) => {
            lemma_lower_single(bnf, es[0], i);
            assert(lower_alt(bnf, es, 0, i) == Some(
                Lowered { bnf: bnf, counter: i, expansions: Seq::empty() },
            ));
            assert(Seq::<Seq<Seq<char>>>::empty() + seq![seq![single_symbol(es[0])]] =~= seq![
                seq![single_symbol(es[0])],
            ]);
            assert(lower_alt(bnf, es, 1, i) == Some(
                Lowered { bnf: bnf, counter: i, expansions: seq![seq![single_symbol(es[0])]] },
            ));
            assert(lower(bnf, x, i) == lower_alt(bnf, es, es.len(), i));
            assert(single_symbol(x) == single_symbol(es[0]));
        },
        _ => {},
    }
}

/// A sequence of single symbols lowers to the expansion of their symbols.
pub proof fn lemma_lower_singles(bnf: Seq<RuleView>, es: Seq<ExprView>, k: nat, i: nat)
    requires
        all_single(es),
        k <= es.len(),
    ensures
        lower_seq(bnf, es, k, i) == Some(
            Lowered { bnf: bnf, counter: i, expansions: seq![single_symbols(es, k)] },
        ),
    decreases k,
{
    if k == 0 {
        assert(single_symbols(es, 0) =~= Seq::<Seq<char>>::empty());
    } else {
        lemma_lower_singles(bnf, es, (k - 1) as nat, i);
        lemma_lower_single(bnf, es[k - 1], i);
        assert(single_symbols(es, (k - 1) as nat).push(single_symbol(es[k - 1]))
            =~= single_symbols(es, k));
    }
}

/// A flat sequence lowers to its one expansion.
pub proof fn lemma_lower_flat_sequence(bnf: Seq<RuleView>, x: ExprView, i: nat)
    requires
        flat_sequence(x),
    ensures
        lower(bnf, x, i) == Some(
            Lowered { bnf: bnf, counter: i, expansions: seq![flat_expansion(x)] },
        ),
    decreases x,
{
    match x {
        ExprView::Cat(es) => {
            lemma_lower_singles(bnf, es, es.len(), i);
            assert(lower(bnf, x, i) == lower_seq(bnf, es, es.len(), i));
            assert(flat_expansion(x) == single_symbols(es, es.len()));
        },
        ExprView::Alt(es) => {
            lemma_lower_flat_sequence(bnf, es[0], i);
            assert(lower_alt(bnf, es, 0, i) == Some(
                Lowered { bnf: bnf, counter: i, expansions: Seq::empty() },
            ));
            assert(Seq::<Seq<Seq<char>>>::empty() + seq![flat_expansion(es[0])] =~= seq![
                flat_expansion(es[0]),
            ]);
            assert(lower_alt(bnf, es, 1, i) == Some(
                Lowered { bnf: bnf, counter: i, expansions: seq![flat_expansion(es[0])] },
            ));
            assert(lower(bnf, x, i) == lower_alt(bnf, es, es.len(), i));
            assert(flat_expansion(x) == flat_expansion(es[0]));
        },
        _ => {},
    }
}

/// A flat expression lowers to its expansions, at least one, and
/// leaves the grammar and the symbol counter as they are.
pub proof fn lemma_lower_flat(bnf: Seq<RuleView>, x: ExprView, i: nat)
    requires
        flat(x),
    ensures
        lower(bnf, x, i) == Some(
            Lowered { bnf: bnf, counter: i, expansions: flat_expansions(x) },
        ),
        flat_expansions(x).len() > 0,
    decreases x, 0nat,
{
    if flat_sequence(x) {
        lemma_lower_flat_sequence(bnf, x, i);
    } else {
        match x {
            ExprView::Alt(es) => {
                lemma_lower_all_flat(bnf, es, es.len(), i);
            },
            _ => {},
        }
    }
}

/// A choice between flat expressions lowers to their expansions, one
/// after the other.
pub proof fn lemma_lower_all_flat(bnf: Seq<RuleView>, es: Seq<ExprView>, k: nat, i: nat)
    requires
        all_flat(es, k),
        k <= es.len(),
    ensures
        lower_alt(bnf, es, k, i) == Some(
            Lowered { bnf: bnf, counter: i, expansions: alt_expansions(es, k) },
        ),
        k > 0 ==> alt_expansions(es, k).len() > 0,
    decreases es, k,
{
    if k > 0 {
        lemma_lower_all_flat(bnf, es, (k - 1) as nat, i);
        lemma_lower_flat(bnf, es[k - 1], i);
    }
}

/// One or more productions for a nonterminal without a rule make one new
/// rule, at the end, with those productions.
pub proof fn lemma_productions_of_new_name(
    g: Seq<RuleView>,
    name: Seq<char>,
    exps: Seq<Seq<Seq<char>>>,
)
    requires
        distinct_names(g),
        !defines(g, name),
        exps.len() > 0,
    ensures
        with_productions(g, name, exps) == g.push(RuleView { name: name, expansions: exps }),
    decreases exps.len(),
{
    if exps.len() == 1 {
        assert(exps.drop_last().len() == 0);
        assert(with_productions(g, name, exps.drop_last()) == g);
        assert(seq![exps.last()] =~= exps);
    } else {
        let shorter = exps.drop_last();
        lemma_productions_of_new_name(g, name, shorter);
        let inner = g.push(RuleView { name: name, expansions: shorter });
        assert forall|a: int, b: int| 0 <= a < b < inner.len() implies #[trigger] inner[a].name
            != #[trigger] inner[b].name by {
            if b < g.len() {
                assert(g[a].name != g[b].name);
            } else {
                assert(inner[a] == g[a]);
                assert(g[a].name != name);
            }
        }
        assert(inner[g.len() as int].name == name);
        lemma_index_of(inner, g.len() as int);
        assert(shorter.push(exps.last()) =~= exps);
        assert(with_production(inner, name, exps.last()) =~= g.push(
            RuleView { name: name, expansions: exps },
        ));
    }
}

/// Names between angle brackets are the same only for the same names.
pub proof fn lemma_bracketed_injective(a: Seq<char>, b: Seq<char>)
    requires
        bracketed_spec(a) == bracketed_spec(b),
    ensures
        a == b,
{
    let x = bracketed_spec(a);
    let y = bracketed_spec(b);
    assert(x.len() == a.len() + 2);
    assert(y.len() == b.len() + 2);
    assert forall|j: int| 0 <= j < a.len() implies a[j] == b[j] by {
        assert(x[j + 1] == a[j]);
        assert(y[j + 1] == b[j]);
    }
    assert(a =~= b);
}

/// The first `k` rules of a flat grammar lower to BNF rules with the
/// same alternatives, one for one.
pub proof fn lemma_lower_flat_rules(g: Seq<EbnfRuleView>, k: nat)
    requires
        ebnf_distinct_names(g),
        flat_grammar(g),
        k <= g.len(),
    ensures
        lower_rules(g, k) == Some(
            Lowered { bnf: flat_rules(g, k), counter: 0, expansions: Seq::empty() },
        ),
        distinct_names(flat_rules(g, k)),
    decreases k,
{
    if k == 0 {
        assert(flat_rules(g, 0) =~= Seq::<RuleView>::empty());
    } else {
        lemma_lower_flat_rules(g, (k - 1) as nat);
        let before = flat_rules(g, (k - 1) as nat);
        let rule = g[k - 1];
        let name = bracketed_spec(rule.name);
        lemma_lower_flat(before, rule.expr, 0);
        if defines(before, name) {
            let a = index_of(before, name);
            lemma_bracketed_injective(g[a].name, rule.name);
            assert(g[a].name != g[k - 1].name);
        }
        lemma_productions_of_new_name(before, name, flat_expansions(rule.expr));
        let after = before.push(RuleView { name: name, expansions: flat_expansions(rule.expr) });
        assert(after =~= flat_rules(g, k));
        assert forall|a: int, b: int| 0 <= a < b < after.len() implies #[trigger] after[a].name
            != #[trigger] after[b].name by {
            if b < before.len() {
                assert(before[a].name != before[b].name);
            } else {
                if after[a].name == after[b].name {
                    lemma_bracketed_injective(g[a].name, g[b].name);
                    assert(g[a].name != g[b].name);
                }
            }
        }
    }
}

/// The texts of a list of expressions, one by one.
pub proof fn lemma_expr_texts_pointwise(es: Seq<ExprView>, k: nat)
    requires
        k <= es.len(),
    ensures
        expr_texts(es, k) == Seq::new(k, |j: int| expr_text(es[j])),
    decreases k,
{
    if k == 0 {
        assert(expr_texts(es, 0) =~= Seq::new(0, |j: int| expr_text(es[j])));
    } else {
        lemma_expr_texts_pointwise(es, (k - 1) as nat);
        assert(expr_texts(es, k) =~= Seq::new(k, |j: int| expr_text(es[j])));
    }
}

/// A single symbol is printed alike as an expression and as a symbol of
/// a BNF grammar.
pub proof fn lemma_single_text(x: ExprView)
    requires
        single(x),
    ensures
        symbol_text(single_symbol(x)) == expr_text(x),
    decreases x,
{
    match x {
        ExprView::NT(s) => {
            let b = bracketed_spec(s);
            assert(b[0] == '<');
            assert(b[b.len() - 1] == '>');
        },
        ExprView::Cat(es) => {
            lemma_single_text(es[0]);
            lemma_expr_texts_pointwise(es, es.len());
        },
        ExprView::Alt(es) => {
            lemma_single_text(es[0]);
            lemma_expr_texts_pointwise(es, es.len());
        },
        _ => {},
    }
}

/// A flat sequence is printed alike as an expression and as an expansion.
pub proof fn lemma_flat_sequence_text(x: ExprView)
    requires
        flat_sequence(x),
    ensures
        expansion_text(flat_expansion(x)) == expr_text(x),
    decreases x,
{
    match x {
        ExprView::NT(s) => {
            let b = bracketed_spec(s);
            assert(b[0] == '<');
            assert(b[b.len() - 1] == '>');
            assert(symbol_texts(flat_expansion(x)) =~= seq![expr_text(x)]);
        },
        ExprView::T(s) => {
            assert(symbol_texts(flat_expansion(x)) =~= seq![expr_text(x)]);
        },
        ExprView::Cat(es) => {
            lemma_expr_texts_pointwise(es, es.len());
            assert forall|j: int| 0 <= j < es.len() implies symbol_texts(flat_expansion(x))[j]
                == expr_text(es[j]) by {
                lemma_single_text(es[j]);
            }
            assert(symbol_texts(flat_expansion(x)) =~= expr_texts(es, es.len()));
        },
        ExprView::Alt(es) => {
            lemma_flat_sequence_text(es[0]);
            lemma_expr_texts_pointwise(es, es.len());
        },
        _ => {},
    }
}

/// Joining two lists of parts, one after the other, joins what each of them
/// joins to.
pub proof fn lemma_join_concat(a: Seq<Seq<char>>, b: Seq<Seq<char>>, sep: Seq<char>)
    requires
        a.len() > 0,
        b.len() > 0,
    ensures
        join_spec(a + b, sep) == join_spec(a, sep) + sep + join_spec(b, sep),
    decreases b.len(),
{
    let all = a + b;
    assert(all.last() == b.last());
    if b.len() == 1 {
        assert(all.drop_last() =~= a);
    } else {
        assert(all.drop_last() =~= a + b.drop_last());
        lemma_join_concat(a, b.drop_last(), sep);
        assert(join_spec(all, sep) =~= join_spec(a, sep) + sep + join_spec(b, sep));
    }
}

/// The texts of two lists of expansions, one after the other.
pub proof fn lemma_expansion_texts_concat(a: Seq<Seq<Seq<char>>>, b: Seq<Seq<Seq<char>>>)
    ensures
        expansion_texts(a + b) == expansion_texts(a) + expansion_texts(b),
{
    assert(expansion_texts(a + b) =~= expansion_texts(a) + expansion_texts(b));
}

/// A flat expression is printed alike as an expression and as the
/// alternatives of a BNF rule.
pub proof fn lemma_flat_text(x: ExprView)
    requires
        flat(x),
    ensures
        join_spec(expansion_texts(flat_expansions(x)), bar()) == expr_text(x),
        flat_expansions(x).len() > 0,
    decreases x, 0nat,
{
    if flat_sequence(x) {
        lemma_flat_sequence_text(x);
        assert(expansion_texts(flat_expansions(x)) =~= seq![expr_text(x)]);
    } else {
        match x {
            ExprView::Alt(es) => {
                lemma_all_flat_text(es, es.len());
            },
            _ => {},
        }
    }
}

/// A choice between flat expressions is printed alike as a list of
/// expressions and as the alternatives of a BNF rule.
pub proof fn lemma_all_flat_text(es: Seq<ExprView>, k: nat)
    requires
        all_flat(es, k),
        0 < k <= es.len(),
    ensures
        join_spec(expansion_texts(alt_expansions(es, k)), bar()) == join_spec(
            expr_texts(es, k),
            bar(),
        ),
        alt_expansions(es, k).len() > 0,
    decreases es, k,
{
    let last = flat_expansions(es[k - 1]);
    lemma_flat_text(es[k - 1]);
    let texts = expr_texts(es, k);
    assert(texts.last() == expr_text(es[k - 1]));
    assert(texts.drop_last() =~= expr_texts(es, (k - 1) as nat));
    if k == 1 {
        assert(alt_expansions(es, 0) =~= Seq::<Seq<Seq<char>>>::empty());
        assert(alt_expansions(es, k) =~= last);
        assert(texts.len() == 1);
    } else {
        let before = alt_expansions(es, (k - 1) as nat);
        lemma_all_flat_text(es, (k - 1) as nat);
        lemma_expansion_texts_concat(before, last);
        lemma_join_concat(expansion_texts(before), expansion_texts(last), bar());
        lemma_expr_texts_pointwise(es, k);
        assert(texts.len() == k);
    }
}

/// A grammar in EBNF that uses alternation and sequence only, with a
/// single symbol for every element of a sequence and no choice between
/// nothing, lowers to a BNF grammar that is printed exactly as the EBNF
/// grammar is.
pub proof fn lemma_flat_grammar_prints_alike(g: Seq<EbnfRuleView>)
    requires
        ebnf_distinct_names(g),
        flat_grammar(g),
    ensures
        to_bnf_spec(g) == Some(flat_rules(g, g.len())),
        grammar_text(flat_rules(g, g.len())) == ebnf_text(g),
{
    lemma_lower_flat_rules(g, g.len());
    let bnf = flat_rules(g, g.len());
    assert(rule_names(bnf) =~= ebnf_names(g));
    assert forall|i: int| 0 <= i < g.len() implies grammar_lines(bnf)[i] == ebnf_lines(g)[i] by {
        lemma_flat_text(g[i].expr);
    }
    assert(grammar_lines(bnf) =~= ebnf_lines(g));
}

} // verus!
