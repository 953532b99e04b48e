//! Validity of flat EBNF grammars carries over to their BNF form.
//!
//! The rules of a flat grammar and of its lowering stand one for one, and
//! each refers to the same nonterminals, written between angle brackets in
//! BNF. So a name can be reached in the one exactly when it can in the other,
//! and a flat grammar that is valid lowers to a valid grammar.

use vstd::prelude::*;
use crate::ebnf::{ebnf_defines, ebnf_distinct_names, to_bnf_spec, EbnfRuleView, ExprView};
use crate::flat::{
    all_flat, all_single, alt_expansions, flat, flat_expansion, flat_expansions, flat_grammar,
    flat_rules, flat_sequence, lemma_bracketed_injective, lemma_flat_grammar_prints_alike,
    lemma_flat_text, lemma_lower_flat_rules, single, single_symbol, single_symbols,
};
use crate::grammar::{defines, expansions_of, lemma_index_of, start_symbol};
use crate::reach::{edge, reach_in, reachable};
use crate::text::{bracketed_spec, is_nonterminal_spec};
use crate::validity::{
    ebnf_graph, ebnf_reachable, ebnf_start, ebnf_valid, expr_references, grammar_graph,
    grammar_reachable, nonterminals_of, references, seq_references, valid,
};

verus! {

/// The names, each between angle brackets.
pub open spec fn bracketed_all(names: Seq<Seq<char>>) -> Seq<Seq<char>> {
    Seq::new(names.len(), |i: int| bracketed_spec(names[i]))
}

/// A name between angle brackets is written like a nonterminal.
pub proof fn lemma_bracketed_is_nonterminal(s: Seq<char>)
    ensures
        is_nonterminal_spec(bracketed_spec(s)),
{
    let b = bracketed_spec(s);
    assert(b[0] == '<');
    assert(b[b.len() - 1] == '>');
}

/// The nonterminals among the first `k` symbols do not depend on the
/// symbols that follow.
pub proof fn lemma_nonterminals_of_prefix(a: Seq<Seq<char>>, b: Seq<Seq<char>>, k: nat)
    requires
        k <= a.len(),
        k <= b.len(),
        forall|j: int| 0 <= j < k ==> a[j] == b[j],
    ensures
        nonterminals_of(a, k) == nonterminals_of(b, k),
    decreases k,
{
    if k > 0 {
        lemma_nonterminals_of_prefix(a, b, (k - 1) as nat);
    }
}

/// The references of the first `k` expansions do not depend on the
/// expansions that follow.
pub proof fn lemma_references_prefix(a: Seq<Seq<Seq<char>>>, b: Seq<Seq<Seq<char>>>, k: nat)
    requires
        k <= a.len(),
        k <= b.len(),
        forall|j: int| 0 <= j < k ==> a[j] == b[j],
    ensures
        references(a, k) == references(b, k),
    decreases k,
{
    if k > 0 {
        lemma_references_prefix(a, b, (k - 1) as nat);
    }
}

/// The references of two lists of expansions, one after the other.
pub proof fn lemma_references_concat(a: Seq<Seq<Seq<char>>>, b: Seq<Seq<Seq<char>>>, k: nat)
    requires
        k <= b.len(),
    ensures
        references(a + b, a.len() + k) == references(a, a.len()) + references(b, k),
    decreases k,
{
    let all = a + b;
    if k == 0 {
        lemma_references_prefix(all, a, a.len());
        assert(references(b, 0) =~= Seq::<Seq<char>>::empty());
        assert(references(a, a.len()) + references(b, 0) =~= references(a, a.len()));
    } else {
        lemma_references_concat(a, b, (k - 1) as nat);
        assert(all[a.len() + k - 1] == b[k - 1]);
        assert(references(all, a.len() + k) =~= references(a, a.len()) + references(b, k));
    }
}

/// A single symbol names the nonterminal that its symbol stands for, or
/// none.
pub proof fn lemma_single_references(x: ExprView)
    requires
        single(x),
    ensures
        is_nonterminal_spec(single_symbol(x)) ==> bracketed_all(expr_references(x)) == seq![
            single_symbol(x),
        ],
        !is_nonterminal_spec(single_symbol(x)) ==> expr_references(x) == Seq::<Seq<char>>::empty(),
    decreases x,
{
    match x {
        ExprView::NT(s) => {
            lemma_bracketed_is_nonterminal(s);
            assert(bracketed_all(seq![s]) =~= seq![bracketed_spec(s)]);
        },
        ExprView::T(s) => {},
        ExprView::Cat(es) => {
            lemma_single_references(es[0]);
            assert(seq_references(es, 0) =~= Seq::<Seq<char>>::empty());
            assert(seq_references(es, 1) =~= expr_references(es[0]));
            assert(expr_references(x) == seq_references(es, es.len()));
            assert(single_symbol(x) == single_symbol(es[0]));
        },
        ExprView::Alt(es) => {
            lemma_single_references(es[0]);
            assert(seq_references(es, 0) =~= Seq::<Seq<char>>::empty());
            assert(seq_references(es, 1) =~= expr_references(es[0]));
            assert(expr_references(x) == seq_references(es, es.len()));
            assert(single_symbol(x) == single_symbol(es[0]));
        },
        _ => {},
    }
}

/// The nonterminals among the symbols of a sequence of single symbols are
/// those that the sequence names, between angle brackets.
pub proof fn lemma_singles_references(es: Seq<ExprView>, k: nat)
    requires
        all_single(es),
        k <= es.len(),
    ensures
        nonterminals_of(single_symbols(es, es.len()), k) == bracketed_all(seq_references(es, k)),
    decreases k,
{
    let symbols = single_symbols(es, es.len());
    if k == 0 {
        assert(bracketed_all(seq_references(es, 0)) =~= Seq::<Seq<char>>::empty());
    } else {
        lemma_singles_references(es, (k - 1) as nat);
        lemma_single_references(es[k - 1]);
        let before = seq_references(es, (k - 1) as nat);
        let last = expr_references(es[k - 1]);
        assert(symbols[k - 1] == single_symbol(es[k - 1]));
        assert(bracketed_all(before + last) =~= bracketed_all(before) + bracketed_all(last));
        if is_nonterminal_spec(symbols[k - 1]) {
            assert(bracketed_all(before) + seq![symbols[k - 1]] =~= bracketed_all(before).push(
                symbols[k - 1],
            ));
        } else {
            assert(before + last =~= before);
        }
    }
}

/// The nonterminals of the expansion of a flat sequence are those that the
/// sequence names, between angle brackets.
pub proof fn lemma_flat_sequence_references(x: ExprView)
    requires
        flat_sequence(x),
    ensures
        nonterminals_of(flat_expansion(x), flat_expansion(x).len()) == bracketed_all(
            expr_references(x),
        ),
    decreases x,
{
    match x {
        ExprView::NT(s) => {
            lemma_bracketed_is_nonterminal(s);
            let e = flat_expansion(x);
            assert(nonterminals_of(e, 0) =~= Seq::<Seq<char>>::empty());
            assert(nonterminals_of(e, 1) =~= seq![bracketed_spec(s)]);
            assert(bracketed_all(seq![s]) =~= seq![bracketed_spec(s)]);
        },
        ExprView::T(s) => {
            let e = flat_expansion(x);
            assert(nonterminals_of(e, 0) =~= Seq::<Seq<char>>::empty());
            assert(nonterminals_of(e, 1) =~= Seq::<Seq<char>>::empty());
            assert(bracketed_all(expr_references(x)) =~= Seq::<Seq<char>>::empty());
        },
        ExprView::Cat(es) => {
            lemma_singles_references(es, es.len());
            assert(flat_expansion(x) == single_symbols(es, es.len()));
            assert(expr_references(x) == seq_references(es, es.len()));
        },
        ExprView::Alt(es) => {
            lemma_flat_sequence_references(es[0]);
            assert(seq_references(es, 0) =~= Seq::<Seq<char>>::empty());
            assert(seq_references(es, 1) =~= expr_references(es[0]));
            assert(expr_references(x) == seq_references(es, es.len()));
            assert(flat_expansion(x) == flat_expansion(es[0]));
        },
        _ => {},
    }
}

/// The references of the expansions of a flat expression are the
/// nonterminals that the expression names, between angle brackets.
pub proof fn lemma_flat_references(x: ExprView)
    requires
        flat(x),
    ensures
        references(flat_expansions(x), flat_expansions(x).len()) == bracketed_all(
            expr_references(x),
        ),
    decreases x, 0nat,
{
    if flat_sequence(x) {
        lemma_flat_sequence_references(x);
        let exps = flat_expansions(x);
        assert(exps == seq![flat_expansion(x)]);
        assert(references(exps, 0) =~= Seq::<Seq<char>>::empty());
        assert(references(exps, 1) =~= nonterminals_of(exps[0], exps[0].len()));
    } else {
        match x {
            ExprView::Alt(es) => {
                lemma_all_flat_references(es, es.len());
            },
            _ => {},
        }
    }
}

/// The references of the expansions of a choice between flat expressions
/// are the nonterminals that the expressions name, between angle brackets.
pub proof fn lemma_all_flat_references(es: Seq<ExprView>, k: nat)
    requires
        all_flat(es, k),
        k <= es.len(),
    ensures
        references(alt_expansions(es, k), alt_expansions(es, k).len()) == bracketed_all(
            seq_references(es, k),
        ),
    decreases es, k,
{
    if k == 0 {
        assert(references(alt_expansions(es, 0), 0) =~= Seq::<Seq<char>>::empty());
        assert(bracketed_all(seq_references(es, 0)) =~= Seq::<Seq<char>>::empty());
    } else {
        lemma_all_flat_references(es, (k - 1) as nat);
        lemma_flat_references(es[k - 1]);
        let before = alt_expansions(es, (k - 1) as nat);
        let last = flat_expansions(es[k - 1]);
        lemma_references_concat(before, last, last.len());
        assert(bracketed_all(seq_references(es, (k - 1) as nat) + expr_references(es[k - 1]))
            =~= bracketed_all(seq_references(es, (k - 1) as nat)) + bracketed_all(
            expr_references(es[k - 1]),
        ));
    }
}

/// The graph of the lowering of a flat grammar is the graph of the grammar
/// with every name between angle brackets.
pub proof fn lemma_flat_graph(g: Seq<EbnfRuleView>, i: int)
    requires
        flat_grammar(g),
        0 <= i < g.len(),
    ensures
        grammar_graph(flat_rules(g, g.len())).len() == g.len(),
        grammar_graph(flat_rules(g, g.len()))[i].name == bracketed_spec(ebnf_graph(g)[i].name),
        grammar_graph(flat_rules(g, g.len()))[i].refs == bracketed_all(ebnf_graph(g)[i].refs),
{
    lemma_flat_references(g[i].expr);
}

/// What is reached in a flat grammar is reached in its lowering, under its
/// name between angle brackets.
pub proof fn lemma_reach_forward(g: Seq<EbnfRuleView>, x: Seq<char>, n: nat)
    requires
        flat_grammar(g),
        reach_in(ebnf_graph(g), ebnf_start(), x, n),
    ensures
        reach_in(grammar_graph(flat_rules(g, g.len())), start_symbol(), bracketed_spec(x), n),
    decreases n,
{
    let from = ebnf_graph(g);
    let to = grammar_graph(flat_rules(g, g.len()));
    if n == 0 {
        assert(bracketed_spec(ebnf_start()) =~= start_symbol());
    } else {
        let y = choose|y: Seq<char>|
            #![trigger edge(from, y, x)]
            reach_in(from, ebnf_start(), y, (n - 1) as nat) && edge(from, y, x);
        lemma_reach_forward(g, y, (n - 1) as nat);
        let i = choose|i: int| 0 <= i < from.len() && #[trigger] from[i].name == y && from[i].refs.contains(x);
        lemma_flat_graph(g, i);
        let j = choose|j: int| 0 <= j < from[i].refs.len() && from[i].refs[j] == x;
        assert(to[i].refs[j] == bracketed_spec(x));
        assert(to[i].name == bracketed_spec(y) && to[i].refs.contains(bracketed_spec(x)));
        assert(edge(to, bracketed_spec(y), bracketed_spec(x)));
    }
}

/// What is reached in the lowering of a flat grammar is the name, between
/// angle brackets, of something reached in the grammar.
pub proof fn lemma_reach_back(g: Seq<EbnfRuleView>, v: Seq<char>, n: nat) -> (x: Seq<char>)
    requires
        flat_grammar(g),
        reach_in(grammar_graph(flat_rules(g, g.len())), start_symbol(), v, n),
    ensures
        v == bracketed_spec(x),
        reach_in(ebnf_graph(g), ebnf_start(), x, n),
    decreases n,
{
    let from = ebnf_graph(g);
    let to = grammar_graph(flat_rules(g, g.len()));
    if n == 0 {
        assert(bracketed_spec(ebnf_start()) =~= start_symbol());
        ebnf_start()
    } else {
        let u = choose|u: Seq<char>|
            #![trigger edge(to, u, v)]
            reach_in(to, start_symbol(), u, (n - 1) as nat) && edge(to, u, v);
        let y = lemma_reach_back(g, u, (n - 1) as nat);
        let i = choose|i: int| 0 <= i < to.len() && #[trigger] to[i].name == u && to[i].refs.contains(v);
        lemma_flat_graph(g, i);
        lemma_bracketed_injective(from[i].name, y);
        let j = choose|j: int| 0 <= j < to[i].refs.len() && to[i].refs[j] == v;
        let x = from[i].refs[j];
        assert(to[i].refs[j] == bracketed_spec(x));
        assert(from[i].name == y && from[i].refs.contains(x));
        assert(edge(from, y, x));
        x
    }
}

/// A flat grammar in EBNF that is valid lowers to a valid grammar: every
/// nonterminal that the lowering refers to has a rule, and every rule can
/// be reached from the start symbol and has an expansion.
pub proof fn lemma_flat_valid_grammar_lowers_to_valid(g: Seq<EbnfRuleView>)
    requires
        ebnf_distinct_names(g),
        flat_grammar(g),
        ebnf_valid(g),
    ensures
        to_bnf_spec(g) == Some(flat_rules(g, g.len())),
        valid(flat_rules(g, g.len())),
{
    lemma_flat_grammar_prints_alike(g);
    lemma_lower_flat_rules(g, g.len());
    let bnf = flat_rules(g, g.len());
    let from = ebnf_graph(g);
    let to = grammar_graph(bnf);
    assert forall|v: Seq<char>| grammar_reachable(bnf, v) implies defines(bnf, v) by {
        let n = choose|n: nat| reach_in(to, start_symbol(), v, n);
        let x = lemma_reach_back(g, v, n);
        assert(reachable(from, ebnf_start(), x));
        assert(ebnf_defines(g, x));
        let i = choose|i: int| 0 <= i < g.len() && #[trigger] g[i].name == x;
        assert(bnf[i].name == v);
    }
    assert forall|v: Seq<char>| #[trigger] defines(bnf, v) implies grammar_reachable(bnf, v)
        && expansions_of(bnf, v).len() > 0 by {
        let i = choose|i: int| 0 <= i < bnf.len() && #[trigger] bnf[i].name == v;
        lemma_index_of(bnf, i);
        lemma_flat_text(g[i].expr);
        assert(ebnf_reachable(g, g[i].name));
        let n = choose|n: nat| reach_in(from, ebnf_start(), g[i].name, n);
        lemma_reach_forward(g, g[i].name, n);
        assert(reach_in(to, start_symbol(), v, n));
    }
}

/// A flat grammar in EBNF whose lowering is valid is valid itself.
pub proof fn lemma_flat_grammar_with_valid_lowering_is_valid(g: Seq<EbnfRuleView>)
    requires
        ebnf_distinct_names(g),
        flat_grammar(g),
        valid(flat_rules(g, g.len())),
    ensures
        ebnf_valid(g),
{
    lemma_lower_flat_rules(g, g.len());
    let bnf = flat_rules(g, g.len());
    let from = ebnf_graph(g);
    let to = grammar_graph(bnf);
    assert forall|x: Seq<char>| ebnf_reachable(g, x) implies ebnf_defines(g, x) by {
        let n = choose|n: nat| reach_in(from, ebnf_start(), x, n);
        lemma_reach_forward(g, x, n);
        assert(reachable(to, start_symbol(), bracketed_spec(x)));
        assert(defines(bnf, bracketed_spec(x)));
        let i = choose|i: int| 0 <= i < bnf.len() && #[trigger] bnf[i].name == bracketed_spec(x);
        lemma_bracketed_injective(g[i].name, x);
        assert(g[i].name == x);
    }
    assert forall|i: int| 0 <= i < g.len() implies ebnf_reachable(g, (#[trigger] g[i]).name) by {
        assert(bnf[i].name == bracketed_spec(g[i].name));
        assert(defines(bnf, bnf[i].name));
        assert(grammar_reachable(bnf, bnf[i].name));
        let n = choose|n: nat| reach_in(to, start_symbol(), bnf[i].name, n);
        let x = lemma_reach_back(g, bnf[i].name, n);
        lemma_bracketed_injective(x, g[i].name);
        assert(reachable(from, ebnf_start(), x));
    }
}

} // verus!
