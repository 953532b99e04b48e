//! Trimming and validity of grammars.
//!
//! A grammar is valid when every nonterminal that can be reached from the
//! start symbol has a rule, and every rule can be reached: there is nothing
//! missing and nothing dead. `trim` keeps the rules that can be reached;
//! `is_valid` compares the result with the grammar itself.

use vstd::prelude::*;
use vstd::string::*;
use crate::ebnf::{Ebnf, EbnfRule, EbnfRuleView, Expr, ExprView};
use crate::grammar::{
    clone_expansion, defines, distinct_names, expansions_of, index_of, lemma_index_of,
    lemma_with_production, same_rules, start_symbol, with_production, Expansion, Grammar, Rule,
    RuleView,
};
use crate::reach::{
    distinct_nodes, edge, graph_view, lemma_reachable_step, node_defined, reach, reachable, NodeView,
};
use crate::text::{is_nonterminal, is_nonterminal_spec};

verus! {

/// The nonterminals among the first `k` symbols of an expansion, in order.
pub open spec fn nonterminals_of(e: Seq<Seq<char>>, k: nat) -> Seq<Seq<char>>
    decreases k,
{
    if k == 0 || k > e.len() {
        Seq::empty()
    } else if is_nonterminal_spec(e[k - 1]) {
        nonterminals_of(e, (k - 1) as nat).push(e[k - 1])
    } else {
        nonterminals_of(e, (k - 1) as nat)
    }
}

/// The nonterminals of the first `k` expansions, in order.
pub open spec fn references(exps: Seq<Seq<Seq<char>>>, k: nat) -> Seq<Seq<char>>
    decreases k,
{
    if k == 0 || k > exps.len() {
        Seq::empty()
    } else {
        references(exps, (k - 1) as nat) + nonterminals_of(exps[k - 1], exps[k - 1].len())
    }
}

/// The graph of a grammar: one node per rule, which refers to the
/// nonterminals of the rule's expansions.
pub open spec fn grammar_graph(g: Seq<RuleView>) -> Seq<NodeView> {
    Seq::new(
        g.len(),
        |i: int| NodeView { name: g[i].name, refs: references(g[i].expansions, g[i].expansions.len()) },
    )
}

/// The nonterminal `x` is the start symbol or is referred to, directly or
/// through other rules, by the rule of the start symbol.
pub open spec fn grammar_reachable(g: Seq<RuleView>, x: Seq<char>) -> bool {
    reachable(grammar_graph(g), start_symbol(), x)
}

/// The nonterminals of an expansion hold each of its symbols that is a
/// nonterminal.
pub proof fn lemma_nonterminals_of_holds(e: Seq<Seq<char>>, k: nat, j: int)
    requires
        0 <= j < k <= e.len(),
        is_nonterminal_spec(e[j]),
    ensures
        nonterminals_of(e, k).contains(e[j]),
    decreases k,
{
    let now = nonterminals_of(e, k);
    if j == k - 1 {
        assert(now[now.len() - 1] == e[j]);
    } else {
        lemma_nonterminals_of_holds(e, (k - 1) as nat, j);
        let prev = nonterminals_of(e, (k - 1) as nat);
        let w = choose|w: int| 0 <= w < prev.len() && prev[w] == e[j];
        assert(now[w] == e[j]);
    }
}

/// The references of a rule hold the nonterminals of each of its
/// expansions.
pub proof fn lemma_references_hold(exps: Seq<Seq<Seq<char>>>, k: nat, i: int, y: Seq<char>)
    requires
        0 <= i < k <= exps.len(),
        nonterminals_of(exps[i], exps[i].len()).contains(y),
    ensures
        references(exps, k).contains(y),
    decreases k,
{
    let last = nonterminals_of(exps[k - 1], exps[k - 1].len());
    let prev = references(exps, (k - 1) as nat);
    if i == k - 1 {
        let w = choose|w: int| 0 <= w < last.len() && last[w] == y;
        assert((prev + last)[prev.len() + w] == y);
    } else {
        lemma_references_hold(exps, (k - 1) as nat, i, y);
        let w = choose|w: int| 0 <= w < prev.len() && prev[w] == y;
        assert((prev + last)[w] == y);
    }
}

/// A nonterminal that an expansion of a reachable rule names can be
/// reached too.
pub proof fn lemma_reachable_symbol(g: Seq<RuleView>, r: int, e: int, j: int)
    requires
        0 <= r < g.len(),
        grammar_reachable(g, g[r].name),
        0 <= e < g[r].expansions.len(),
        0 <= j < g[r].expansions[e].len(),
        is_nonterminal_spec(g[r].expansions[e][j]),
    ensures
        grammar_reachable(g, g[r].expansions[e][j]),
{
    let expansion = g[r].expansions[e];
    let y = expansion[j];
    lemma_nonterminals_of_holds(expansion, expansion.len(), j);
    lemma_references_hold(g[r].expansions, g[r].expansions.len(), e, y);
    let gr = grammar_graph(g);
    assert(gr[r].name == g[r].name && gr[r].refs.contains(y));
    assert(edge(gr, g[r].name, y));
    lemma_reachable_step(gr, start_symbol(), g[r].name, y);
}

/// Every nonterminal that can be reached has a rule.
pub open spec fn closed(g: Seq<RuleView>) -> bool {
    forall|x: Seq<char>| grammar_reachable(g, x) ==> defines(g, x)
}

/// `t` holds the rules of `g` that can be reached and have an expansion,
/// and no others.
pub open spec fn trimmed(g: Seq<RuleView>, t: Seq<RuleView>) -> bool {
    &&& distinct_names(t)
    &&& forall|x: Seq<char>|
        #[trigger] expansions_of(t, x) == (if grammar_reachable(g, x) {
            expansions_of(g, x)
        } else {
            Seq::empty()
        })
    &&& forall|x: Seq<char>|
        #[trigger] defines(t, x) == (grammar_reachable(g, x) && expansions_of(g, x).len() > 0)
}

/// A grammar is valid when it is closed and each of its rules can be
/// reached and has an expansion.
pub open spec fn valid(g: Seq<RuleView>) -> bool {
    &&& closed(g)
    &&& forall|x: Seq<char>|
        #[trigger] defines(g, x) ==> grammar_reachable(g, x) && expansions_of(g, x).len() > 0
}

/// A grammar with a rule that cannot be reached is not valid.
pub proof fn lemma_dead_rule_is_invalid(g: Seq<RuleView>, x: Seq<char>)
    requires
        defines(g, x),
        !grammar_reachable(g, x),
    ensures
        !valid(g),
{
}

/// A production added for a nonterminal that the grammar then cannot reach
/// makes the grammar invalid.
pub proof fn lemma_unreachable_production_is_invalid(
    g: Seq<RuleView>,
    x: Seq<char>,
    e: Seq<Seq<char>>,
)
    requires
        distinct_names(g),
        !grammar_reachable(with_production(g, x, e), x),
    ensures
        !valid(with_production(g, x, e)),
{
    lemma_with_production(g, x, e);
    lemma_dead_rule_is_invalid(with_production(g, x, e), x);
}

/// The graph of a grammar has a node for a name when the grammar has a rule
/// for it.
pub proof fn lemma_graph_defines(g: Seq<RuleView>, x: Seq<char>)
    ensures
        node_defined(grammar_graph(g), x) == defines(g, x),
        distinct_nodes(grammar_graph(g)) == distinct_names(g),
{
    let gr = grammar_graph(g);
    if node_defined(gr, x) {
        let i = choose|i: int| 0 <= i < gr.len() && #[trigger] gr[i].name == x;
        assert(g[i].name == x);
    }
    if defines(g, x) {
        let i = index_of(g, x);
        assert(gr[i].name == x);
    }
    if distinct_names(g) {
        assert forall|i: int, j: int| 0 <= i < j < gr.len() implies #[trigger] gr[i].name
            != #[trigger] gr[j].name by {
            assert(g[i].name != g[j].name);
        }
    }
    if distinct_nodes(gr) {
        assert forall|i: int, j: int| 0 <= i < j < g.len() implies #[trigger] g[i].name
            != #[trigger] g[j].name by {
            assert(gr[i].name != gr[j].name);
        }
    }
}

/// Why a grammar cannot be trimmed.
#[derive(Debug, PartialEq, Eq)]
pub enum GrammarError {
    /// The nonterminal is used on a right-hand side, within reach of the
    /// start symbol, but no rule defines it.
    UndefinedNonterminal(String),
}

impl GrammarError {
    /// The error as a sentence.
    pub fn message(&self) -> (r: String)
        ensures
            r@ == "Nonterminal "@ + self->UndefinedNonterminal_0@
                + " is referenced/used in the RHS but not defined in the LHS of any production rule"@,
    {
        match self {
            GrammarError::UndefinedNonterminal(name) => {
                let mut r = String::from_str("Nonterminal ");
                r.append(name.as_str());
                r.append(
                    " is referenced/used in the RHS but not defined in the LHS of any production rule",
                );
                r
            },
        }
    }
}

/// Compares two expansions symbol by symbol.
pub fn expansion_eq(a: &Expansion, b: &Expansion) -> (r: bool)
    ensures
        r == (a.deep_view() == b.deep_view()),
{
    if a.len() != b.len() {
        assert(a.deep_view().len() != b.deep_view().len());
        return false;
    }
    let mut i: usize = 0;
    while i < a.len()
        invariant
            i <= a.len(),
            a.len() == b.len(),
            forall|j: int| 0 <= j < i ==> a[j]@ == b[j]@,
        decreases a.len() - i,
    {
        if a[i] != b[i] {
            assert(a.deep_view()[i as int] != b.deep_view()[i as int]);
            return false;
        }
        i += 1;
    }
    assert(a.deep_view() =~= b.deep_view());
    true
}

/// Compares two lists of expansions.
pub fn expansions_eq(a: &Vec<Expansion>, b: &Vec<Expansion>) -> (r: bool)
    ensures
        r == (a.deep_view() == b.deep_view()),
{
    if a.len() != b.len() {
        assert(a.deep_view().len() != b.deep_view().len());
        return false;
    }
    let mut i: usize = 0;
    while i < a.len()
        invariant
            i <= a.len(),
            a.len() == b.len(),
            forall|j: int| 0 <= j < i ==> a[j].deep_view() == b[j].deep_view(),
        decreases a.len() - i,
    {
        if !expansion_eq(&a[i], &b[i]) {
            assert(a.deep_view()[i as int] != b.deep_view()[i as int]);
            return false;
        }
        i += 1;
    }
    assert(a.deep_view() =~= b.deep_view());
    true
}

/// The nonterminals that a rule's expansions refer to, in order.
pub fn rule_references(rule: &Rule) -> (r: Vec<String>)
    ensures
        r.deep_view() == references(rule@.expansions, rule@.expansions.len()),
{
    let ghost exps = rule@.expansions;
    let mut r: Vec<String> = Vec::new();
    let mut k: usize = 0;
    assert(r.deep_view() =~= references(exps, 0));
    while k < rule.expansions.len()
        invariant
            k <= rule.expansions.len(),
            exps == rule@.expansions,
            exps == rule.expansions.deep_view(),
            r.deep_view() == references(exps, k as nat),
        decreases rule.expansions.len() - k,
    {
        let expansion = &rule.expansions[k];
        let ghost e = exps[k as int];
        assert(e == expansion.deep_view());
        let ghost before = r.deep_view();
        let mut j: usize = 0;
        assert(r.deep_view() =~= before + nonterminals_of(e, 0));
        while j < expansion.len()
            invariant
                j <= expansion.len(),
                e == expansion.deep_view(),
                r.deep_view() == before + nonterminals_of(e, j as nat),
            decreases expansion.len() - j,
        {
            assert(e[j as int] == expansion[j as int]@);
            let ghost prev = r.deep_view();
            if is_nonterminal(expansion[j].as_str()) {
                r.push(expansion[j].clone());
                assert(r.deep_view() =~= prev.push(e[j as int]));
                assert(r.deep_view() =~= before + nonterminals_of(e, (j + 1) as nat));
            }
            j += 1;
        }
        k += 1;
    }
    r
}

impl Grammar {
    /// The graph of the grammar: the names of the rules and, for each, the
    /// nonterminals it refers to.
    pub fn graph(&self) -> (r: (Vec<String>, Vec<Vec<String>>))
        ensures
            r.0@.len() == r.1@.len(),
            r.0@.len() == self@.len(),
            graph_view(r.0@, r.1@) == grammar_graph(self@),
    {
        let mut names: Vec<String> = Vec::new();
        let mut refs: Vec<Vec<String>> = Vec::new();
        let mut i: usize = 0;
        while i < self.rules.len()
            invariant
                i <= self.rules.len(),
                names@.len() == i,
                refs@.len() == i,
                forall|j: int| 0 <= j < i ==> names@[j]@ == self@[j].name,
                forall|j: int|
                    0 <= j < i ==> (#[trigger] refs@[j]).deep_view() == references(
                        self@[j].expansions,
                        self@[j].expansions.len(),
                    ),
            decreases self.rules.len() - i,
        {
            assert(self@[i as int] == self.rules[i as int]@);
            names.push(self.rules[i].name.clone());
            refs.push(rule_references(&self.rules[i]));
            i += 1;
        }
        assert(graph_view(names@, refs@) =~= grammar_graph(self@));
        (names, refs)
    }

    /// Creates a copy of the grammar with only the rules that can be
    /// reached from the start symbol, in the order in which a depth-first
    /// walk meets them. Fails where the walk meets a nonterminal without a
    /// rule.
    pub fn trim(&self) -> (r: Result<Grammar, GrammarError>)
        requires
            self.wf(),
        ensures
            r is Ok == closed(self@),
            r matches Ok(t) ==> t.wf() && trimmed(self@, t@),
            r matches Err(e) ==> grammar_reachable(self@, e->UndefinedNonterminal_0@) && !defines(
                self@,
                e->UndefinedNonterminal_0@,
            ),
    {
        let ghost g = self@;
        let ghost gr = grammar_graph(g);
        let (names, refs) = self.graph();
        proof {
            reveal_strlit("<start>");
            assert("<start>"@ =~= start_symbol());
            lemma_graph_defines(g, start_symbol());
            assert forall|x: Seq<char>| node_defined(gr, x) == defines(g, x) by {
                lemma_graph_defines(g, x);
            }
        }
        match reach(&names, &refs, "<start>") {
            Err(x) => Err(GrammarError::UndefinedNonterminal(x)),
            Ok(order) => {
                let mut res = Grammar::new();
                let mut j: usize = 0;
                while j < order.len()
                    invariant
                        j <= order.len(),
                        self.wf(),
                        g == self@,
                        res.wf(),
                        names@.len() == g.len(),
                        forall|a: int| 0 <= a < order@.len() ==> (#[trigger] order@[a]) < g.len(),
                        forall|a: int, b: int|
                            0 <= a < b < order@.len() ==> #[trigger] order@[a] != #[trigger] order@[b],
                        forall|x: Seq<char>|
                            #[trigger] expansions_of(res@, x) == (if visited(g, order@, j as nat, x) {
                                expansions_of(g, x)
                            } else {
                                Seq::empty()
                            }),
                        forall|x: Seq<char>|
                            #[trigger] defines(res@, x) == (expansions_of(res@, x).len() > 0),
                    decreases order.len() - j,
                {
                    let r = order[j];
                    let rule = &self.rules[r];
                    let ghost name = g[r as int].name;
                    assert(g[r as int] == rule@);
                    proof {
                        lemma_index_of(g, r as int);
                        if visited(g, order@, j as nat, name) {
                            let a = choose|a: int|
                                0 <= a < j && g[(#[trigger] order@[a]) as int].name == name;
                            let ra = order@[a] as int;
                            if ra < r {
                                assert(g[ra].name != g[r as int].name);
                            }
                            if r < ra {
                                assert(g[r as int].name != g[ra].name);
                            }
                            assert(false);
                        }
                    }
                    let mut e: usize = 0;
                    assert(expansions_of(res@, name) =~= g[r as int].expansions.subrange(0, 0));
                    while e < rule.expansions.len()
                        invariant
                            e <= rule.expansions.len(),
                            self.wf(),
                            g == self@,
                            res.wf(),
                            0 <= r < g.len(),
                            j < order@.len(),
                            r == order@[j as int],
                            g[r as int] == rule@,
                            name == g[r as int].name,
                            !visited(g, order@, j as nat, name),
                            forall|x: Seq<char>|
                                x != name ==> #[trigger] expansions_of(res@, x) == (if visited(
                                    g,
                                    order@,
                                    j as nat,
                                    x,
                                ) {
                                    expansions_of(g, x)
                                } else {
                                    Seq::empty()
                                }),
                            expansions_of(res@, name) == g[r as int].expansions.subrange(
                                0,
                                e as int,
                            ),
                            forall|x: Seq<char>|
                                #[trigger] defines(res@, x) == (expansions_of(res@, x).len() > 0),
                        decreases rule.expansions.len() - e,
                    {
                        let ghost before = res@;
                        let ghost ev = g[r as int].expansions[e as int];
                        assert(ev == rule.expansions[e as int].deep_view());
                        proof {
                            lemma_with_production(before, name, ev);
                        }
                        res.add_production_(rule.name.clone(), clone_expansion(&rule.expansions[e]));
                        assert(res@ == with_production(before, name, ev));
                        assert forall|x: Seq<char>| x != name implies #[trigger] expansions_of(
                            res@,
                            x,
                        ) == expansions_of(before, x) by {}
                        assert forall|x: Seq<char>| x != name implies defines(res@, x) == defines(
                            before,
                            x,
                        ) by {}
                        assert(expansions_of(res@, name) =~= g[r as int].expansions.subrange(
                            0,
                            e as int + 1,
                        ));
                        assert forall|x: Seq<char>| #[trigger]
                            defines(res@, x) == (expansions_of(res@, x).len() > 0) by {
                            if x != name {
                                assert(defines(before, x) == (expansions_of(before, x).len() > 0));
                            }
                        }
                        e += 1;
                    }
                    proof {
                        lemma_index_of(g, r as int);
                        assert(g[r as int].expansions.subrange(0, e as int) =~= g[r as int].expansions);
                        assert forall|x: Seq<char>| #[trigger]
                            expansions_of(res@, x) == (if visited(g, order@, (j + 1) as nat, x) {
                                expansions_of(g, x)
                            } else {
                                Seq::empty()
                            }) by {
                            if x == name {
                                assert(g[order@[j as int] as int].name == name);
                                assert(visited(g, order@, (j + 1) as nat, x));
                            } else {
                                if visited(g, order@, j as nat, x) {
                                    let a = choose|a: int|
                                        0 <= a < j && g[(#[trigger] order@[a]) as int].name == x;
                                    assert(visited(g, order@, (j + 1) as nat, x));
                                }
                                if visited(g, order@, (j + 1) as nat, x) {
                                    let a = choose|a: int|
                                        0 <= a < j + 1 && g[(#[trigger] order@[a]) as int].name
                                            == x;
                                    assert(a < j);
                                    assert(visited(g, order@, j as nat, x));
                                }
                            }
                        }
                    }
                    j += 1;
                }
                proof {
                    assert forall|x: Seq<char>|
                        visited(g, order@, order@.len(), x) == grammar_reachable(g, x) by {
                        if visited(g, order@, order@.len(), x) {
                            let a = choose|a: int|
                                0 <= a < order@.len() && g[(#[trigger] order@[a]) as int].name
                                    == x;
                            let i = order@[a] as int;
                            assert(order@.contains(i as usize));
                            assert(names@[i]@ == gr[i].name);
                        }
                        if grammar_reachable(g, x) {
                            assert(node_defined(gr, x));
                            let i = choose|i: int| 0 <= i < gr.len() && #[trigger] gr[i].name == x;
                            assert(names@[i]@ == x);
                            assert(order@.contains(i as usize));
                            let a = choose|a: int| 0 <= a < order@.len() && order@[a] == i as usize;
                            assert(gr[i].name == g[i].name);
                            assert(order@[a] as int == i);
                            assert(g[order@[a] as int].name == x);
                        }
                    }
                    assert forall|x: Seq<char>| grammar_reachable(g, x) implies defines(g, x) by {
                        assert(node_defined(gr, x));
                    }
                }
                Ok(res)
            },
        }
    }

    /// Tells whether the two grammars hold the same rules, whatever the
    /// order of the rules.
    pub fn same_rules(&self, other: &Grammar) -> (r: bool)
        requires
            self.wf(),
            other.wf(),
        ensures
            r == same_rules(self@, other@),
    {
        let mut i: usize = 0;
        while i < self.rules.len()
            invariant
                i <= self.rules.len(),
                self.wf(),
                other.wf(),
                forall|a: int|
                    0 <= a < i ==> defines(other@, (#[trigger] self@[a]).name) && expansions_of(
                        other@,
                        self@[a].name,
                    ) == self@[a].expansions,
            decreases self.rules.len() - i,
        {
            let rule = &self.rules[i];
            assert(self@[i as int] == rule@);
            proof {
                lemma_index_of(self@, i as int);
            }
            match other.get(rule.name.as_str()) {
                None => {
                    return false;
                },
                Some(expansions) => {
                    if !expansions_eq(&rule.expansions, expansions) {
                        return false;
                    }
                },
            }
            i += 1;
        }
        let mut j: usize = 0;
        while j < other.rules.len()
            invariant
                j <= other.rules.len(),
                self.wf(),
                other.wf(),
                forall|a: int|
                    0 <= a < self@.len() ==> defines(other@, (#[trigger] self@[a]).name)
                        && expansions_of(other@, self@[a].name) == self@[a].expansions,
                forall|b: int| 0 <= b < j ==> defines(self@, (#[trigger] other@[b]).name),
            decreases other.rules.len() - j,
        {
            assert(other@[j as int] == other.rules[j as int]@);
            proof {
                lemma_index_of(other@, j as int);
            }
            if !self.contains_key(other.rules[j].name.as_str()) {
                return false;
            }
            j += 1;
        }
        proof {
            assert forall|n: Seq<char>| defines(self@, n) == defines(other@, n) by {
                if defines(self@, n) {
                    let a = index_of(self@, n);
                    assert(defines(other@, self@[a].name));
                }
                if defines(other@, n) {
                    let b = index_of(other@, n);
                    assert(defines(self@, other@[b].name));
                }
            }
            assert forall|n: Seq<char>| expansions_of(self@, n) == expansions_of(other@, n) by {
                if defines(self@, n) {
                    let a = index_of(self@, n);
                    lemma_index_of(self@, a);
                    assert(expansions_of(other@, self@[a].name) == self@[a].expansions);
                }
            }
        }
        true
    }

    /// Checks that the grammar is valid: nothing that can be reached from
    /// the start symbol is missing, and no rule is dead or empty.
    pub fn is_valid(&self) -> (r: bool)
        requires
            self.wf(),
        ensures
            r == valid(self@),
    {
        match self.trim() {
            Ok(grammar) => {
                let same = self.same_rules(&grammar);
                proof {
                    let g = self@;
                    let t = grammar@;
                    if same {
                        assert forall|x: Seq<char>| #[trigger] defines(g, x) implies grammar_reachable(
                            g,
                            x,
                        ) && expansions_of(g, x).len() > 0 by {
                            assert(defines(t, x));
                        }
                    }
                    if valid(g) {
                        assert forall|n: Seq<char>| defines(g, n) == defines(t, n) by {
                            if !defines(g, n) {
                                assert(expansions_of(g, n).len() == 0);
                            }
                        }
                        assert forall|n: Seq<char>| expansions_of(g, n) == expansions_of(t, n) by {
                            if !grammar_reachable(g, n) {
                                assert(!defines(g, n));
                            }
                        }
                    }
                }
                same
            },
            Err(_) => false,
        }
    }
}

/// The nonterminals that an expression names, from left to right.
pub open spec fn expr_references(e: ExprView) -> Seq<Seq<char>>
    decreases e, 0nat,
{
    match e {
        ExprView::Alt(es) => seq_references(es, es.len()),
        ExprView::Cat(es) => seq_references(es, es.len()),
        ExprView::Opt(inner) => expr_references(*inner),
        ExprView::Plus(inner) => expr_references(*inner),
        ExprView::Star(inner) => expr_references(*inner),
        ExprView::NT(s) => seq![s],
        ExprView::T(_) => Seq::empty(),
    }
}

/// The nonterminals that the first `k` of the expressions name.
pub open spec fn seq_references(es: Seq<ExprView>, k: nat) -> Seq<Seq<char>>
    decreases es, k,
{
    if k == 0 || k > es.len() {
        Seq::empty()
    } else {
        seq_references(es, (k - 1) as nat) + expr_references(es[k - 1])
    }
}

/// The graph of an EBNF grammar: one node per rule, which refers to the
/// nonterminals of the rule's expression.
pub open spec fn ebnf_graph(g: Seq<EbnfRuleView>) -> Seq<NodeView> {
    Seq::new(g.len(), |i: int| NodeView { name: g[i].name, refs: expr_references(g[i].expr) })
}

/// Name of the start symbol of an EBNF grammar, whose rules are named
/// without angle brackets.
pub open spec fn ebnf_start() -> Seq<char> {
    seq!['s', 't', 'a', 'r', 't']
}

/// The nonterminal `x` is the start symbol or is named, directly or through
/// other rules, by the rule of the start symbol.
pub open spec fn ebnf_reachable(g: Seq<EbnfRuleView>, x: Seq<char>) -> bool {
    reachable(ebnf_graph(g), ebnf_start(), x)
}

/// Every nonterminal that can be reached has a rule.
pub open spec fn ebnf_closed(g: Seq<EbnfRuleView>) -> bool {
    forall|x: Seq<char>| ebnf_reachable(g, x) ==> crate::ebnf::ebnf_defines(g, x)
}

/// An EBNF grammar is valid when it is closed and each of its rules can be
/// reached.
pub open spec fn ebnf_valid(g: Seq<EbnfRuleView>) -> bool {
    &&& ebnf_closed(g)
    &&& forall|i: int| 0 <= i < g.len() ==> ebnf_reachable(g, (#[trigger] g[i]).name)
}

/// `r` is one of the rules of `g`.
pub open spec fn holds_rule(g: Seq<EbnfRuleView>, r: EbnfRuleView) -> bool {
    exists|i: int| 0 <= i < g.len() && #[trigger] g[i] == r
}

/// `t` holds the rules of `g` that can be reached, and no others.
pub open spec fn ebnf_trimmed(g: Seq<EbnfRuleView>, t: Seq<EbnfRuleView>) -> bool {
    &&& forall|j: int|
        0 <= j < t.len() ==> holds_rule(g, #[trigger] t[j]) && ebnf_reachable(g, t[j].name)
    &&& forall|i: int|
        0 <= i < g.len() && ebnf_reachable(g, (#[trigger] g[i]).name) ==> holds_rule(t, g[i])
}

/// Appends the nonterminals that an expression names to `out`.
pub fn collect_references(e: &Expr, out: &mut Vec<String>)
    ensures
        final(out).deep_view() == old(out).deep_view() + expr_references(e@),
    decreases e,
{
    match e {
        Expr::Alt(exprs) => {
            let ghost es = e@->Alt_0;
            let mut k: usize = 0;
            assert(out.deep_view() =~= old(out).deep_view() + seq_references(es, 0));
            while k < exprs.len()
                invariant
                    k <= exprs.len(),
                    e is Alt,
                    e->Alt_0 == *exprs,
                    es == e@->Alt_0,
                    es.len() == exprs.len(),
                    forall|j: int| 0 <= j < exprs.len() ==> es[j] == exprs[j]@,
                    out.deep_view() == old(out).deep_view() + seq_references(es, k as nat),
                decreases exprs.len() - k,
            {
                collect_references(&exprs[k], out);
                assert(out.deep_view() =~= old(out).deep_view() + seq_references(
                    es,
                    (k + 1) as nat,
                ));
                k += 1;
            }
        },
        Expr::Cat(exprs) => {
            let ghost es = e@->Cat_0;
            let mut k: usize = 0;
            assert(out.deep_view() =~= old(out).deep_view() + seq_references(es, 0));
            while k < exprs.len()
                invariant
                    k <= exprs.len(),
                    e is Cat,
                    e->Cat_0 == *exprs,
                    es == e@->Cat_0,
                    es.len() == exprs.len(),
                    forall|j: int| 0 <= j < exprs.len() ==> es[j] == exprs[j]@,
                    out.deep_view() == old(out).deep_view() + seq_references(es, k as nat),
                decreases exprs.len() - k,
            {
                collect_references(&exprs[k], out);
                assert(out.deep_view() =~= old(out).deep_view() + seq_references(
                    es,
                    (k + 1) as nat,
                ));
                k += 1;
            }
        },
        Expr::Opt(inner) => collect_references(&**inner, out),
        Expr::Plus(inner) => collect_references(&**inner, out),
        Expr::Star(inner) => collect_references(&**inner, out),
        Expr::NT(s) => {
            out.push(s.clone());
            assert(out.deep_view() =~= old(out).deep_view() + seq![s@]);
        },
        Expr::T(_) => {
            assert(out.deep_view() =~= old(out).deep_view() + Seq::<Seq<char>>::empty());
        },
    }
}

/// Tells whether `order` holds the position `i`.
pub fn holds_position(order: &Vec<usize>, i: usize) -> (b: bool)
    ensures
        b == order@.contains(i),
{
    let mut j: usize = 0;
    while j < order.len()
        invariant
            j <= order.len(),
            forall|a: int| 0 <= a < j ==> order@[a] != i,
        decreases order.len() - j,
    {
        if order[j] == i {
            return true;
        }
        j += 1;
    }
    false
}

impl Ebnf {
    /// The graph of the grammar: the names of the rules and, for each, the
    /// nonterminals that its expression names.
    pub fn graph(&self) -> (r: (Vec<String>, Vec<Vec<String>>))
        ensures
            r.0@.len() == r.1@.len(),
            r.0@.len() == self@.len(),
            graph_view(r.0@, r.1@) == ebnf_graph(self@),
    {
        let mut names: Vec<String> = Vec::new();
        let mut refs: Vec<Vec<String>> = Vec::new();
        let mut i: usize = 0;
        while i < self.rules.len()
            invariant
                i <= self.rules.len(),
                names@.len() == i,
                refs@.len() == i,
                forall|j: int| 0 <= j < i ==> names@[j]@ == self@[j].name,
                forall|j: int|
                    0 <= j < i ==> (#[trigger] refs@[j]).deep_view() == expr_references(
                        self@[j].expr,
                    ),
            decreases self.rules.len() - i,
        {
            assert(self@[i as int] == self.rules[i as int]@);
            names.push(self.rules[i].name.clone());
            let mut out: Vec<String> = Vec::new();
            assert(out.deep_view() =~= Seq::<Seq<char>>::empty());
            collect_references(&self.rules[i].expr, &mut out);
            assert(out.deep_view() =~= expr_references(self@[i as int].expr));
            refs.push(out);
            i += 1;
        }
        assert(graph_view(names@, refs@) =~= ebnf_graph(self@));
        (names, refs)
    }

    /// The positions of the rules that can be reached from the start
    /// symbol, in the order in which a depth-first walk meets them; or the
    /// first nonterminal without a rule that the walk meets.
    pub fn reachable_rules(&self) -> (r: Result<Vec<usize>, GrammarError>)
        requires
            self.wf(),
        ensures
            r is Ok == ebnf_closed(self@),
            r matches Ok(order) ==> {
                &&& forall|j: int| 0 <= j < order@.len() ==> (#[trigger] order@[j]) < self@.len()
                &&& forall|a: int, b: int|
                    0 <= a < b < order@.len() ==> #[trigger] order@[a] != #[trigger] order@[b]
                &&& forall|i: int|
                    0 <= i < self@.len() ==> (order@.contains(i as usize) <==> ebnf_reachable(
                        self@,
                        (#[trigger] self@[i]).name,
                    ))
            },
            r matches Err(e) ==> ebnf_reachable(self@, e->UndefinedNonterminal_0@)
                && !crate::ebnf::ebnf_defines(self@, e->UndefinedNonterminal_0@),
    {
        let ghost g = self@;
        let ghost gr = ebnf_graph(g);
        let (names, refs) = self.graph();
        proof {
            reveal_strlit("start");
            assert("start"@ =~= ebnf_start());
            assert forall|i: int, j: int| 0 <= i < j < gr.len() implies #[trigger] gr[i].name
                != #[trigger] gr[j].name by {
                assert(g[i].name != g[j].name);
            }
            assert forall|x: Seq<char>| node_defined(gr, x) == crate::ebnf::ebnf_defines(g, x) by {
                if node_defined(gr, x) {
                    let i = choose|i: int| 0 <= i < gr.len() && #[trigger] gr[i].name == x;
                    assert(g[i].name == x);
                }
                if crate::ebnf::ebnf_defines(g, x) {
                    let i = choose|i: int| 0 <= i < g.len() && #[trigger] g[i].name == x;
                    assert(gr[i].name == x);
                }
            }
        }
        assert(names@.len() == names.len());
        match reach(&names, &refs, "start") {
            Err(x) => Err(GrammarError::UndefinedNonterminal(x)),
            Ok(order) => {
                proof {
                    assert forall|i: int| 0 <= i < g.len() implies (order@.contains(i as usize)
                        <==> ebnf_reachable(g, (#[trigger] g[i]).name)) by {
                        assert(graph_view(names@, refs@)[i].name == names@[i]@);
                        assert(gr[i].name == g[i].name);
                        assert(names@[i]@ == g[i].name);
                    }
                }
                Ok(order)
            },
        }
    }

    /// Creates a copy of the grammar with only the rules that can be
    /// reached from the start symbol. Fails where a nonterminal that can be
    /// reached has no rule.
    pub fn trim(&self) -> (r: Result<Ebnf, GrammarError>)
        requires
            self.wf(),
        ensures
            r is Ok == ebnf_closed(self@),
            r matches Ok(t) ==> t.wf() && ebnf_trimmed(self@, t@),
            r matches Err(e) ==> ebnf_reachable(self@, e->UndefinedNonterminal_0@)
                && !crate::ebnf::ebnf_defines(self@, e->UndefinedNonterminal_0@),
    {
        let ghost g = self@;
        assert(self.rules@.len() == self.rules.len());
        match self.reachable_rules() {
            Err(e) => Err(e),
            Ok(order) => {
                let mut rules: Vec<EbnfRule> = Vec::new();
                let mut j: usize = 0;
                while j < order.len()
                    invariant
                        j <= order.len(),
                        g == self@,
                        rules@.len() == j,
                        forall|a: int| 0 <= a < order@.len() ==> (#[trigger] order@[a]) < g.len(),
                        forall|a: int| 0 <= a < j ==> (#[trigger] rules@[a])@ == g[order@[a] as int],
                    decreases order.len() - j,
                {
                    let rule = &self.rules[order[j]];
                    assert(g[order@[j as int] as int] == rule@);
                    rules.push(EbnfRule { name: rule.name.clone(), expr: rule.expr.clone() });
                    j += 1;
                }
                let res = Ebnf { rules: rules };
                proof {
                    let t = res@;
                    assert forall|a: int| 0 <= a < t.len() implies (#[trigger] t[a]) == g[order@[a] as int] by {
                        assert(t[a] == rules@[a]@);
                    }
                    assert forall|a: int, b: int| 0 <= a < b < t.len() implies #[trigger] t[a].name
                        != #[trigger] t[b].name by {
                        let ia = order@[a] as int;
                        let ib = order@[b] as int;
                        assert(ia != ib);
                        if ia < ib {
                            assert(g[ia].name != g[ib].name);
                        } else {
                            assert(g[ib].name != g[ia].name);
                        }
                    }
                    assert forall|a: int| 0 <= a < t.len() implies holds_rule(g, #[trigger] t[a])
                        && ebnf_reachable(g, t[a].name) by {
                        let i = order@[a] as int;
                        assert(order@.contains(i as usize));
                        assert(g[i] == t[a]);
                    }
                    assert forall|i: int|
                        0 <= i < g.len() && ebnf_reachable(g, (#[trigger] g[i]).name) implies holds_rule(
                        t,
                        g[i],
                    ) by {
                        assert(order@.contains(i as usize));
                        let a = choose|a: int| 0 <= a < order@.len() && order@[a] == i as usize;
                        assert(t[a] == g[i]);
                    }
                }
                Ok(res)
            },
        }
    }

    /// Checks that the grammar is valid: nothing that can be reached from
    /// the start symbol is missing, and no rule is dead.
    pub fn is_valid(&self) -> (r: bool)
        requires
            self.wf(),
        ensures
            r == ebnf_valid(self@),
    {
        match self.reachable_rules() {
            Err(_) => false,
            Ok(order) => {
                let mut i: usize = 0;
                while i < self.rules.len()
                    invariant
                        i <= self.rules.len(),
                        forall|a: int|
                            0 <= a < self@.len() ==> (order@.contains(a as usize)
                                <==> ebnf_reachable(self@, (#[trigger] self@[a]).name)),
                        forall|a: int| 0 <= a < i ==> ebnf_reachable(self@, (#[trigger] self@[a]).name),
                    decreases self.rules.len() - i,
                {
                    if !holds_position(&order, i) {
                        assert(!ebnf_reachable(self@, self@[i as int].name));
                        return false;
                    }
                    i += 1;
                }
                true
            },
        }
    }
}

/// The rule for `x` is among the first `j` rules that the walk met.
pub open spec fn visited(g: Seq<RuleView>, order: Seq<usize>, j: nat, x: Seq<char>) -> bool {
    exists|a: int| 0 <= a < j && g[(#[trigger] order[a]) as int].name == x
}

} // verus!
