//! Growing derivation trees: the grammar fuzzer.
//!
//! A tree is grown from the start symbol by expanding one open leaf at a
//! time, in three phases: first with expansions of greatest cost, to make the
//! tree large; then with any expansion; last with expansions of least cost,
//! to close the tree. The last phase ends because each of its steps lowers
//! the summed cost of the open leaves.

use vstd::prelude::*;
use vstd::string::*;
use crate::cost::{
    children_value, cost_le, cost_value, expansion_cost, expansion_cost_spec,
    lemma_cheapest_expansion_le_symbol, lemma_finite_expansion, lemma_finite_symbol_has_expansion,
    seen_set, symbol_cost, symbol_cost_spec, with_name, SymbolCost,
};
use crate::grammar::{
    defines, expansions_of, index_of, lemma_index_of, start_symbol, Grammar, RuleView,
};
use crate::reach::{lemma_reachable_start, reach};
use crate::rng::Rng;
use crate::text::{
    bracketed, bracketed_spec, is_nonterminal, is_nonterminal_spec, str_eq, trim_angle_brackets,
    trim_angle_brackets_spec,
};
use crate::tree::{
    count_open, expansion_nodes, lemma_seq_locate, open_name,
    replace_open, seq_open, symbol_node, symbol_nodes, tree_views, Derivation,
    DerivationView,
};
use crate::validity::{
    closed, grammar_graph, grammar_reachable, lemma_graph_defines, lemma_reachable_symbol,
};

verus! {

/// Cost of the open leaf with the given name: the cost of the nonterminal
/// that the name stands for.
pub open spec fn leaf_cost(g: Seq<RuleView>, name: Seq<char>) -> SymbolCost {
    symbol_cost_spec(g, bracketed_spec(name), Set::empty())
}

/// Summed cost of the open leaves of a tree.
pub open spec fn potential(g: Seq<RuleView>, t: DerivationView) -> nat
    decreases t, 0nat,
{
    match t {
        DerivationView::NT(name, children) => if children.len() == 0 {
            cost_value(leaf_cost(g, name))
        } else {
            seq_potential(g, children, children.len())
        },
        DerivationView::T(_) => 0,
    }
}

/// Summed cost of the open leaves of the first `k` trees of `ts`.
pub open spec fn seq_potential(g: Seq<RuleView>, ts: Seq<DerivationView>, k: nat) -> nat
    decreases ts, k,
{
    if k == 0 || k > ts.len() {
        0
    } else {
        seq_potential(g, ts, (k - 1) as nat) + potential(g, ts[k - 1])
    }
}

/// The open leaf with the given name is live: it stands for a nonterminal
/// of finite cost that can be reached from the start symbol.
pub open spec fn live_leaf(g: Seq<RuleView>, name: Seq<char>) -> bool {
    leaf_cost(g, name) is Finite && grammar_reachable(g, bracketed_spec(name))
}

/// Every open leaf of the tree is live.
pub open spec fn open_live(g: Seq<RuleView>, t: DerivationView) -> bool
    decreases t,
{
    match t {
        DerivationView::NT(name, children) => if children.len() == 0 {
            live_leaf(g, name)
        } else {
            forall|i: int| 0 <= i < children.len() ==> open_live(g, #[trigger] children[i])
        },
        DerivationView::T(_) => true,
    }
}

/// A nonterminal's symbol is plain when stripping its angle brackets and
/// putting them back gives the symbol again.
pub open spec fn plain_symbol(y: Seq<char>) -> bool {
    bracketed_spec(trim_angle_brackets_spec(y)) == y
}

/// An expansion can be used for growing trees when it has a symbol, its cost
/// is finite, and its nonterminals are plain.
pub open spec fn usable_expansion(g: Seq<RuleView>, e: Seq<Seq<char>>) -> bool {
    &&& e.len() > 0
    &&& expansion_cost_spec(g, e, Set::empty()) is Finite
    &&& forall|j: int| 0 <= j < e.len() && is_nonterminal_spec(#[trigger] e[j]) ==> plain_symbol(e[j])
}

/// Every expansion of the rule at position `r` is usable, and their number
/// fits in a `usize`.
pub open spec fn usable_rule(g: Seq<RuleView>, r: int) -> bool {
    &&& g[r].expansions.len() <= usize::MAX
    &&& forall|e: int|
        0 <= e < g[r].expansions.len() ==> usable_expansion(g, #[trigger] g[r].expansions[e])
}

/// A grammar is generative when every nonterminal that can be reached
/// from the start symbol has a rule, and every expansion of such a rule is
/// usable: whatever expansion is chosen for an open leaf, the tree can
/// still be completed. Rules that cannot be reached do not count.
pub open spec fn generative(g: Seq<RuleView>) -> bool {
    &&& closed(g)
    &&& forall|r: int|
        0 <= r < g.len() && grammar_reachable(g, g[r].name) ==> #[trigger] usable_rule(g, r)
}

/// Replacing one tree of a list changes the number of open leaves of a
/// prefix by the difference between the two trees.
pub proof fn lemma_seq_update_open(ts: Seq<DerivationView>, n: nat, i: int, t: DerivationView)
    requires
        0 <= i < ts.len(),
        n <= ts.len(),
    ensures
        n <= i ==> seq_open(ts.update(i, t), n) == seq_open(ts, n),
        n > i ==> seq_open(ts.update(i, t), n) + count_open(ts[i]) == seq_open(ts, n) + count_open(
            t,
        ),
    decreases n,
{
    if n > 0 {
        lemma_seq_update_open(ts, (n - 1) as nat, i, t);
    }
}

/// Replacing one tree of a list changes the summed cost of a prefix by the
/// difference between the two trees.
pub proof fn lemma_seq_update_potential(
    g: Seq<RuleView>,
    ts: Seq<DerivationView>,
    n: nat,
    i: int,
    t: DerivationView,
)
    requires
        0 <= i < ts.len(),
        n <= ts.len(),
    ensures
        n <= i ==> seq_potential(g, ts.update(i, t), n) == seq_potential(g, ts, n),
        n > i ==> seq_potential(g, ts.update(i, t), n) + potential(g, ts[i]) == seq_potential(
            g,
            ts,
            n,
        ) + potential(g, t),
    decreases n,
{
    if n > 0 {
        lemma_seq_update_potential(g, ts, (n - 1) as nat, i, t);
    }
}

/// The tree of a list that holds the open leaf number `k`.
pub proof fn lemma_find_child(ts: Seq<DerivationView>, n: nat, k: nat) -> (i: nat)
    requires
        n <= ts.len(),
        k < seq_open(ts, n),
    ensures
        i < n,
        seq_open(ts, i) <= k < seq_open(ts, i + 1),
    decreases n,
{
    if k < seq_open(ts, (n - 1) as nat) {
        lemma_find_child(ts, (n - 1) as nat, k)
    } else {
        (n - 1) as nat
    }
}

/// What expanding an open leaf does to a tree: the leaf goes and the open
/// leaves of its new children come, in number and in summed cost; and the
/// open leaves stay live where those of the children are.
pub proof fn lemma_replace_open(
    g: Seq<RuleView>,
    t: DerivationView,
    k: nat,
    c: Seq<DerivationView>,
)
    requires
        k < count_open(t),
        open_live(g, t),
        c.len() > 0,
        forall|i: int| 0 <= i < c.len() ==> open_live(g, #[trigger] c[i]),
    ensures
        live_leaf(g, open_name(t, k)),
        count_open(replace_open(t, k, c)) + 1 == count_open(t) + seq_open(c, c.len()),
        potential(g, replace_open(t, k, c)) + cost_value(leaf_cost(g, open_name(t, k)))
            == potential(g, t) + seq_potential(g, c, c.len()),
        open_live(g, replace_open(t, k, c)),
    decreases t,
{
    match t {
        DerivationView::NT(name, children) => {
            if children.len() == 0 {
                assert(replace_open(t, k, c) == DerivationView::NT(name, c));
            } else {
                let n = children.len();
                let i = lemma_find_child(children, n, k);
                let inner = (k - seq_open(children, i)) as nat;
                lemma_seq_locate(children, n, i, k, c);
                let child = children[i as int];
                let grown = replace_open(child, inner, c);
                assert(open_live(g, child));
                lemma_replace_open(g, child, inner, c);
                let after = children.update(i as int, grown);
                lemma_seq_update_open(children, n, i as int, grown);
                lemma_seq_update_potential(g, children, n, i as int, grown);
                assert(replace_open(t, k, c) == DerivationView::NT(name, after));
                assert forall|j: int| 0 <= j < after.len() implies open_live(
                    g,
                    #[trigger] after[j],
                ) by {
                    if j != i {
                        assert(after[j] == children[j]);
                    }
                }
            }
        },
        DerivationView::T(_) => {},
    }
}

/// The nodes of a usable expansion whose nonterminals can be reached: their
/// open leaves are live, and their summed cost is that of the expansion's
/// nonterminals.
pub proof fn lemma_symbol_nodes(g: Seq<RuleView>, e: Seq<Seq<char>>, k: nat)
    requires
        usable_expansion(g, e),
        forall|j: int|
            0 <= j < e.len() && is_nonterminal_spec(#[trigger] e[j]) ==> grammar_reachable(g, e[j]),
        k <= e.len(),
    ensures
        seq_potential(g, symbol_nodes(e), k) == children_value(g, e, k),
        forall|i: int| 0 <= i < e.len() ==> open_live(g, #[trigger] symbol_nodes(e)[i]),
    decreases k,
{
    lemma_finite_expansion(g, e);
    if k > 0 {
        lemma_symbol_nodes(g, e, (k - 1) as nat);
        let y = e[k - 1];
        let node = symbol_nodes(e)[k - 1];
        assert(node == symbol_node(y));
        if is_nonterminal_spec(y) {
            assert(plain_symbol(y));
            assert(potential(g, node) == cost_value(symbol_cost_spec(g, y, Set::empty())));
        } else {
            assert(potential(g, node) == 0);
        }
    }
    assert forall|i: int| 0 <= i < e.len() implies open_live(g, #[trigger] symbol_nodes(e)[i]) by {
        let y = e[i];
        if is_nonterminal_spec(y) {
            assert(plain_symbol(y));
        }
    }
}

/// A grammar with the precomputed costs of its symbols and expansions.
#[derive(Debug)]
pub struct GrammarCost {
    pub grammar: Grammar,
    /// Cost of each rule's nonterminal, by the rule's position.
    pub cost_by_symbol: Vec<SymbolCost>,
    /// Cost of each expansion, by the rule's position and the expansion's.
    pub cost_by_expansion: Vec<Vec<SymbolCost>>,
}

impl GrammarCost {
    /// The costs are those of the grammar, with nothing seen.
    pub open spec fn wf(&self) -> bool {
        let g = self.grammar@;
        &&& self.grammar.wf()
        &&& self.cost_by_symbol@.len() == g.len()
        &&& self.cost_by_expansion@.len() == g.len()
        &&& forall|r: int|
            0 <= r < g.len() ==> #[trigger] self.cost_by_symbol@[r] == symbol_cost_spec(
                g,
                g[r].name,
                Set::empty(),
            )
        &&& forall|r: int|
            0 <= r < g.len() ==> (#[trigger] self.cost_by_expansion@[r])@.len()
                == g[r].expansions.len()
        &&& forall|r: int, e: int|
            0 <= r < g.len() && 0 <= e < g[r].expansions.len() ==> #[trigger] self.cost_by_expansion@[r]@[e]
                == expansion_cost_spec(g, g[r].expansions[e], Set::empty())
    }

    /// Computes the cost of every symbol and every expansion of a grammar.
    pub fn new(grammar: Grammar) -> (r: Self)
        requires
            grammar.wf(),
        ensures
            r.wf(),
            r.grammar@ == grammar@,
    {
        let seen: Vec<String> = Vec::new();
        assert(seen_set(seen.deep_view()) =~= Set::<Seq<char>>::empty());
        let mut cost_by_symbol: Vec<SymbolCost> = Vec::new();
        let mut cost_by_expansion: Vec<Vec<SymbolCost>> = Vec::new();
        let ghost g = grammar@;
        let mut r: usize = 0;
        while r < grammar.rules.len()
            invariant
                r <= grammar.rules.len(),
                grammar.wf(),
                g == grammar@,
                seen_set(seen.deep_view()) == Set::<Seq<char>>::empty(),
                cost_by_symbol@.len() == r,
                cost_by_expansion@.len() == r,
                forall|a: int|
                    0 <= a < r ==> #[trigger] cost_by_symbol@[a] == symbol_cost_spec(
                        g,
                        g[a].name,
                        Set::empty(),
                    ),
                forall|a: int|
                    0 <= a < r ==> (#[trigger] cost_by_expansion@[a])@.len()
                        == g[a].expansions.len(),
                forall|a: int, e: int|
                    0 <= a < r && 0 <= e < g[a].expansions.len() ==> #[trigger] cost_by_expansion@[a]@[e]
                        == expansion_cost_spec(g, g[a].expansions[e], Set::empty()),
            decreases grammar.rules.len() - r,
        {
            let rule = &grammar.rules[r];
            assert(g[r as int] == rule@);
            cost_by_symbol.push(symbol_cost(&grammar, rule.name.as_str()));
            let mut costs: Vec<SymbolCost> = Vec::new();
            let mut e: usize = 0;
            while e < rule.expansions.len()
                invariant
                    e <= rule.expansions.len(),
                    grammar.wf(),
                    g == grammar@,
                    g[r as int] == rule@,
                    0 <= r < g.len(),
                    seen_set(seen.deep_view()) == Set::<Seq<char>>::empty(),
                    costs@.len() == e,
                    forall|b: int|
                        0 <= b < e ==> #[trigger] costs@[b] == expansion_cost_spec(
                            g,
                            g[r as int].expansions[b],
                            Set::empty(),
                        ),
                decreases rule.expansions.len() - e,
            {
                assert(g[r as int].expansions[e as int] == rule.expansions[e as int].deep_view());
                costs.push(expansion_cost(&grammar, &rule.expansions[e], &seen));
                e += 1;
            }
            cost_by_expansion.push(costs);
            r += 1;
        }
        GrammarCost {
            grammar: grammar,
            cost_by_symbol: cost_by_symbol,
            cost_by_expansion: cost_by_expansion,
        }
    }

    /// Tells whether every expansion of the rule at position `r` can be used
    /// for growing trees.
    pub fn rule_is_usable(&self, r: usize) -> (b: bool)
        requires
            self.wf(),
            r < self.grammar@.len(),
        ensures
            b == usable_rule(self.grammar@, r as int),
    {
        let ghost g = self.grammar@;
        let rule = &self.grammar.rules[r];
        assert(g[r as int] == rule@);
        assert(g[r as int].expansions.len() == rule.expansions.len());
        let mut e: usize = 0;
        while e < rule.expansions.len()
            invariant
                e <= rule.expansions.len(),
                self.wf(),
                g == self.grammar@,
                g[r as int] == rule@,
                0 <= r < g.len(),
                forall|b: int|
                    0 <= b < e ==> usable_expansion(g, #[trigger] g[r as int].expansions[b]),
            decreases rule.expansions.len() - e,
        {
            let expansion = &rule.expansions[e];
            let ghost ev = g[r as int].expansions[e as int];
            assert(ev == expansion.deep_view());
            let cost = self.cost_by_expansion[r][e];
            assert(cost == self.cost_by_expansion@[r as int]@[e as int]);
            if expansion.len() == 0 || !cost.is_finite() {
                assert(!usable_expansion(g, ev));
                return false;
            }
            let mut j: usize = 0;
            while j < expansion.len()
                invariant
                    j <= expansion.len(),
                    g == self.grammar@,
                    ev == expansion.deep_view(),
                    ev == g[r as int].expansions[e as int],
                    0 <= r < g.len(),
                    0 <= e < g[r as int].expansions.len(),
                    forall|i: int|
                        0 <= i < j && is_nonterminal_spec(#[trigger] ev[i]) ==> plain_symbol(
                            ev[i],
                        ),
                decreases expansion.len() - j,
            {
                assert(ev[j as int] == expansion[j as int]@);
                let symbol = expansion[j].as_str();
                if is_nonterminal(symbol) {
                    let again = bracketed(trim_angle_brackets(symbol));
                    if !str_eq(again.as_str(), symbol) {
                        assert(!plain_symbol(ev[j as int]));
                        assert(!usable_expansion(g, ev));
                        return false;
                    }
                }
                j += 1;
            }
            e += 1;
        }
        true
    }

    /// Tells whether the grammar is generative: every nonterminal that the
    /// start symbol leads to has a rule, and every expansion of such a rule
    /// can be used for growing trees.
    pub fn is_generative(&self) -> (b: bool)
        requires
            self.wf(),
        ensures
            b == generative(self.grammar@),
    {
        let ghost g = self.grammar@;
        let ghost gr = grammar_graph(g);
        let (names, refs) = self.grammar.graph();
        proof {
            reveal_strlit("<start>");
            assert("<start>"@ =~= start_symbol());
            lemma_graph_defines(g, start_symbol());
            assert forall|x: Seq<char>| crate::reach::node_defined(gr, x) == defines(g, x) by {
                lemma_graph_defines(g, x);
            }
            assert forall|i: int| 0 <= i < g.len() implies (#[trigger] names@[i])@ == g[i].name by {
                assert(crate::reach::graph_view(names@, refs@)[i].name == names@[i]@);
                assert(gr[i].name == g[i].name);
            }
        }
        match reach(&names, &refs, "<start>") {
            Err(x) => {
                assert(!closed(g));
                false
            },
            Ok(order) => {
                assert(closed(g));
                let mut a: usize = 0;
                while a < order.len()
                    invariant
                        a <= order.len(),
                        self.wf(),
                        g == self.grammar@,
                        names@.len() == g.len(),
                        forall|i: int| 0 <= i < g.len() ==> (#[trigger] names@[i])@ == g[i].name,
                        forall|j: int| 0 <= j < order@.len() ==> (#[trigger] order@[j]) < g.len(),
                        forall|i: int|
                            0 <= i < names@.len() ==> (order@.contains(i as usize)
                                <==> grammar_reachable(g, #[trigger] names@[i]@)),
                        forall|b: int| 0 <= b < a ==> usable_rule(g, #[trigger] order@[b] as int),
                    decreases order.len() - a,
                {
                    let r = order[a];
                    if !self.rule_is_usable(r) {
                        proof {
                            assert(order@.contains(r));
                            assert(grammar_reachable(g, names@[r as int]@));
                        }
                        return false;
                    }
                    a += 1;
                }
                proof {
                    assert forall|r: int|
                        0 <= r < g.len() && grammar_reachable(g, g[r].name) implies #[trigger] usable_rule(
                        g,
                        r,
                    ) by {
                        assert(grammar_reachable(g, names@[r]@));
                        assert(order@.contains(r as usize));
                        let b = choose|b: int| 0 <= b < order@.len() && order@[b] == r as usize;
                        assert(usable_rule(g, order@[b] as int));
                    }
                }
                true
            },
        }
    }
}

/// How the expansion of an open leaf is chosen.
#[derive(Clone, Copy, Debug, PartialEq, Eq, Structural)]
pub enum ExpandStrategy {
    /// One of the expansions of least cost.
    MinCost,
    /// Any expansion.
    Random,
    /// One of the expansions of greatest cost.
    MaxCost,
}

/// The least of the first `k` costs; `Infinite` for none.
pub open spec fn least_cost(costs: Seq<SymbolCost>, k: nat) -> SymbolCost
    decreases k,
{
    if k == 0 || k > costs.len() {
        SymbolCost::Infinite
    } else {
        crate::cost::cost_min(costs[k - 1], least_cost(costs, (k - 1) as nat))
    }
}

/// The greatest of the first `k` costs; zero for none.
pub open spec fn greatest_cost(costs: Seq<SymbolCost>, k: nat) -> SymbolCost
    decreases k,
{
    if k == 0 || k > costs.len() {
        SymbolCost::Finite(0)
    } else {
        crate::cost::cost_max(costs[k - 1], greatest_cost(costs, (k - 1) as nat))
    }
}

/// Whether a strategy admits an expansion of cost `c` among expansions of
/// the given costs.
pub open spec fn admits(strategy: ExpandStrategy, c: SymbolCost, costs: Seq<SymbolCost>) -> bool {
    match strategy {
        ExpandStrategy::MinCost => cost_le(c, least_cost(costs, costs.len())),
        ExpandStrategy::Random => true,
        ExpandStrategy::MaxCost => cost_le(greatest_cost(costs, costs.len()), c),
    }
}

/// The positions, among the first `k`, of the expansions that the strategy
/// admits, in order.
pub open spec fn candidates(costs: Seq<SymbolCost>, k: nat, strategy: ExpandStrategy) -> Seq<usize>
    decreases k,
{
    if k == 0 || k > costs.len() {
        Seq::empty()
    } else if admits(strategy, costs[k - 1], costs) {
        candidates(costs, (k - 1) as nat, strategy).push((k - 1) as usize)
    } else {
        candidates(costs, (k - 1) as nat, strategy)
    }
}

/// The least cost is at most each cost, and is one of the costs.
pub proof fn lemma_least_cost(costs: Seq<SymbolCost>, k: nat)
    requires
        k <= costs.len(),
    ensures
        forall|j: int| 0 <= j < k ==> cost_le(least_cost(costs, k), #[trigger] costs[j]),
        k > 0 ==> exists|j: int| 0 <= j < k && #[trigger] costs[j] == least_cost(costs, k),
    decreases k,
{
    if k > 0 {
        lemma_least_cost(costs, (k - 1) as nat);
        if k > 1 {
            let j = choose|j: int|
                0 <= j < k - 1 && #[trigger] costs[j] == least_cost(costs, (k - 1) as nat);
            if least_cost(costs, k) == costs[j] {
            } else {
                assert(costs[k - 1] == least_cost(costs, k));
            }
        } else {
            assert(costs[0] == least_cost(costs, k));
        }
    }
}

/// The greatest cost is at least each cost, and is one of the costs.
pub proof fn lemma_greatest_cost(costs: Seq<SymbolCost>, k: nat)
    requires
        k <= costs.len(),
    ensures
        forall|j: int| 0 <= j < k ==> cost_le(#[trigger] costs[j], greatest_cost(costs, k)),
        k > 0 ==> exists|j: int| 0 <= j < k && #[trigger] costs[j] == greatest_cost(costs, k),
    decreases k,
{
    if k > 0 {
        lemma_greatest_cost(costs, (k - 1) as nat);
        if k > 1 {
            let j = choose|j: int|
                0 <= j < k - 1 && #[trigger] costs[j] == greatest_cost(costs, (k - 1) as nat);
            if greatest_cost(costs, k) == costs[j] {
            } else {
                assert(costs[k - 1] == greatest_cost(costs, k));
            }
        } else {
            assert(costs[0] == greatest_cost(costs, k));
        }
    }
}

/// Every candidate is a position that the strategy admits, and every
/// admitted position among the first `k` is a candidate.
pub proof fn lemma_candidates(costs: Seq<SymbolCost>, k: nat, strategy: ExpandStrategy)
    requires
        k <= costs.len() <= usize::MAX,
    ensures
        candidates(costs, k, strategy).len() <= k,
        forall|i: int|
            0 <= i < candidates(costs, k, strategy).len() ==> (#[trigger] candidates(
                costs,
                k,
                strategy,
            )[i]) < k && admits(strategy, costs[candidates(costs, k, strategy)[i] as int], costs),
        forall|j: int|
            0 <= j < k && admits(strategy, #[trigger] costs[j], costs) ==> candidates(
                costs,
                k,
                strategy,
            ).contains(j as usize),
    decreases k,
{
    if k > 0 {
        lemma_candidates(costs, (k - 1) as nat, strategy);
        let prev = candidates(costs, (k - 1) as nat, strategy);
        let cur = candidates(costs, k, strategy);
        assert forall|i: int| 0 <= i < cur.len() implies (#[trigger] cur[i]) < k && admits(
            strategy,
            costs[cur[i] as int],
            costs,
        ) by {
            if i < prev.len() {
                assert(cur[i] == prev[i]);
            }
        }
        assert forall|j: int| 0 <= j < k && admits(strategy, #[trigger] costs[j], costs) implies cur.contains(
            j as usize,
        ) by {
            if j < k - 1 {
                let w = choose|w: int| 0 <= w < prev.len() && prev[w] == j as usize;
                assert(cur[w] == j as usize);
            } else {
                assert(cur[cur.len() - 1] == j as usize);
            }
        }
    }
}

/// Among one or more expansions, each strategy admits at least one.
pub proof fn lemma_candidates_nonempty(costs: Seq<SymbolCost>, strategy: ExpandStrategy)
    requires
        0 < costs.len() <= usize::MAX,
    ensures
        candidates(costs, costs.len(), strategy).len() > 0,
{
    lemma_least_cost(costs, costs.len());
    lemma_greatest_cost(costs, costs.len());
    lemma_candidates(costs, costs.len(), strategy);
    let j = match strategy {
        ExpandStrategy::MinCost => choose|j: int|
            0 <= j < costs.len() && #[trigger] costs[j] == least_cost(costs, costs.len()),
        ExpandStrategy::Random => 0,
        ExpandStrategy::MaxCost => choose|j: int|
            0 <= j < costs.len() && #[trigger] costs[j] == greatest_cost(costs, costs.len()),
    };
    assert(admits(strategy, costs[j], costs));
    assert(candidates(costs, costs.len(), strategy).contains(j as usize));
}

/// The least of the costs.
pub fn least(costs: &Vec<SymbolCost>) -> (r: SymbolCost)
    ensures
        r == least_cost(costs@, costs@.len()),
{
    let mut r = SymbolCost::Infinite;
    let mut k: usize = 0;
    while k < costs.len()
        invariant
            k <= costs.len(),
            r == least_cost(costs@, k as nat),
        decreases costs.len() - k,
    {
        r = costs[k].min(r);
        k += 1;
    }
    r
}

/// The greatest of the costs.
pub fn greatest(costs: &Vec<SymbolCost>) -> (r: SymbolCost)
    ensures
        r == greatest_cost(costs@, costs@.len()),
{
    let mut r = SymbolCost::Finite(0);
    let mut k: usize = 0;
    while k < costs.len()
        invariant
            k <= costs.len(),
            r == greatest_cost(costs@, k as nat),
        decreases costs.len() - k,
    {
        r = costs[k].max(r);
        k += 1;
    }
    r
}

/// The positions of the expansions that the strategy admits.
pub fn choices(costs: &Vec<SymbolCost>, strategy: ExpandStrategy) -> (r: Vec<usize>)
    ensures
        r@ == candidates(costs@, costs@.len(), strategy),
{
    let low = least(costs);
    let high = greatest(costs);
    let mut r: Vec<usize> = Vec::new();
    let mut k: usize = 0;
    while k < costs.len()
        invariant
            k <= costs.len(),
            low == least_cost(costs@, costs@.len()),
            high == greatest_cost(costs@, costs@.len()),
            r@ == candidates(costs@, k as nat, strategy),
        decreases costs.len() - k,
    {
        let take = match strategy {
            ExpandStrategy::MinCost => costs[k].le(&low),
            ExpandStrategy::Random => true,
            ExpandStrategy::MaxCost => high.le(&costs[k]),
        };
        if take {
            r.push(k);
        }
        k += 1;
    }
    r
}

/// The position that a strategy picks among expansions of the given costs,
/// with the generator in the state `rng`.
pub open spec fn chosen_position(costs: Seq<SymbolCost>, strategy: ExpandStrategy, rng: Rng) -> usize {
    let c = candidates(costs, costs.len(), strategy);
    c[(rng.output() % (c.len() as u64)) as int]
}

/// Picks the position of an expansion by a strategy: one of the admitted
/// positions, each with the same weight.
pub fn choose_expansion(rng: &mut Rng, costs: &Vec<SymbolCost>, strategy: ExpandStrategy) -> (idx:
    usize)
    requires
        costs@.len() > 0,
    ensures
        idx == chosen_position(costs@, strategy, *old(rng)),
        idx < costs@.len(),
        admits(strategy, costs@[idx as int], costs@),
        *final(rng) == old(rng).step(),
{
    let c = choices(costs, strategy);
    proof {
        assert(costs@.len() == costs.len());
        lemma_candidates_nonempty(costs@, strategy);
        lemma_candidates(costs@, costs@.len(), strategy);
    }
    let pos = rng.index(c.len());
    c[pos]
}

/// The costs, with nothing seen, of the expansions `exps`.
pub open spec fn expansion_costs(g: Seq<RuleView>, exps: Seq<Seq<Seq<char>>>) -> Seq<SymbolCost> {
    Seq::new(exps.len(), |i: int| expansion_cost_spec(g, exps[i], Set::empty()))
}

/// The number of the open leaf that is expanded next, with the generator
/// in the state `rng`.
pub open spec fn chosen_leaf(t: DerivationView, rng: Rng) -> nat {
    let n = if count_open(t) <= usize::MAX {
        count_open(t)
    } else {
        usize::MAX as nat
    };
    (rng.output() % (n as u64)) as nat
}

/// The expansion that is applied next: one of those of the chosen leaf's
/// nonterminal, picked by the strategy with the second draw.
pub open spec fn chosen_expansion(
    g: Seq<RuleView>,
    t: DerivationView,
    strategy: ExpandStrategy,
    rng: Rng,
) -> Seq<Seq<char>> {
    let x = bracketed_spec(open_name(t, chosen_leaf(t, rng)));
    let exps = expansions_of(g, x);
    exps[chosen_position(expansion_costs(g, exps), strategy, rng.step()) as int]
}

/// The tree after one step: the chosen leaf gets the nodes of the chosen
/// expansion as its children.
pub open spec fn expand_once_spec(
    g: Seq<RuleView>,
    t: DerivationView,
    strategy: ExpandStrategy,
    rng: Rng,
) -> DerivationView {
    replace_open(t, chosen_leaf(t, rng), symbol_nodes(chosen_expansion(g, t, strategy, rng)))
}

/// The position of the expansion that a strategy picks for a node, by the
/// costs of the expansions with nothing seen.
pub open spec fn chosen_by_strategy(
    g: Seq<RuleView>,
    t: DerivationView,
    strategy: ExpandStrategy,
    rng: Rng,
) -> int {
    chosen_position(expansion_costs(g, expansions_of(g, node_symbol(t))), strategy, rng) as int
}

/// Expands a node with one of the expansions of its symbol, picked by the
/// strategy from the precomputed costs. The symbol needs an expansion.
pub fn expand_node_by_strategy(
    rng: &mut Rng,
    grammar: &GrammarCost,
    tree: &Derivation,
    strategy: ExpandStrategy,
) -> (r: Derivation)
    requires
        grammar.wf(),
        expansions_of(grammar.grammar@, node_symbol(tree@)).len() > 0,
    ensures
        r@ == node_expanded(
            grammar.grammar@,
            tree@,
            chosen_by_strategy(grammar.grammar@, tree@, strategy, *old(rng)),
        ),
        *final(rng) == old(rng).step(),
{
    let ghost g = grammar.grammar@;
    let name = tree.get_name();
    match grammar.grammar.find(name.as_str()) {
        None => {
            proof {
                assert(false);
            }
            tree.clone()
        },
        Some(r) => {
            proof {
                lemma_index_of(g, r as int);
            }
            let ghost exps = expansions_of(g, name@);
            let costs = &grammar.cost_by_expansion[r];
            assert(costs@ =~= expansion_costs(g, exps));
            let idx = choose_expansion(rng, costs, strategy);
            let expansion = &grammar.grammar.rules[r].expansions[idx];
            assert(g[r as int] == grammar.grammar.rules[r as int]@);
            assert(exps[idx as int] == expansion.deep_view());
            let children = expansion_nodes(expansion);
            let r = Derivation::NT(String::from_str(trim_angle_brackets(name.as_str())), children);
            assert(r@->NT_1 =~= tree_views(children@));
            r
        },
    }
}

/// Every open leaf of the tree can be expanded: its nonterminal has an
/// expansion.
pub open spec fn open_expandable(g: Seq<RuleView>, t: DerivationView) -> bool {
    forall|k: nat|
        k < count_open(t) ==> #[trigger] expansions_of(g, bracketed_spec(open_name(t, k))).len() > 0
}

/// A leaf is chosen among the open leaves.
pub proof fn lemma_chosen_leaf(t: DerivationView, rng: Rng)
    requires
        count_open(t) > 0,
    ensures
        chosen_leaf(t, rng) < count_open(t),
        chosen_leaf(t, rng) < usize::MAX,
{
}

/// One step applies an expansion of the chosen leaf's nonterminal to that
/// leaf, whatever the grammar, where that nonterminal has an expansion.
pub proof fn lemma_one_step(g: Seq<RuleView>, t: DerivationView, strategy: ExpandStrategy, rng: Rng)
    requires
        count_open(t) > 0,
        0 < expansions_of(g, bracketed_spec(open_name(t, chosen_leaf(t, rng)))).len() <= usize::MAX,
    ensures
        chosen_leaf(t, rng) < count_open(t),
        is_step(g, t, expand_once_spec(g, t, strategy, rng)),
{
    lemma_chosen_leaf(t, rng);
    let k = chosen_leaf(t, rng);
    let exps = expansions_of(g, bracketed_spec(open_name(t, k)));
    let costs = expansion_costs(g, exps);
    lemma_candidates_nonempty(costs, strategy);
    lemma_candidates(costs, costs.len(), strategy);
    let cands = candidates(costs, costs.len(), strategy);
    let pick = (rng.step().output() % (cands.len() as u64)) as int;
    assert(0 <= pick < cands.len());
    let idx = chosen_position(costs, strategy, rng.step()) as int;
    assert(idx == cands[pick] as int);
    assert(0 <= idx < exps.len());
    assert(expand_once_spec(g, t, strategy, rng) == step_of(g, t, k, idx));
}

/// The open leaves of a tree whose open leaves are live can be expanded.
pub proof fn lemma_live_is_expandable(g: Seq<RuleView>, t: DerivationView)
    requires
        open_live(g, t),
    ensures
        open_expandable(g, t),
{
    assert forall|k: nat| k < count_open(t) implies #[trigger] expansions_of(
        g,
        bracketed_spec(open_name(t, k)),
    ).len() > 0 by {
        lemma_replace_open(g, t, k, seq![DerivationView::T(Seq::empty())]);
        lemma_finite_symbol_has_expansion(g, bracketed_spec(open_name(t, k)), Set::empty());
    }
}

/// What one step does to a tree of a generative grammar: it applies an
/// expansion to an open leaf, keeps the open leaves live and, with the
/// strategy of least cost, lowers their summed cost.
pub proof fn lemma_expand_once(
    g: Seq<RuleView>,
    t: DerivationView,
    strategy: ExpandStrategy,
    rng: Rng,
)
    requires
        generative(g),
        open_live(g, t),
        count_open(t) > 0,
    ensures
        chosen_leaf(t, rng) < count_open(t),
        open_live(g, expand_once_spec(g, t, strategy, rng)),
        is_step(g, t, expand_once_spec(g, t, strategy, rng)),
        strategy == ExpandStrategy::MinCost ==> potential(
            g,
            expand_once_spec(g, t, strategy, rng),
        ) < potential(g, t),
{
    let k = chosen_leaf(t, rng);
    let x = bracketed_spec(open_name(t, k));
    lemma_replace_open(g, t, k, seq![DerivationView::T(Seq::empty())]);
    lemma_finite_symbol_has_expansion(g, x, Set::empty());
    let r = index_of(g, x);
    let exps = expansions_of(g, x);
    assert(exps == g[r].expansions);
    assert(usable_rule(g, r));
    let costs = expansion_costs(g, exps);
    lemma_candidates_nonempty(costs, strategy);
    lemma_candidates(costs, costs.len(), strategy);
    let cands = candidates(costs, costs.len(), strategy);
    let pick = (rng.step().output() % (cands.len() as u64)) as int;
    assert(0 <= pick < cands.len());
    let idx = chosen_position(costs, strategy, rng.step()) as int;
    assert(idx == cands[pick] as int);
    assert(0 <= idx < exps.len());
    assert(admits(strategy, costs[idx], costs));
    let e = exps[idx];
    assert(e == g[r].expansions[idx]);
    assert(usable_expansion(g, e));
    let c = symbol_nodes(e);
    assert forall|j: int| 0 <= j < e.len() && is_nonterminal_spec(#[trigger] e[j]) implies grammar_reachable(
        g,
        e[j],
    ) by {
        lemma_reachable_symbol(g, r, idx, j);
    }
    lemma_symbol_nodes(g, e, e.len());
    lemma_replace_open(g, t, k, c);
    lemma_finite_expansion(g, e);
    if strategy == ExpandStrategy::MinCost {
        lemma_least_cost(costs, costs.len());
        assert forall|i: int| 0 <= i < exps.len() implies cost_le(
            expansion_cost_spec(g, exps[idx], Set::empty()),
            #[trigger] expansion_cost_spec(g, exps[i], Set::empty()),
        ) by {
            assert(cost_le(least_cost(costs, costs.len()), costs[i]));
        }
        lemma_cheapest_expansion_le_symbol(g, x, idx);
    }
    assert(expand_once_spec(g, t, strategy, rng) == step_of(g, t, k, idx));
}

/// The tree and the generator after steps with one strategy: steps are
/// taken, and counted from `num` on, while the count is below `limit` and
/// the tree has an open leaf. Also returns the count reached.
pub open spec fn grow_spec(
    g: Seq<RuleView>,
    t: DerivationView,
    rng: Rng,
    strategy: ExpandStrategy,
    num: nat,
    limit: nat,
) -> (DerivationView, Rng, nat)
    decreases limit - num,
{
    if num >= limit || count_open(t) == 0 {
        (t, rng, num)
    } else {
        grow_spec(g, expand_once_spec(g, t, strategy, rng), rng.advance(2), strategy, num + 1, limit)
    }
}

/// The tree and the generator after steps with the strategy of least
/// cost, taken for as long as the tree has an open leaf. This is defined
/// for the trees that such steps complete: those of a generative grammar
/// whose open leaves are live.
pub open spec fn close_spec(g: Seq<RuleView>, t: DerivationView, rng: Rng) -> (DerivationView, Rng)
    decreases potential(g, t),
    when generative(g) && open_live(g, t)
{
    if count_open(t) == 0 {
        (t, rng)
    } else {
        proof {
            lemma_expand_once(g, t, ExpandStrategy::MinCost, rng);
        }
        close_spec(g, expand_once_spec(g, t, ExpandStrategy::MinCost, rng), rng.advance(2))
    }
}

/// The tree and the generator after the three phases of `expand_tree`:
/// steps of greatest cost up to the count `min_expansions`, then steps
/// with any expansion up to the count `max_expansions`, then steps of
/// least cost until no open leaf is left.
pub open spec fn expand_tree_spec(
    g: Seq<RuleView>,
    t: DerivationView,
    rng: Rng,
    min_expansions: nat,
    max_expansions: nat,
) -> (DerivationView, Rng) {
    let (t1, r1, n1) = grow_spec(g, t, rng, ExpandStrategy::MaxCost, 0, min_expansions);
    let (t2, r2, n2) = grow_spec(g, t1, r1, ExpandStrategy::Random, n1, max_expansions);
    close_spec(g, t2, r2)
}

/// Expands one open leaf of the tree, chosen with the same weight among
/// all open leaves, with an expansion chosen by the strategy: that leaf
/// gets the nodes of the expansion as its children, and the rest of the
/// tree stays as it is. In a generative grammar the open leaves stay live,
/// and the strategy of least cost lowers their summed cost.
pub fn expand_tree_once(
    rng: &mut Rng,
    grammar: &GrammarCost,
    tree: Derivation,
    strategy: ExpandStrategy,
) -> (r: Derivation)
    requires
        grammar.wf(),
        count_open(tree@) > 0,
        open_expandable(grammar.grammar@, tree@),
    ensures
        r@ == expand_once_spec(grammar.grammar@, tree@, strategy, *old(rng)),
        *final(rng) == old(rng).advance(2),
        is_step(grammar.grammar@, tree@, r@),
        generative(grammar.grammar@) && open_live(grammar.grammar@, tree@) ==> open_live(
            grammar.grammar@,
            r@,
        ),
        generative(grammar.grammar@) && open_live(grammar.grammar@, tree@) && strategy
            == ExpandStrategy::MinCost ==> potential(grammar.grammar@, r@) < potential(
            grammar.grammar@,
            tree@,
        ),
{
    let ghost g = grammar.grammar@;
    let ghost t = tree@;
    let n = tree.possible_expansions();
    let k = rng.index(n);
    assert(k as nat == chosen_leaf(t, *old(rng)));
    proof {
        lemma_chosen_leaf(t, *old(rng));
    }
    let name = tree.kth_open_name(k);
    let symbol = bracketed(name.as_str());
    let ghost x = symbol@;
    assert(expansions_of(g, bracketed_spec(open_name(t, k as nat))).len() > 0);
    match grammar.grammar.find(symbol.as_str()) {
        None => {
            proof {
                assert(false);
            }
            tree
        },
        Some(r) => {
            proof {
                lemma_index_of(g, r as int);
            }
            let ghost exps = expansions_of(g, x);
            assert(g[r as int] == grammar.grammar.rules[r as int]@);
            assert(exps == g[r as int].expansions);
            assert(exps.len() == grammar.grammar.rules[r as int].expansions@.len());
            assert(grammar.grammar.rules[r as int].expansions@.len()
                == grammar.grammar.rules[r as int].expansions.len());
            assert(x == bracketed_spec(open_name(t, chosen_leaf(t, *old(rng)))));
            let costs = &grammar.cost_by_expansion[r];
            assert(costs@ =~= expansion_costs(g, exps));
            let idx = choose_expansion(rng, costs, strategy);
            let expansion = &grammar.grammar.rules[r].expansions[idx];
            let ghost e = exps[idx as int];
            assert(e == expansion.deep_view());
            let children = expansion_nodes(expansion);
            proof {
                lemma_one_step(g, t, strategy, *old(rng));
                if generative(g) && open_live(g, t) {
                    lemma_expand_once(g, t, strategy, *old(rng));
                }
                assert(expand_once_spec(g, t, strategy, *old(rng)) == step_of(
                    g,
                    t,
                    k as nat,
                    idx as int,
                ));
                assert(old(rng).advance(2) == old(rng).step().step()) by {
                    assert(old(rng).advance(0) == *old(rng));
                    assert(old(rng).advance(1) == old(rng).advance(0).step());
                    assert(old(rng).advance(2) == old(rng).advance(1).step());
                }
            }
            tree.expand_kth(k, children)
        },
    }
}

/// Expands the open leaves of a tree in three phases: up to
/// `min_expansions` steps with expansions of greatest cost, then up to
/// `max_expansions` steps in all with any expansion, then with expansions of
/// least cost for as long as an open leaf remains.
pub fn expand_tree(
    rng: &mut Rng,
    grammar: &GrammarCost,
    tree: Derivation,
    min_expansions: usize,
    max_expansions: usize,
) -> (r: Derivation)
    requires
        grammar.wf(),
        generative(grammar.grammar@),
        open_live(grammar.grammar@, tree@),
    ensures
        (r@, *final(rng)) == expand_tree_spec(
            grammar.grammar@,
            tree@,
            *old(rng),
            min_expansions as nat,
            max_expansions as nat,
        ),
        count_open(r@) == 0,
        grows_to(grammar.grammar@, tree@, r@),
{
    let ghost g = grammar.grammar@;
    let ghost start = tree@;
    let mut tree = tree;
    let mut num_expansions: usize = 0;
    proof {
        lemma_grows_to_self(g, start);
    }
    while num_expansions < min_expansions && tree.any_possible_expansions()
        invariant
            grammar.wf(),
            g == grammar.grammar@,
            generative(g),
            open_live(g, tree@),
            grows_to(g, start, tree@),
            grow_spec(g, start, *old(rng), ExpandStrategy::MaxCost, 0, min_expansions as nat)
                == grow_spec(
                g,
                tree@,
                *rng,
                ExpandStrategy::MaxCost,
                num_expansions as nat,
                min_expansions as nat,
            ),
        decreases min_expansions - num_expansions,
    {
        let ghost before = tree@;
        proof {
            lemma_live_is_expandable(g, before);
        }
        tree = expand_tree_once(rng, grammar, tree, ExpandStrategy::MaxCost);
        proof {
            lemma_grows_to_step(g, start, before, tree@);
        }
        num_expansions += 1;
    }
    let ghost grown = tree@;
    let ghost grown_rng = *rng;
    let ghost grown_num = num_expansions as nat;
    while num_expansions < max_expansions && tree.any_possible_expansions()
        invariant
            grammar.wf(),
            g == grammar.grammar@,
            generative(g),
            open_live(g, tree@),
            grows_to(g, start, tree@),
            grow_spec(g, grown, grown_rng, ExpandStrategy::Random, grown_num, max_expansions as nat)
                == grow_spec(
                g,
                tree@,
                *rng,
                ExpandStrategy::Random,
                num_expansions as nat,
                max_expansions as nat,
            ),
        decreases max_expansions - num_expansions,
    {
        let ghost before = tree@;
        proof {
            lemma_live_is_expandable(g, before);
        }
        tree = expand_tree_once(rng, grammar, tree, ExpandStrategy::Random);
        proof {
            lemma_grows_to_step(g, start, before, tree@);
        }
        num_expansions += 1;
    }
    let ghost mixed = tree@;
    let ghost mixed_rng = *rng;
    while tree.any_possible_expansions()
        invariant
            grammar.wf(),
            g == grammar.grammar@,
            generative(g),
            open_live(g, tree@),
            grows_to(g, start, tree@),
            close_spec(g, mixed, mixed_rng) == close_spec(g, tree@, *rng),
        decreases potential(g, tree@),
    {
        let ghost before = tree@;
        proof {
            lemma_live_is_expandable(g, before);
        }
        tree = expand_tree_once(rng, grammar, tree, ExpandStrategy::MinCost);
        proof {
            lemma_grows_to_step(g, start, before, tree@);
        }
    }
    tree
}

/// The tree after the open leaf number `k` is given the nodes of the
/// expansion number `e` of its nonterminal.
pub open spec fn step_of(g: Seq<RuleView>, t: DerivationView, k: nat, e: int) -> DerivationView {
    replace_open(t, k, symbol_nodes(expansions_of(g, bracketed_spec(open_name(t, k)))[e]))
}

/// `to` comes from `from` by one expansion step: one open leaf of `from`
/// gets the nodes of one of the expansions of its nonterminal.
pub open spec fn is_step(g: Seq<RuleView>, from: DerivationView, to: DerivationView) -> bool {
    exists|k: nat, e: int|
        k < count_open(from) && 0 <= e < expansions_of(
            g,
            bracketed_spec(open_name(from, k)),
        ).len() && to == #[trigger] step_of(g, from, k, e)
}

/// `to` comes from `from` by exactly `steps` expansion steps.
pub open spec fn grows_in(g: Seq<RuleView>, from: DerivationView, to: DerivationView, steps: nat) -> bool
    decreases steps,
{
    if steps == 0 {
        from == to
    } else {
        exists|mid: DerivationView|
            #![trigger is_step(g, mid, to)]
            grows_in(g, from, mid, (steps - 1) as nat) && is_step(g, mid, to)
    }
}

/// `to` comes from `from` by a number of expansion steps.
pub open spec fn grows_to(g: Seq<RuleView>, from: DerivationView, to: DerivationView) -> bool {
    exists|steps: nat| grows_in(g, from, to, steps)
}

/// A tree comes from itself by no step.
pub proof fn lemma_grows_to_self(g: Seq<RuleView>, t: DerivationView)
    ensures
        grows_to(g, t, t),
{
    assert(grows_in(g, t, t, 0));
}

/// One more step keeps a tree among those that come from `from`.
pub proof fn lemma_grows_to_step(
    g: Seq<RuleView>,
    from: DerivationView,
    mid: DerivationView,
    to: DerivationView,
)
    requires
        grows_to(g, from, mid),
        is_step(g, mid, to),
    ensures
        grows_to(g, from, to),
{
    let steps = choose|steps: nat| grows_in(g, from, mid, steps);
    assert(grows_in(g, from, mid, ((steps + 1) - 1) as nat));
    assert(grows_in(g, from, to, steps + 1));
}

/// Why no tree can be grown from a grammar.
#[derive(Clone, Copy, Debug, PartialEq, Eq, Structural)]
pub enum FuzzError {
    /// The grammar has no rule for `<start>`.
    NoStartSymbol,
    /// The start symbol has no finite derivation.
    InfiniteCost,
    /// Some rule that the start symbol leads to has an expansion that is
    /// empty, has no finite derivation, or names a nonterminal with
    /// brackets within its brackets or without a rule.
    UnusableExpansion,
}

/// The tree from which every derivation starts: the open start symbol.
pub open spec fn root() -> DerivationView {
    DerivationView::NT(seq!['s', 't', 'a', 'r', 't'], Seq::empty())
}

/// A tree can be grown from the grammar: the start symbol has a rule and a
/// finite cost, and every expansion that the start symbol leads to is
/// usable.
pub open spec fn can_generate(g: Seq<RuleView>) -> bool {
    &&& defines(g, start_symbol())
    &&& symbol_cost_spec(g, start_symbol(), Set::empty()) is Finite
    &&& generative(g)
}

/// The reason reported for a grammar from which no tree can be grown.
pub open spec fn fuzz_error(g: Seq<RuleView>) -> FuzzError {
    if !defines(g, start_symbol()) {
        FuzzError::NoStartSymbol
    } else if !(symbol_cost_spec(g, start_symbol(), Set::empty()) is Finite) {
        FuzzError::InfiniteCost
    } else {
        FuzzError::UnusableExpansion
    }
}

/// Creates a random derivation tree from a grammar, with 80 steps of
/// growth and up to 200 steps before the tree is closed.
pub fn fuzz_tree(rng: &mut Rng, grammar: Grammar) -> (r: Result<Derivation, FuzzError>)
    requires
        grammar.wf(),
    ensures
        r is Ok == can_generate(grammar@),
        r matches Ok(t) ==> (t@, *final(rng)) == expand_tree_spec(
            grammar@,
            root(),
            *old(rng),
            80,
            200,
        ) && count_open(t@) == 0 && grows_to(grammar@, root(), t@),
        r matches Err(e) ==> e == fuzz_error(grammar@) && *final(rng) == *old(rng),
{
    fuzz_tree_(rng, grammar, 80, 200)
}

/// Creates a random derivation tree from a grammar: the tree is grown from
/// the start symbol by `expand_tree` with the given bounds. Fails, without
/// a draw, for a grammar from which no tree can be grown.
pub fn fuzz_tree_(
    rng: &mut Rng,
    grammar: Grammar,
    min_expansions: usize,
    max_expansions: usize,
) -> (r: Result<Derivation, FuzzError>)
    requires
        grammar.wf(),
    ensures
        r is Ok == can_generate(grammar@),
        r matches Ok(t) ==> (t@, *final(rng)) == expand_tree_spec(
            grammar@,
            root(),
            *old(rng),
            min_expansions as nat,
            max_expansions as nat,
        ) && count_open(t@) == 0 && grows_to(grammar@, root(), t@),
        r matches Err(e) ==> e == fuzz_error(grammar@) && *final(rng) == *old(rng),
{
    let ghost g = grammar@;
    proof {
        reveal_strlit("<start>");
        reveal_strlit("start");
        assert("<start>"@ =~= start_symbol());
        assert("start"@ =~= seq!['s', 't', 'a', 'r', 't']);
        assert(bracketed_spec("start"@) =~= start_symbol());
    }
    let costs = GrammarCost::new(grammar);
    match costs.grammar.find("<start>") {
        None => Err(FuzzError::NoStartSymbol),
        Some(i) => {
            proof {
                lemma_index_of(g, i as int);
            }
            if !costs.cost_by_symbol[i].is_finite() {
                Err(FuzzError::InfiniteCost)
            } else if !costs.is_generative() {
                Err(FuzzError::UnusableExpansion)
            } else {
                let tree = Derivation::NT(String::from_str("start"), Vec::new());
                assert(tree@->NT_1 =~= Seq::<DerivationView>::empty());
                assert(tree@ == root());
                proof {
                    lemma_reachable_start(grammar_graph(g), start_symbol());
                }
                Ok(expand_tree(rng, &costs, tree, min_expansions, max_expansions))
            }
        },
    }
}

/// Creates a random string from a grammar: the leaves of a random
/// derivation tree, one after the other.
pub fn fuzz(rng: &mut Rng, grammar: Grammar) -> (r: Result<String, FuzzError>)
    requires
        grammar.wf(),
    ensures
        r is Ok == can_generate(grammar@),
        r matches Ok(s) ==> s@ == crate::text::concat_spec(
            crate::tree::leaves(expand_tree_spec(grammar@, root(), *old(rng), 80, 200).0),
        ) && *final(rng) == expand_tree_spec(grammar@, root(), *old(rng), 80, 200).1,
        r matches Err(e) ==> e == fuzz_error(grammar@) && *final(rng) == *old(rng),
{
    match fuzz_tree(rng, grammar) {
        Ok(tree) => Ok(tree.all_leafs()),
        Err(e) => Err(e),
    }
}

/// The position of the first of the least costs among the first `k`.
pub open spec fn first_least(costs: Seq<SymbolCost>, k: nat) -> int
    decreases k,
{
    if k <= 1 || k > costs.len() {
        0
    } else {
        let prev = first_least(costs, (k - 1) as nat);
        if cost_le(costs[prev], costs[k - 1]) {
            prev
        } else {
            k - 1
        }
    }
}

/// The position of the last of the greatest costs among the first `k`.
pub open spec fn last_greatest(costs: Seq<SymbolCost>, k: nat) -> int
    decreases k,
{
    if k <= 1 || k > costs.len() {
        0
    } else {
        let prev = last_greatest(costs, (k - 1) as nat);
        if cost_le(costs[prev], costs[k - 1]) {
            k - 1
        } else {
            prev
        }
    }
}

/// Both positions lie among the first `k`.
pub proof fn lemma_extreme_positions(costs: Seq<SymbolCost>, k: nat)
    requires
        0 < k <= costs.len(),
    ensures
        0 <= first_least(costs, k) < k,
        0 <= last_greatest(costs, k) < k,
        forall|j: int| 0 <= j < k ==> cost_le(costs[first_least(costs, k)], #[trigger] costs[j]),
        forall|j: int| 0 <= j < k ==> cost_le(#[trigger] costs[j], costs[last_greatest(costs, k)]),
    decreases k,
{
    if k > 1 {
        lemma_extreme_positions(costs, (k - 1) as nat);
    }
}

/// The costs of the expansions `exps`, each with `seen` as the guard.
pub open spec fn guarded_costs(
    g: Seq<RuleView>,
    exps: Seq<Seq<Seq<char>>>,
    seen: Set<Seq<char>>,
) -> Seq<SymbolCost> {
    Seq::new(exps.len(), |i: int| expansion_cost_spec(g, exps[i], seen))
}

/// The node `t` expanded with the expansion number `e` of its symbol.
pub open spec fn node_expanded(g: Seq<RuleView>, t: DerivationView, e: int) -> DerivationView {
    let symbol = node_symbol(t);
    DerivationView::NT(
        trim_angle_brackets_spec(symbol),
        symbol_nodes(expansions_of(g, symbol)[e]),
    )
}

/// The position of the expansion that is chosen for a node by its cost:
/// the first of the least costs (`minimal`) or the last of the greatest,
/// each cost taken with the node's symbol as the guard against recursion.
pub open spec fn chosen_by_cost(g: Seq<RuleView>, t: DerivationView, minimal: bool) -> int {
    let exps = expansions_of(g, node_symbol(t));
    let costs = guarded_costs(g, exps, set![node_symbol(t)]);
    if minimal {
        first_least(costs, costs.len())
    } else {
        last_greatest(costs, costs.len())
    }
}

/// The symbol of a node as the grammar writes it.
pub open spec fn node_symbol(t: DerivationView) -> Seq<char> {
    match t {
        DerivationView::NT(name, _) => bracketed_spec(name),
        DerivationView::T(name) => name,
    }
}

/// Expands a node with one of the expansions of its symbol, each with the
/// same weight. The symbol needs an expansion.
pub fn expand_node_randomly(rng: &mut Rng, grammar: &Grammar, tree: &Derivation) -> (r: Derivation)
    requires
        grammar.wf(),
        expansions_of(grammar@, node_symbol(tree@)).len() > 0,
    ensures
        r@ == node_expanded(
            grammar@,
            tree@,
            (old(rng).output() % (expansions_of(grammar@, node_symbol(tree@)).len() as u64)) as int,
        ),
        *final(rng) == old(rng).step(),
{
    let name = tree.get_name();
    match grammar.get(name.as_str()) {
        None => {
            proof {
                assert(false);
            }
            tree.clone()
        },
        Some(expansions) => {
            let pos = rng.index(expansions.len());
            assert(expansions.deep_view()[pos as int] == expansions[pos as int].deep_view());
            let children = expansion_nodes(&expansions[pos]);
            let r = Derivation::NT(String::from_str(trim_angle_brackets(name.as_str())), children);
            assert(r@->NT_1 =~= tree_views(children@));
            r
        },
    }
}

/// Expands a node with the first of its symbol's expansions of least cost
/// (`minimal`) or the last of those of greatest cost, where each cost is
/// taken with the symbol itself as the guard against recursion.
pub fn expand_node_by_cost(grammar: &Grammar, tree: &Derivation, minimal: bool) -> (r: Derivation)
    requires
        grammar.wf(),
        expansions_of(grammar@, node_symbol(tree@)).len() > 0,
    ensures
        r@ == node_expanded(
            grammar@,
            tree@,
            chosen_by_cost(grammar@, tree@, minimal),
        ),
{
    let name = tree.get_name();
    let none: Vec<String> = Vec::new();
    assert(seen_set(none.deep_view()) =~= Set::<Seq<char>>::empty());
    let seen = with_name(&none, name.as_str());
    assert(seen_set(seen.deep_view()) =~= set![name@]);
    match grammar.get(name.as_str()) {
        None => {
            proof {
                assert(false);
            }
            tree.clone()
        },
        Some(expansions) => {
            let ghost exps = expansions.deep_view();
            let ghost costs = guarded_costs(grammar@, exps, set![name@]);
            let mut best: usize = 0;
            let mut best_cost = expansion_cost(grammar, &expansions[0], &seen);
            assert(exps[0] == expansions[0].deep_view());
            let mut k: usize = 1;
            while k < expansions.len()
                invariant
                    1 <= k <= expansions.len(),
                    grammar.wf(),
                    exps == expansions.deep_view(),
                    costs == guarded_costs(grammar@, exps, set![name@]),
                    seen_set(seen.deep_view()) == set![name@],
                    best < k,
                    best_cost == costs[best as int],
                    best == if minimal {
                        first_least(costs, k as nat)
                    } else {
                        last_greatest(costs, k as nat)
                    },
                decreases expansions.len() - k,
            {
                assert(exps[k as int] == expansions[k as int].deep_view());
                let c = expansion_cost(grammar, &expansions[k], &seen);
                let keep = best_cost.le(&c);
                if minimal {
                    if !keep {
                        best = k;
                        best_cost = c;
                    }
                } else {
                    if keep {
                        best = k;
                        best_cost = c;
                    }
                }
                k += 1;
            }
            assert(exps[best as int] == expansions[best as int].deep_view());
            let children = expansion_nodes(&expansions[best]);
            let r = Derivation::NT(String::from_str(trim_angle_brackets(name.as_str())), children);
            assert(r@->NT_1 =~= tree_views(children@));
            r
        },
    }
}

/// Expands a node with the first of its symbol's expansions of least cost.
pub fn expand_node_min_cost(grammar: &Grammar, tree: &Derivation) -> (r: Derivation)
    requires
        grammar.wf(),
        expansions_of(grammar@, node_symbol(tree@)).len() > 0,
    ensures
        r@ == node_expanded(
            grammar@,
            tree@,
            chosen_by_cost(grammar@, tree@, true),
        ),
{
    expand_node_by_cost(grammar, tree, true)
}

/// Expands a node with the last of its symbol's expansions of greatest
/// cost.
pub fn expand_node_max_cost(grammar: &Grammar, tree: &Derivation) -> (r: Derivation)
    requires
        grammar.wf(),
        expansions_of(grammar@, node_symbol(tree@)).len() > 0,
    ensures
        r@ == node_expanded(
            grammar@,
            tree@,
            chosen_by_cost(grammar@, tree@, false),
        ),
{
    expand_node_by_cost(grammar, tree, false)
}

/// Expands a node in the way that closes a tree soonest: with the first of
/// its symbol's expansions of least cost.
pub fn expand_node(grammar: &Grammar, tree: &Derivation) -> (r: Derivation)
    requires
        grammar.wf(),
        expansions_of(grammar@, node_symbol(tree@)).len() > 0,
    ensures
        r@ == node_expanded(
            grammar@,
            tree@,
            chosen_by_cost(grammar@, tree@, true),
        ),
{
    expand_node_min_cost(grammar, tree)
}

} // verus!
