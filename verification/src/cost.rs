//! Expansion costs: how many expansion steps it takes, at least, to turn a
//! symbol or an expansion into terminals only.
//!
//! The cost of a nonterminal is the least cost of its expansions; the cost
//! of an expansion is one step plus the costs of its nonterminals. A set of
//! nonterminals that are being expanded on the current path guards against
//! recursion: an expansion that leads back into that set costs `Infinite`.
//! The guard bounds the depth of the analysis by the number of nonterminals.

use vstd::prelude::*;
use vstd::string::*;
use crate::grammar::{
    defined_set, defines, expansions_of, index_of, names, Expansion, Grammar,
    RuleView,
};
use crate::text::{is_nonterminal, is_nonterminal_spec};

verus! {

/// Cost of a symbol or an expansion. `Infinite` stands for "no derivation
/// on this path", and also for a finite cost beyond the range of `usize`.
#[derive(Clone, Copy, Debug, PartialEq, Eq, Structural)]
pub enum SymbolCost {
    Finite(usize),
    Infinite,
}

/// Sum of two costs: `Infinite` absorbs, finite costs add; a sum that does
/// not fit in a `usize` is `Infinite`.
pub open spec fn cost_add(a: SymbolCost, b: SymbolCost) -> SymbolCost {
    match (a, b) {
        (SymbolCost::Finite(x), SymbolCost::Finite(y)) => if x + y <= usize::MAX {
            SymbolCost::Finite((x + y) as usize)
        } else {
            SymbolCost::Infinite
        },
        _ => SymbolCost::Infinite,
    }
}

/// Order of costs: finite costs by their number, `Infinite` above all.
pub open spec fn cost_le(a: SymbolCost, b: SymbolCost) -> bool {
    match (a, b) {
        (SymbolCost::Finite(x), SymbolCost::Finite(y)) => x <= y,
        (_, SymbolCost::Infinite) => true,
        (SymbolCost::Infinite, SymbolCost::Finite(_)) => false,
    }
}

/// The lesser of two costs.
pub open spec fn cost_min(a: SymbolCost, b: SymbolCost) -> SymbolCost {
    if cost_le(a, b) {
        a
    } else {
        b
    }
}

/// The greater of two costs.
pub open spec fn cost_max(a: SymbolCost, b: SymbolCost) -> SymbolCost {
    if cost_le(a, b) {
        b
    } else {
        a
    }
}

/// The number of a finite cost; 0 for `Infinite`.
pub open spec fn cost_value(a: SymbolCost) -> nat {
    match a {
        SymbolCost::Finite(x) => x as nat,
        SymbolCost::Infinite => 0,
    }
}

/// Number of nonterminals with a rule that are not in `seen`.
pub open spec fn unseen(g: Seq<RuleView>, seen: Set<Seq<char>>) -> nat {
    defined_set(g).difference(seen).len()
}

/// A nonterminal with a rule is in the set of defined names.
pub proof fn lemma_defined_set(g: Seq<RuleView>, name: Seq<char>)
    ensures
        defined_set(g).finite(),
        defined_set(g).contains(name) == defines(g, name),
{
    vstd::seq_lib::seq_to_set_is_finite(names(g));
    if defines(g, name) {
        let i = index_of(g, name);
        assert(names(g)[i] == name);
    }
    if defined_set(g).contains(name) {
        let i = choose|i: int| 0 <= i < names(g).len() && names(g)[i] == name;
        assert(g[i].name == name);
    }
}

/// Marking one more defined nonterminal as seen leaves fewer unseen.
pub proof fn lemma_unseen_decreases(g: Seq<RuleView>, seen: Set<Seq<char>>, y: Seq<char>)
    requires
        defines(g, y),
        !seen.contains(y),
    ensures
        unseen(g, seen.insert(y)) < unseen(g, seen),
{
    lemma_defined_set(g, y);
    let d = defined_set(g);
    let a = d.difference(seen);
    let b = d.difference(seen.insert(y));
    assert(b =~= a.remove(y));
    assert(a.contains(y));
}

/// Cost of the nonterminal `x`: the least cost of its expansions, each
/// taken with `x` added to `seen`. `Infinite` for a symbol without
/// expansions.
pub open spec fn symbol_cost_spec(g: Seq<RuleView>, x: Seq<char>, seen: Set<Seq<char>>) -> SymbolCost
    decreases unseen(g, seen.insert(x)), 3nat, 0nat,
{
    min_cost_spec(g, expansions_of(g, x), expansions_of(g, x).len(), seen.insert(x))
}

/// The least cost among the first `k` of the expansions `exps`.
pub open spec fn min_cost_spec(
    g: Seq<RuleView>,
    exps: Seq<Seq<Seq<char>>>,
    k: nat,
    seen: Set<Seq<char>>,
) -> SymbolCost
    decreases unseen(g, seen), 2nat, k,
{
    if k == 0 || k > exps.len() {
        SymbolCost::Infinite
    } else {
        cost_min(
            expansion_cost_spec(g, exps[k - 1], seen),
            min_cost_spec(g, exps, (k - 1) as nat, seen),
        )
    }
}

/// True when one of the nonterminals of `e` is in `seen`.
pub open spec fn any_seen(e: Seq<Seq<char>>, seen: Set<Seq<char>>) -> bool {
    exists|j: int| 0 <= j < e.len() && is_nonterminal_spec(#[trigger] e[j]) && seen.contains(e[j])
}

/// Cost of the expansion `e`: `Infinite` where one of its nonterminals is
/// in `seen`, else one step plus the costs of its nonterminals.
pub open spec fn expansion_cost_spec(g: Seq<RuleView>, e: Seq<Seq<char>>, seen: Set<Seq<char>>) -> SymbolCost
    decreases unseen(g, seen), 1nat, 0nat,
{
    if any_seen(e, seen) {
        SymbolCost::Infinite
    } else {
        cost_add(sum_cost_spec(g, e, e.len(), seen), SymbolCost::Finite(1))
    }
}

/// Sum of the costs of the nonterminals among the first `k` symbols of `e`.
/// A nonterminal in `seen`, or without a rule, makes the sum `Infinite`.
pub open spec fn sum_cost_spec(g: Seq<RuleView>, e: Seq<Seq<char>>, k: nat, seen: Set<Seq<char>>) -> SymbolCost
    decreases unseen(g, seen), 0nat, k,
{
    if k == 0 || k > e.len() {
        SymbolCost::Finite(0)
    } else {
        let rest = sum_cost_spec(g, e, (k - 1) as nat, seen);
        let y = e[k - 1];
        if !is_nonterminal_spec(y) {
            rest
        } else if seen.contains(y) || !defines(g, y) {
            SymbolCost::Infinite
        } else {
            proof {
                lemma_unseen_decreases(g, seen, y);
            }
            cost_add(rest, symbol_cost_spec(g, y, seen))
        }
    }
}

/// The set of the strings of `seen`.
pub open spec fn seen_set(seen: Seq<Seq<char>>) -> Set<Seq<char>> {
    seen.to_set()
}

impl SymbolCost {
    /// Adds two costs.
    pub fn add(self, other: Self) -> (r: Self)
        ensures
            r == cost_add(self, other),
    {
        match (self, other) {
            (SymbolCost::Finite(a), SymbolCost::Finite(b)) => match a.checked_add(b) {
                Some(c) => SymbolCost::Finite(c),
                None => SymbolCost::Infinite,
            },
            _ => SymbolCost::Infinite,
        }
    }

    /// Tells whether `self` is at most `other`.
    pub fn le(&self, other: &Self) -> (r: bool)
        ensures
            r == cost_le(*self, *other),
    {
        match (*self, *other) {
            (SymbolCost::Finite(a), SymbolCost::Finite(b)) => a <= b,
            (_, SymbolCost::Infinite) => true,
            (SymbolCost::Infinite, SymbolCost::Finite(_)) => false,
        }
    }

    /// The lesser of two costs.
    pub fn min(self, other: Self) -> (r: Self)
        ensures
            r == cost_min(self, other),
    {
        if self.le(&other) {
            self
        } else {
            other
        }
    }

    /// The greater of two costs.
    pub fn max(self, other: Self) -> (r: Self)
        ensures
            r == cost_max(self, other),
    {
        if self.le(&other) {
            other
        } else {
            self
        }
    }

    /// Tells whether the cost is finite.
    pub fn is_finite(&self) -> (r: bool)
        ensures
            r == (*self is Finite),
    {
        match self {
            SymbolCost::Finite(_) => true,
            SymbolCost::Infinite => false,
        }
    }
}

/// Tells whether `seen` holds `name`.
pub fn contains_name(seen: &Vec<String>, name: &String) -> (r: bool)
    ensures
        r == seen_set(seen.deep_view()).contains(name@),
{
    let mut i: usize = 0;
    while i < seen.len()
        invariant
            i <= seen.len(),
            forall|j: int| 0 <= j < i ==> seen[j]@ != name@,
        decreases seen.len() - i,
    {
        if seen[i] == *name {
            assert(seen.deep_view()[i as int] == name@);
            return true;
        }
        i += 1;
    }
    assert forall|j: int| 0 <= j < seen.deep_view().len() implies seen.deep_view()[j] != name@ by {
        assert(seen.deep_view()[j] == seen[j]@);
    }
    false
}

/// Copies `seen` and adds `name` to the copy.
pub fn with_name(seen: &Vec<String>, name: &str) -> (r: Vec<String>)
    ensures
        seen_set(r.deep_view()) == seen_set(seen.deep_view()).insert(name@),
{
    let mut r: Vec<String> = Vec::new();
    let mut i: usize = 0;
    while i < seen.len()
        invariant
            i <= seen.len(),
            r.len() == i,
            forall|j: int| 0 <= j < i ==> r[j]@ == seen[j]@,
        decreases seen.len() - i,
    {
        r.push(seen[i].clone());
        i += 1;
    }
    r.push(String::from_str(name));
    proof {
        assert(r.deep_view() =~= seen.deep_view().push(name@));
        crate::coverage::lemma_push_to_set(seen.deep_view(), name@);
    }
    r
}

/// Minimum cost of all expansions of a symbol, with no nonterminal seen
/// yet.
pub fn symbol_cost(grammar: &Grammar, symbol: &str) -> (r: SymbolCost)
    requires
        grammar.wf(),
    ensures
        r == symbol_cost_spec(grammar@, symbol@, Set::empty()),
{
    let seen: Vec<String> = Vec::new();
    assert(seen_set(seen.deep_view()) =~= Set::<Seq<char>>::empty());
    symbol_cost_(grammar, symbol, &seen)
}

/// Minimum cost of all expansions of a symbol, given the nonterminals that
/// are being expanded on the current path.
pub fn symbol_cost_(grammar: &Grammar, symbol: &str, seen: &Vec<String>) -> (r: SymbolCost)
    requires
        grammar.wf(),
    ensures
        r == symbol_cost_spec(grammar@, symbol@, seen_set(seen.deep_view())),
    decreases unseen(grammar@, seen_set(seen.deep_view()).insert(symbol@)), 3nat, 0nat,
{
    let inner = with_name(seen, symbol);
    let ghost s = seen_set(inner.deep_view());
    match grammar.get(symbol) {
        None => SymbolCost::Infinite,
        Some(expansions) => {
            let ghost exps = expansions_of(grammar@, symbol@);
            let mut min = SymbolCost::Infinite;
            let mut k: usize = 0;
            while k < expansions.len()
                invariant
                    k <= expansions.len(),
                    grammar.wf(),
                    exps == expansions.deep_view(),
                    s == seen_set(inner.deep_view()),
                    s == seen_set(seen.deep_view()).insert(symbol@),
                    min == min_cost_spec(grammar@, exps, k as nat, s),
                decreases expansions.len() - k,
            {
                assert(exps[k as int] == expansions[k as int].deep_view());
                let tmp = expansion_cost(grammar, &expansions[k], &inner);
                min = tmp.min(min);
                k += 1;
            }
            min
        },
    }
}

/// Cost of an expansion, given the nonterminals that are being expanded on
/// the current path.
pub fn expansion_cost(grammar: &Grammar, expansion: &Expansion, seen: &Vec<String>) -> (r:
    SymbolCost)
    requires
        grammar.wf(),
    ensures
        r == expansion_cost_spec(grammar@, expansion.deep_view(), seen_set(seen.deep_view())),
    decreases unseen(grammar@, seen_set(seen.deep_view())), 1nat, 0nat,
{
    let ghost e = expansion.deep_view();
    let ghost s = seen_set(seen.deep_view());
    let mut j: usize = 0;
    while j < expansion.len()
        invariant
            j <= expansion.len(),
            e == expansion.deep_view(),
            s == seen_set(seen.deep_view()),
            forall|i: int| 0 <= i < j ==> !(is_nonterminal_spec(#[trigger] e[i]) && s.contains(e[i])),
        decreases expansion.len() - j,
    {
        assert(e[j as int] == expansion[j as int]@);
        if is_nonterminal(expansion[j].as_str()) && contains_name(seen, &expansion[j]) {
            return SymbolCost::Infinite;
        }
        j += 1;
    }
    assert(!any_seen(e, s));
    let mut sum = SymbolCost::Finite(0);
    let mut k: usize = 0;
    while k < expansion.len()
        invariant
            k <= expansion.len(),
            grammar.wf(),
            e == expansion.deep_view(),
            s == seen_set(seen.deep_view()),
            !any_seen(e, s),
            sum == sum_cost_spec(grammar@, e, k as nat, s),
        decreases expansion.len() - k,
    {
        assert(e[k as int] == expansion[k as int]@);
        if is_nonterminal(expansion[k].as_str()) {
            if !grammar.contains_key(expansion[k].as_str()) {
                sum = SymbolCost::Infinite;
            } else {
                proof {
                    assert(!s.contains(e[k as int]));
                    lemma_unseen_decreases(grammar@, s, e[k as int]);
                }
                let c = symbol_cost_(grammar, expansion[k].as_str(), seen);
                sum = sum.add(c);
            }
        }
        k += 1;
    }
    sum.add(SymbolCost::Finite(1))
}

/// A larger set of seen nonterminals never lowers the cost of a symbol.
pub proof fn lemma_symbol_cost_monotonic(
    g: Seq<RuleView>,
    x: Seq<char>,
    s1: Set<Seq<char>>,
    s2: Set<Seq<char>>,
)
    requires
        s1.subset_of(s2),
    ensures
        cost_le(symbol_cost_spec(g, x, s1), symbol_cost_spec(g, x, s2)),
    decreases unseen(g, s1.insert(x)), 3nat, 0nat,
{
    let exps = expansions_of(g, x);
    lemma_min_cost_monotonic(g, exps, exps.len(), s1.insert(x), s2.insert(x));
}

/// A larger set of seen nonterminals never lowers the least cost of a list
/// of expansions.
pub proof fn lemma_min_cost_monotonic(
    g: Seq<RuleView>,
    exps: Seq<Seq<Seq<char>>>,
    k: nat,
    s1: Set<Seq<char>>,
    s2: Set<Seq<char>>,
)
    requires
        s1.subset_of(s2),
    ensures
        cost_le(min_cost_spec(g, exps, k, s1), min_cost_spec(g, exps, k, s2)),
    decreases unseen(g, s1), 2nat, k,
{
    if k == 0 || k > exps.len() {
    } else {
        lemma_expansion_cost_monotonic(g, exps[k - 1], s1, s2);
        lemma_min_cost_monotonic(g, exps, (k - 1) as nat, s1, s2);
    }
}

/// A larger set of seen nonterminals never lowers the cost of an expansion.
pub proof fn lemma_expansion_cost_monotonic(
    g: Seq<RuleView>,
    e: Seq<Seq<char>>,
    s1: Set<Seq<char>>,
    s2: Set<Seq<char>>,
)
    requires
        s1.subset_of(s2),
    ensures
        cost_le(expansion_cost_spec(g, e, s1), expansion_cost_spec(g, e, s2)),
    decreases unseen(g, s1), 1nat, 0nat,
{
    if any_seen(e, s2) {
    } else {
        if any_seen(e, s1) {
            let j = choose|j: int|
                0 <= j < e.len() && is_nonterminal_spec(#[trigger] e[j]) && s1.contains(e[j]);
            assert(s2.contains(e[j]));
        }
        lemma_sum_cost_monotonic(g, e, e.len(), s1, s2);
    }
}

/// A larger set of seen nonterminals never lowers the summed cost of the
/// nonterminals of an expansion.
pub proof fn lemma_sum_cost_monotonic(
    g: Seq<RuleView>,
    e: Seq<Seq<char>>,
    k: nat,
    s1: Set<Seq<char>>,
    s2: Set<Seq<char>>,
)
    requires
        s1.subset_of(s2),
    ensures
        cost_le(sum_cost_spec(g, e, k, s1), sum_cost_spec(g, e, k, s2)),
    decreases unseen(g, s1), 0nat, k,
{
    if k == 0 || k > e.len() {
    } else {
        lemma_sum_cost_monotonic(g, e, (k - 1) as nat, s1, s2);
        let y = e[k - 1];
        if is_nonterminal_spec(y) && !s2.contains(y) && defines(g, y) {
            lemma_unseen_decreases(g, s1, y);
            lemma_symbol_cost_monotonic(g, y, s1, s2);
        }
    }
}

/// The least cost of a list of expansions is at most the cost of each of
/// them.
pub proof fn lemma_min_cost_is_lower_bound(
    g: Seq<RuleView>,
    exps: Seq<Seq<Seq<char>>>,
    k: nat,
    seen: Set<Seq<char>>,
    j: int,
)
    requires
        0 <= j < k <= exps.len(),
    ensures
        cost_le(min_cost_spec(g, exps, k, seen), expansion_cost_spec(g, exps[j], seen)),
    decreases k,
{
    if j < k - 1 {
        lemma_min_cost_is_lower_bound(g, exps, (k - 1) as nat, seen, j);
    }
}

/// A cost that is at most the cost of each of the first `k` expansions is
/// at most their least cost.
pub proof fn lemma_min_cost_is_greatest_lower_bound(
    g: Seq<RuleView>,
    exps: Seq<Seq<Seq<char>>>,
    k: nat,
    seen: Set<Seq<char>>,
    c: SymbolCost,
)
    requires
        k <= exps.len(),
        forall|j: int| 0 <= j < k ==> cost_le(c, #[trigger] expansion_cost_spec(g, exps[j], seen)),
    ensures
        cost_le(c, min_cost_spec(g, exps, k, seen)),
    decreases k,
{
    if k > 0 {
        lemma_min_cost_is_greatest_lower_bound(g, exps, (k - 1) as nat, seen, c);
        assert(cost_le(c, expansion_cost_spec(g, exps[k - 1], seen)));
    }
}

/// An expansion of `x` whose cost, with nothing seen, is least among the
/// expansions of `x` costs no more than `x` itself.
pub proof fn lemma_cheapest_expansion_le_symbol(g: Seq<RuleView>, x: Seq<char>, j: int)
    requires
        0 <= j < expansions_of(g, x).len(),
        forall|i: int|
            0 <= i < expansions_of(g, x).len() ==> cost_le(
                expansion_cost_spec(g, expansions_of(g, x)[j], Set::empty()),
                #[trigger] expansion_cost_spec(g, expansions_of(g, x)[i], Set::empty()),
            ),
    ensures
        cost_le(
            expansion_cost_spec(g, expansions_of(g, x)[j], Set::empty()),
            symbol_cost_spec(g, x, Set::empty()),
        ),
{
    let exps = expansions_of(g, x);
    let none = Set::<Seq<char>>::empty();
    let c = expansion_cost_spec(g, exps[j], none);
    lemma_min_cost_is_greatest_lower_bound(g, exps, exps.len(), none, c);
    lemma_min_cost_monotonic(g, exps, exps.len(), none, none.insert(x));
}

/// Sum of the numbers of the costs of the nonterminals among the first `k`
/// symbols of `e`, each costed with nothing seen.
pub open spec fn children_value(g: Seq<RuleView>, e: Seq<Seq<char>>, k: nat) -> nat
    decreases k,
{
    if k == 0 || k > e.len() {
        0
    } else if is_nonterminal_spec(e[k - 1]) {
        children_value(g, e, (k - 1) as nat) + cost_value(
            symbol_cost_spec(g, e[k - 1], Set::empty()),
        )
    } else {
        children_value(g, e, (k - 1) as nat)
    }
}

/// Where the summed cost of an expansion's nonterminals is finite, each of
/// them has a rule and a finite cost, and the numbers add up to the sum.
pub proof fn lemma_finite_sum(g: Seq<RuleView>, e: Seq<Seq<char>>, k: nat)
    requires
        k <= e.len(),
        sum_cost_spec(g, e, k, Set::empty()) is Finite,
    ensures
        children_value(g, e, k) == cost_value(sum_cost_spec(g, e, k, Set::empty())),
        forall|j: int|
            0 <= j < k && is_nonterminal_spec(#[trigger] e[j]) ==> defines(g, e[j])
                && symbol_cost_spec(g, e[j], Set::empty()) is Finite,
    decreases k,
{
    if k > 0 {
        lemma_finite_sum(g, e, (k - 1) as nat);
    }
}

/// Where an expansion has a finite cost with nothing seen, each of its
/// nonterminals has a rule and a finite cost, and those costs add up to
/// one less than the cost of the expansion.
pub proof fn lemma_finite_expansion(g: Seq<RuleView>, e: Seq<Seq<char>>)
    requires
        expansion_cost_spec(g, e, Set::empty()) is Finite,
    ensures
        children_value(g, e, e.len()) + 1 == cost_value(expansion_cost_spec(g, e, Set::empty())),
        forall|j: int|
            0 <= j < e.len() && is_nonterminal_spec(#[trigger] e[j]) ==> defines(g, e[j])
                && symbol_cost_spec(g, e[j], Set::empty()) is Finite,
{
    lemma_finite_sum(g, e, e.len());
}

/// A symbol of finite cost has an expansion.
pub proof fn lemma_finite_symbol_has_expansion(g: Seq<RuleView>, x: Seq<char>, seen: Set<Seq<char>>)
    requires
        symbol_cost_spec(g, x, seen) is Finite,
    ensures
        expansions_of(g, x).len() > 0,
        defines(g, x),
{
}

/// A nonterminal whose only expansion is itself has no finite derivation.
pub proof fn lemma_self_loop_is_infinite(g: Seq<RuleView>, x: Seq<char>, seen: Set<Seq<char>>)
    requires
        is_nonterminal_spec(x),
        expansions_of(g, x) == seq![seq![x]],
    ensures
        symbol_cost_spec(g, x, seen) == SymbolCost::Infinite,
{
    let exps = expansions_of(g, x);
    let s = seen.insert(x);
    assert(exps[0][0] == x);
    assert(any_seen(exps[0], s));
    assert(min_cost_spec(g, exps, 0, s) == SymbolCost::Infinite);
    assert(min_cost_spec(g, exps, 1, s) == SymbolCost::Infinite);
}

} // verus!
