//! Context-free grammars in BNF.
//!
//! A grammar maps each nonterminal to the ordered list of its expansions; an
//! expansion is a sequence of symbols. By convention a symbol between angle
//! brackets (`<expr>`) names a nonterminal and any other symbol is a terminal.
//! Rules are kept in the order in which their nonterminals were first added,
//! so that everything computed from a grammar is reproducible.

use vstd::prelude::*;
use vstd::string::*;
use crate::text::{is_nonterminal, is_nonterminal_spec, trim_angle_brackets, trim_angle_brackets_spec};

verus! {

pub type Nonterminal = String;

/// Right-hand side of one production rule.
pub type Expansion = Vec<String>;

/// All expansions of one nonterminal.
#[derive(Debug)]
pub struct Rule {
    pub name: String,
    pub expansions: Vec<Expansion>,
}

/// Mathematical model of a rule: its name and its expansions, as sequences
/// of characters.
pub struct RuleView {
    pub name: Seq<char>,
    pub expansions: Seq<Seq<Seq<char>>>,
}

impl View for Rule {
    type V = RuleView;

    open spec fn view(&self) -> RuleView {
        RuleView { name: self.name@, expansions: self.expansions.deep_view() }
    }
}

/// Name of the symbol from which every derivation starts.
pub open spec fn start_symbol() -> Seq<char> {
    seq!['<', 's', 't', 'a', 'r', 't', '>']
}

/// True when some rule of `g` is for `name`.
pub open spec fn defines(g: Seq<RuleView>, name: Seq<char>) -> bool {
    exists|i: int| 0 <= i < g.len() && #[trigger] g[i].name == name
}

/// Position of the rule for `name`, for a name that `g` defines.
pub open spec fn index_of(g: Seq<RuleView>, name: Seq<char>) -> int {
    choose|i: int| 0 <= i < g.len() && #[trigger] g[i].name == name
}

/// The expansions of `name`; none for a name without a rule.
pub open spec fn expansions_of(g: Seq<RuleView>, name: Seq<char>) -> Seq<Seq<Seq<char>>> {
    if defines(g, name) {
        g[index_of(g, name)].expansions
    } else {
        Seq::empty()
    }
}

/// No two rules are for the same nonterminal.
pub open spec fn distinct_names(g: Seq<RuleView>) -> bool {
    forall|i: int, j: int| 0 <= i < j < g.len() ==> #[trigger] g[i].name != #[trigger] g[j].name
}

/// The names of the rules, in order.
pub open spec fn names(g: Seq<RuleView>) -> Seq<Seq<char>> {
    Seq::new(g.len(), |i: int| g[i].name)
}

/// The set of nonterminals that have a rule.
pub open spec fn defined_set(g: Seq<RuleView>) -> Set<Seq<char>> {
    names(g).to_set()
}

/// `g` with one more expansion for `name`: appended to the rule for `name`
/// where there is one, else as a new last rule.
pub open spec fn with_production(g: Seq<RuleView>, name: Seq<char>, expansion: Seq<Seq<char>>) -> Seq<
    RuleView,
> {
    if defines(g, name) {
        let i = index_of(g, name);
        g.update(i, RuleView { name: name, expansions: g[i].expansions.push(expansion) })
    } else {
        g.push(RuleView { name: name, expansions: seq![expansion] })
    }
}

/// `g` with more expansions for `name`, in order; a rule for `name` is
/// created even where `expansions` is empty.
pub open spec fn with_expansions(
    g: Seq<RuleView>,
    name: Seq<char>,
    expansions: Seq<Seq<Seq<char>>>,
) -> Seq<RuleView> {
    if defines(g, name) {
        let i = index_of(g, name);
        g.update(i, RuleView { name: name, expansions: g[i].expansions + expansions })
    } else {
        g.push(RuleView { name: name, expansions: expansions })
    }
}

/// The one-symbol expansions made of each of `symbols`.
pub open spec fn singletons(symbols: Seq<Seq<char>>) -> Seq<Seq<Seq<char>>> {
    Seq::new(symbols.len(), |i: int| seq![symbols[i]])
}

/// The views of the string slices of `v`.
pub open spec fn str_views(v: Seq<&str>) -> Seq<Seq<char>> {
    Seq::new(v.len(), |i: int| v[i]@)
}

/// Two grammars hold the same rules when they define the same nonterminals
/// with the same expansions, in whatever order the rules stand.
pub open spec fn same_rules(a: Seq<RuleView>, b: Seq<RuleView>) -> bool {
    &&& forall|n: Seq<char>| defines(a, n) == defines(b, n)
    &&& forall|n: Seq<char>| expansions_of(a, n) == expansions_of(b, n)
}

/// With distinct names, the rule found under a name is the rule at the
/// position where that name stands.
pub proof fn lemma_index_of(g: Seq<RuleView>, i: int)
    requires
        distinct_names(g),
        0 <= i < g.len(),
    ensures
        defines(g, g[i].name),
        index_of(g, g[i].name) == i,
        expansions_of(g, g[i].name) == g[i].expansions,
{
    let j = index_of(g, g[i].name);
    assert(0 <= j < g.len() && g[j].name == g[i].name);
    if j < i {
        assert(g[j].name != g[i].name);
    }
    if i < j {
        assert(g[i].name != g[j].name);
    }
}

/// Adding a production keeps the names distinct, keeps every other rule,
/// and adds exactly that expansion at the end of the rule for `name`.
pub proof fn lemma_with_production(g: Seq<RuleView>, name: Seq<char>, expansion: Seq<Seq<char>>)
    requires
        distinct_names(g),
    ensures
        distinct_names(with_production(g, name, expansion)),
        defines(with_production(g, name, expansion), name),
        expansions_of(with_production(g, name, expansion), name) == expansions_of(g, name).push(
            expansion,
        ),
        forall|n: Seq<char>|
            n != name ==> defines(with_production(g, name, expansion), n) == defines(g, n),
        forall|n: Seq<char>|
            n != name ==> expansions_of(with_production(g, name, expansion), n) == expansions_of(
                g,
                n,
            ),
{
    lemma_with_expansions(g, name, seq![expansion]);
    let g2 = with_production(g, name, expansion);
    assert(g2 =~= with_expansions(g, name, seq![expansion])) by {
        if defines(g, name) {
            let i = index_of(g, name);
            assert(g[i].expansions.push(expansion) =~= g[i].expansions + seq![expansion]);
        }
    }
    assert(expansions_of(g, name) + seq![expansion] =~= expansions_of(g, name).push(expansion));
}

/// Adding expansions keeps the names distinct, keeps every other rule, and
/// adds exactly those expansions at the end of the rule for `name`.
pub proof fn lemma_with_expansions(
    g: Seq<RuleView>,
    name: Seq<char>,
    expansions: Seq<Seq<Seq<char>>>,
)
    requires
        distinct_names(g),
    ensures
        distinct_names(with_expansions(g, name, expansions)),
        defines(with_expansions(g, name, expansions), name),
        expansions_of(with_expansions(g, name, expansions), name) == expansions_of(g, name)
            + expansions,
        forall|n: Seq<char>|
            n != name ==> defines(with_expansions(g, name, expansions), n) == defines(g, n),
        forall|n: Seq<char>|
            n != name ==> expansions_of(with_expansions(g, name, expansions), n) == expansions_of(
                g,
                n,
            ),
{
    let g2 = with_expansions(g, name, expansions);
    if defines(g, name) {
        let i = index_of(g, name);
        lemma_index_of(g, i);
        assert(g2.len() == g.len());
        assert forall|a: int| 0 <= a < g.len() implies (#[trigger] g2[a]).name == g[a].name by {}
        assert forall|a: int, b: int| 0 <= a < b < g2.len() implies #[trigger] g2[a].name
            != #[trigger] g2[b].name by {
            assert(g[a].name != g[b].name);
        }
        assert(g2[i].name == name);
        lemma_index_of(g2, i);
        assert forall|n: Seq<char>| n != name implies defines(g2, n) == defines(g, n)
            && expansions_of(g2, n) == expansions_of(g, n) by {
            if defines(g, n) {
                let k = index_of(g, n);
                assert(g2[k].name == n);
                lemma_index_of(g, k);
                lemma_index_of(g2, k);
            }
            if defines(g2, n) {
                let k = index_of(g2, n);
                assert(g[k].name == n);
            }
        }
    } else {
        let i = g.len() as int;
        assert forall|a: int, b: int| 0 <= a < b < g2.len() implies #[trigger] g2[a].name
            != #[trigger] g2[b].name by {
            if b < g.len() {
                assert(g[a].name != g[b].name);
            } else {
                assert(g2[a].name == g[a].name);
            }
        }
        assert(g2[i].name == name);
        lemma_index_of(g2, i);
        assert(expansions_of(g, name) + expansions =~= expansions);
        assert forall|n: Seq<char>| n != name implies defines(g2, n) == defines(g, n)
            && expansions_of(g2, n) == expansions_of(g, n) by {
            if defines(g, n) {
                let k = index_of(g, n);
                assert(g2[k].name == n);
                lemma_index_of(g, k);
                lemma_index_of(g2, k);
            }
            if defines(g2, n) {
                let k = index_of(g2, n);
                assert(g[k].name == n);
            }
        }
    }
}

/// A context-free grammar: production rules grouped by nonterminal.
#[derive(Debug)]
pub struct Grammar {
    pub rules: Vec<Rule>,
}

impl View for Grammar {
    type V = Seq<RuleView>;

    open spec fn view(&self) -> Seq<RuleView> {
        Seq::new(self.rules@.len(), |i: int| self.rules@[i]@)
    }
}

/// Copies an expansion.
pub fn clone_expansion(e: &Expansion) -> (r: Expansion)
    ensures
        r.deep_view() == e.deep_view(),
{
    let mut r: Vec<String> = Vec::new();
    let mut i: usize = 0;
    while i < e.len()
        invariant
            i <= e.len(),
            r.len() == i,
            forall|j: int| 0 <= j < i ==> r[j]@ == e[j]@,
        decreases e.len() - i,
    {
        r.push(e[i].clone());
        i += 1;
    }
    assert(r.deep_view() =~= e.deep_view());
    r
}

/// Turns string slices into owned symbols.
pub fn to_symbols(v: &[&str]) -> (r: Expansion)
    ensures
        r.deep_view() == str_views(v@),
{
    let mut r: Vec<String> = Vec::new();
    let mut i: usize = 0;
    while i < v.len()
        invariant
            i <= v@.len(),
            r.len() == i,
            forall|j: int| 0 <= j < i ==> r[j]@ == v@[j]@,
        decreases v@.len() - i,
    {
        r.push(String::from_str(v[i]));
        i += 1;
    }
    assert(r.deep_view() =~= str_views(v@));
    r
}

impl Grammar {
    /// The invariant of a grammar: no nonterminal has two separate rules.
    pub open spec fn wf(&self) -> bool {
        distinct_names(self@)
    }

    /// Creates a grammar without rules.
    pub fn new() -> (g: Self)
        ensures
            g@ == Seq::<RuleView>::empty(),
            g.wf(),
    {
        let g = Grammar { rules: Vec::new() };
        assert(g@ =~= Seq::<RuleView>::empty());
        g
    }

    /// Number of nonterminals that have a rule.
    pub fn len(&self) -> (n: usize)
        ensures
            n == self@.len(),
    {
        self.rules.len()
    }

    /// Finds the position of the rule for `name`.
    pub fn find(&self, name: &str) -> (r: Option<usize>)
        ensures
            r.is_some() == defines(self@, name@),
            r matches Some(i) ==> i < self@.len() && self@[i as int].name == name@,
            self.wf() ==> (r matches Some(i) ==> i == index_of(self@, name@)),
    {
        let key = String::from_str(name);
        let mut i: usize = 0;
        while i < self.rules.len()
            invariant
                i <= self.rules.len(),
                key@ == name@,
                forall|j: int| 0 <= j < i ==> (#[trigger] self@[j]).name != name@,
            decreases self.rules.len() - i,
        {
            if self.rules[i].name == key {
                assert(self@[i as int].name == name@);
                proof {
                    if self.wf() {
                        lemma_index_of(self@, i as int);
                    }
                }
                return Some(i);
            }
            i += 1;
        }
        None
    }

    /// True when the grammar has a rule for `name`.
    pub fn contains_key(&self, name: &str) -> (b: bool)
        ensures
            b == defines(self@, name@),
    {
        self.find(name).is_some()
    }

    /// The expansions of `name`, where it has a rule.
    pub fn get(&self, name: &str) -> (r: Option<&Vec<Expansion>>)
        ensures
            r.is_some() == defines(self@, name@),
            self.wf() ==> (r matches Some(es) ==> es.deep_view() == expansions_of(self@, name@)),
    {
        match self.find(name) {
            Some(i) => {
                assert(self@[i as int].expansions == self.rules@[i as int].expansions.deep_view());
                Some(&self.rules[i].expansions)
            },
            None => None,
        }
    }

    /// The nonterminals that have a rule, in order.
    pub fn nonterminals(&self) -> (r: Vec<String>)
        ensures
            r.deep_view() == names(self@),
    {
        let mut r: Vec<String> = Vec::new();
        let mut i: usize = 0;
        while i < self.rules.len()
            invariant
                i <= self.rules.len(),
                r.len() == i,
                forall|j: int| 0 <= j < i ==> r[j]@ == self@[j].name,
            decreases self.rules.len() - i,
        {
            r.push(self.rules[i].name.clone());
            i += 1;
        }
        assert(r.deep_view() =~= names(self@));
        r
    }

    /// Adds a single production `nonterminal -> expansion`.
    pub fn add_production(&mut self, nonterminal: &str, expansion: &[&str])
        requires
            old(self).wf(),
        ensures
            final(self).wf(),
            final(self)@ == with_production(old(self)@, nonterminal@, str_views(expansion@)),
    {
        self.add_production_(String::from_str(nonterminal), to_symbols(expansion));
    }

    /// Adds a single production `nonterminal -> expansion`, from owned values.
    pub fn add_production_(&mut self, nonterminal: Nonterminal, expansion: Expansion)
        requires
            old(self).wf(),
        ensures
            final(self).wf(),
            final(self)@ == with_production(old(self)@, nonterminal@, expansion.deep_view()),
    {
        let ghost ev = expansion.deep_view();
        proof {
            lemma_with_production(old(self)@, nonterminal@, ev);
        }
        match self.find(nonterminal.as_str()) {
            Some(i) => {
                let mut rule = self.rules.remove(i);
                rule.expansions.push(expansion);
                assert(rule.expansions.deep_view() =~= old(self)@[i as int].expansions.push(ev));
                self.rules.insert(i, rule);
                assert(self@ =~= with_production(old(self)@, nonterminal@, ev));
            },
            None => {
                let mut expansions: Vec<Expansion> = Vec::new();
                expansions.push(expansion);
                assert(expansions.deep_view() =~= seq![ev]);
                self.rules.push(Rule { name: nonterminal, expansions: expansions });
                assert(self@ =~= with_production(old(self)@, nonterminal@, ev));
            },
        }
    }

    /// Adds one production per symbol of `expansions`, each expanding
    /// `nonterminal` to that single symbol.
    pub fn add_productions(&mut self, nonterminal: &str, expansions: &[&str])
        requires
            old(self).wf(),
        ensures
            final(self).wf(),
            final(self)@ == with_expansions(
                old(self)@,
                nonterminal@,
                singletons(str_views(expansions@)),
            ),
    {
        let ghost added = singletons(str_views(expansions@));
        proof {
            lemma_with_expansions(old(self)@, nonterminal@, added);
        }
        let mut fresh: Vec<Expansion> = Vec::new();
        let mut k: usize = 0;
        while k < expansions.len()
            invariant
                k <= expansions@.len(),
                fresh.len() == k,
                forall|j: int| 0 <= j < k ==> fresh[j].deep_view() == seq![expansions@[j]@],
            decreases expansions@.len() - k,
        {
            let mut e: Vec<String> = Vec::new();
            e.push(String::from_str(expansions[k]));
            assert(e.deep_view() =~= seq![expansions@[k as int]@]);
            fresh.push(e);
            k += 1;
        }
        assert(fresh.deep_view() =~= added);
        match self.find(nonterminal) {
            Some(i) => {
                let mut rule = self.rules.remove(i);
                let ghost before = rule.expansions.deep_view();
                rule.expansions.append(&mut fresh);
                assert(rule.expansions.deep_view() =~= before + added);
                self.rules.insert(i, rule);
                assert(self@ =~= with_expansions(old(self)@, nonterminal@, added));
            },
            None => {
                self.rules.push(Rule { name: String::from_str(nonterminal), expansions: fresh });
                assert(self@ =~= with_expansions(old(self)@, nonterminal@, added));
            },
        }
    }

    /// Determines whether a symbol names a nonterminal, which is decided by
    /// its angle brackets alone.
    pub fn is_nonterminal(s: &str) -> (b: bool)
        ensures
            b == is_nonterminal_spec(s@),
    {
        is_nonterminal(s)
    }

    /// Strips the angle brackets from a nonterminal's name.
    pub fn trim_angle_brackets(s: &str) -> (r: &str)
        ensures
            r@ == trim_angle_brackets_spec(s@),
    {
        trim_angle_brackets(s)
    }
}

} // verus!
