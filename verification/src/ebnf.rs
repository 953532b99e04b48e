//! Grammars in EBNF and their lowering to BNF.
//!
//! An EBNF grammar gives each nonterminal one expression built from
//! alternation, sequence, the postfix operators `?`, `+`, `*`, and terminal
//! and nonterminal symbols. `Ebnf::to_bnf` flattens such a grammar into plain
//! production rules, minting fresh nonterminals (`<symbol0>`, `<symbol1>`, ...)
//! where an operator or a nested group needs one.

use vstd::prelude::*;
use vstd::string::*;
use crate::grammar::{
    clone_expansion, defines, with_production, Expansion,
    Grammar, RuleView,
};
use crate::text::{bracketed, bracketed_spec, decimal_spec, push_char, push_decimal};

verus! {

/// EBNF syntax expression.
#[derive(Debug)]
pub enum Expr {
    /// Choice between the elements.
    Alt(Vec<Expr>),
    /// The elements one after the other.
    Cat(Vec<Expr>),
    /// Zero or one occurrence (`?`).
    Opt(Box<Expr>),
    /// One or more occurrences (`+`).
    Plus(Box<Expr>),
    /// Any number of occurrences (`*`).
    Star(Box<Expr>),
    /// Nonterminal symbol, named without its angle brackets.
    NT(String),
    /// Terminal symbol.
    T(String),
}

/// Mathematical model of an expression.
pub enum ExprView {
    Alt(Seq<ExprView>),
    Cat(Seq<ExprView>),
    Opt(Box<ExprView>),
    Plus(Box<ExprView>),
    Star(Box<ExprView>),
    NT(Seq<char>),
    T(Seq<char>),
}

/// The models of a list of expressions.
pub open spec fn expr_views(v: Seq<Expr>) -> Seq<ExprView> {
    Seq::new(v.len(), |i: int| v[i]@)
}

impl View for Expr {
    type V = ExprView;

    open spec fn view(&self) -> ExprView
        decreases self,
    {
        match self {
            Expr::Alt(v) => ExprView::Alt(
                Seq::new(
                    v@.len(),
                    |i: int|
                        if 0 <= i < v@.len() {
                            v@[i]@
                        } else {
                            ExprView::T(Seq::empty())
                        },
                ),
            ),
            Expr::Cat(v) => ExprView::Cat(
                Seq::new(
                    v@.len(),
                    |i: int|
                        if 0 <= i < v@.len() {
                            v@[i]@
                        } else {
                            ExprView::T(Seq::empty())
                        },
                ),
            ),
            Expr::Opt(e) => ExprView::Opt(Box::new((**e)@)),
            Expr::Plus(e) => ExprView::Plus(Box::new((**e)@)),
            Expr::Star(e) => ExprView::Star(Box::new((**e)@)),
            Expr::NT(s) => ExprView::NT(s@),
            Expr::T(s) => ExprView::T(s@),
        }
    }
}

/// Name of the fresh nonterminal with number `c`.
pub open spec fn symbol_name(c: nat) -> Seq<char> {
    seq!['<', 's', 'y', 'm', 'b', 'o', 'l'] + decimal_spec(c) + seq!['>']
}

/// Numbers of fresh nonterminals stay below this limit.
pub open spec fn counter_limit() -> nat {
    usize::MAX as nat
}

/// The first number from `i` on whose symbol name has no rule in `g`, if
/// there is one below the limit.
pub open spec fn next_fresh(g: Seq<RuleView>, i: nat) -> Option<nat>
    decreases counter_limit() - i,
{
    if i >= counter_limit() {
        None
    } else if !defines(g, symbol_name(i)) {
        Some(i)
    } else {
        next_fresh(g, i + 1)
    }
}

/// The expansion that derives the empty string: a single empty terminal.
pub open spec fn epsilon() -> Seq<Seq<char>> {
    seq![Seq::<char>::empty()]
}

/// `g` with one production `name -> e` added for each `e` of `exps`, in
/// order.
pub open spec fn with_productions(
    g: Seq<RuleView>,
    name: Seq<char>,
    exps: Seq<Seq<Seq<char>>>,
) -> Seq<RuleView>
    decreases exps.len(),
{
    if exps.len() == 0 {
        g
    } else {
        with_production(with_productions(g, name, exps.drop_last()), name, exps.last())
    }
}

/// `g` with the productions of `name+`: for each `e` of `exps`, `name -> e`
/// and `name -> e name`.
pub open spec fn with_plus(g: Seq<RuleView>, name: Seq<char>, exps: Seq<Seq<Seq<char>>>) -> Seq<
    RuleView,
>
    decreases exps.len(),
{
    if exps.len() == 0 {
        g
    } else {
        with_production(
            with_production(with_plus(g, name, exps.drop_last()), name, exps.last()),
            name,
            exps.last().push(name),
        )
    }
}

/// `g` with the recursive productions of `name*`: for each `e` of `exps`,
/// `name -> e name`.
pub open spec fn with_star(g: Seq<RuleView>, name: Seq<char>, exps: Seq<Seq<Seq<char>>>) -> Seq<
    RuleView,
>
    decreases exps.len(),
{
    if exps.len() == 0 {
        g
    } else {
        with_production(with_star(g, name, exps.drop_last()), name, exps.last().push(name))
    }
}

/// Result of lowering an expression: the grammar with the rules that the
/// lowering added, the symbol number from which the search for the next
/// fresh name starts, and the expansions that stand for the expression.
pub struct Lowered {
    pub bnf: Seq<RuleView>,
    pub counter: nat,
    pub expansions: Seq<Seq<Seq<char>>>,
}

/// Lowering of one expression into BNF, starting from the grammar `bnf`
/// and the symbol number `i`. `None` when the symbol numbers run out.
///
/// - An alternation yields the expansions of its elements, one after the
///   other.
/// - A sequence yields one expansion with one symbol per element: the
///   element's own symbol where it lowers to a single one-symbol
///   expansion, else a fresh nonterminal that gets the element's expansions.
/// - `e?`, `e+` and `e*` yield a fresh nonterminal `S` with, for the
///   expansions `a` of `e`: `S -> a` and `S -> ""`; `S -> a` and `S -> a S`;
///   `S -> a S` and `S -> ""`.
///
/// A fresh name is the first `<symbolN>` without a rule, for `N` from the
/// symbol number on. After the fresh name of a sequence the symbol number
/// stays at `N`: the name gets its rule at once, and the search passes over
/// a name with a rule. For `e?`, `e+` and `e*` the symbol number moves past
/// `N`, since `e` is lowered before the name has a rule.
pub open spec fn lower(bnf: Seq<RuleView>, e: ExprView, i: nat) -> Option<Lowered>
    decreases e, 0nat,
{
    match e {
        ExprView::Alt(es) => lower_alt(bnf, es, es.len(), i),
        ExprView::Cat(es) => lower_seq(bnf, es, es.len(), i),
        ExprView::Opt(inner) => match next_fresh(bnf, i) {
            None => None,
            Some(c) => match lower(bnf, *inner, c + 1) {
                None => None,
                Some(q) => Some(
                    Lowered {
                        bnf: with_production(
                            with_productions(q.bnf, symbol_name(c), q.expansions),
                            symbol_name(c),
                            epsilon(),
                        ),
                        counter: q.counter,
                        expansions: seq![seq![symbol_name(c)]],
                    },
                ),
            },
        },
        ExprView::Plus(inner) => match next_fresh(bnf, i) {
            None => None,
            Some(c) => match lower(bnf, *inner, c + 1) {
                None => None,
                Some(q) => Some(
                    Lowered {
                        bnf: with_plus(q.bnf, symbol_name(c), q.expansions),
                        counter: q.counter,
                        expansions: seq![seq![symbol_name(c)]],
                    },
                ),
            },
        },
        ExprView::Star(inner) => match next_fresh(bnf, i) {
            None => None,
            Some(c) => match lower(bnf, *inner, c + 1) {
                None => None,
                Some(q) => Some(
                    Lowered {
                        bnf: with_production(
                            with_star(q.bnf, symbol_name(c), q.expansions),
                            symbol_name(c),
                            epsilon(),
                        ),
                        counter: q.counter,
                        expansions: seq![seq![symbol_name(c)]],
                    },
                ),
            },
        },
        ExprView::NT(s) => Some(
            Lowered { bnf: bnf, counter: i, expansions: seq![seq![bracketed_spec(s)]] },
        ),
        ExprView::T(s) => Some(Lowered { bnf: bnf, counter: i, expansions: seq![seq![s]] }),
    }
}

/// Lowering of the first `k` elements of an alternation.
pub open spec fn lower_alt(bnf: Seq<RuleView>, es: Seq<ExprView>, k: nat, i: nat) -> Option<
    Lowered,
>
    decreases es, k,
{
    if k == 0 || k > es.len() {
        Some(Lowered { bnf: bnf, counter: i, expansions: Seq::empty() })
    } else {
        match lower_alt(bnf, es, (k - 1) as nat, i) {
            None => None,
            Some(p) => match lower(p.bnf, es[k - 1], p.counter) {
                None => None,
                Some(q) => Some(
                    Lowered {
                        bnf: q.bnf,
                        counter: q.counter,
                        expansions: p.expansions + q.expansions,
                    },
                ),
            },
        }
    }
}

/// Lowering of the first `k` elements of a sequence; the result holds the
/// single expansion built so far.
pub open spec fn lower_seq(bnf: Seq<RuleView>, es: Seq<ExprView>, k: nat, i: nat) -> Option<
    Lowered,
>
    decreases es, k,
{
    if k == 0 || k > es.len() {
        Some(Lowered { bnf: bnf, counter: i, expansions: seq![Seq::empty()] })
    } else {
        match lower_seq(bnf, es, (k - 1) as nat, i) {
            None => None,
            Some(p) => match lower(p.bnf, es[k - 1], p.counter) {
                None => None,
                Some(q) => if q.expansions.len() == 1 && q.expansions[0].len() == 1 {
                    Some(
                        Lowered {
                            bnf: q.bnf,
                            counter: q.counter,
                            expansions: seq![p.expansions[0].push(q.expansions[0][0])],
                        },
                    )
                } else {
                    match next_fresh(q.bnf, q.counter) {
                        None => None,
                        Some(c) => Some(
                            Lowered {
                                bnf: with_productions(q.bnf, symbol_name(c), q.expansions),
                                counter: c,
                                expansions: seq![p.expansions[0].push(symbol_name(c))],
                            },
                        ),
                    }
                },
            },
        }
    }
}

/// Once a prefix of an alternation cannot be lowered, no longer prefix
/// can.
pub proof fn lemma_lower_alt_none(bnf: Seq<RuleView>, es: Seq<ExprView>, k: nat, m: nat, i: nat)
    requires
        k <= m <= es.len(),
        lower_alt(bnf, es, k, i) is None,
    ensures
        lower_alt(bnf, es, m, i) is None,
    decreases m,
{
    if k < m {
        lemma_lower_alt_none(bnf, es, k, (m - 1) as nat, i);
    }
}

/// Once a prefix of a sequence cannot be lowered, no longer prefix can.
pub proof fn lemma_lower_seq_none(bnf: Seq<RuleView>, es: Seq<ExprView>, k: nat, m: nat, i: nat)
    requires
        k <= m <= es.len(),
        lower_seq(bnf, es, k, i) is None,
    ensures
        lower_seq(bnf, es, m, i) is None,
    decreases m,
{
    if k < m {
        lemma_lower_seq_none(bnf, es, k, (m - 1) as nat, i);
    }
}

/// Why a lowering to BNF stopped.
#[derive(Clone, Copy, Debug, PartialEq, Eq)]
pub enum ToBnfError {
    /// Every symbol number up to the limit is taken.
    SymbolsExhausted,
}

impl Clone for Expr {
    fn clone(&self) -> (r: Self)
        ensures
            r@ == self@,
        decreases self,
    {
        match self {
            Expr::Alt(v) => {
                let c = clone_exprs(v);
                let r = Expr::Alt(c);
                assert(r@ == self@) by {
                    assert(r@->Alt_0 =~= self@->Alt_0);
                }
                r
            },
            Expr::Cat(v) => {
                let c = clone_exprs(v);
                let r = Expr::Cat(c);
                assert(r@ == self@) by {
                    assert(r@->Cat_0 =~= self@->Cat_0);
                }
                r
            },
            Expr::Opt(e) => Expr::Opt(Box::new((&**e).clone())),
            Expr::Plus(e) => Expr::Plus(Box::new((&**e).clone())),
            Expr::Star(e) => Expr::Star(Box::new((&**e).clone())),
            Expr::NT(s) => Expr::NT(s.clone()),
            Expr::T(s) => Expr::T(s.clone()),
        }
    }
}

/// Copies a list of expressions.
pub fn clone_exprs(v: &Vec<Expr>) -> (r: Vec<Expr>)
    ensures
        expr_views(r@) == expr_views(v@),
        r@.len() == v@.len(),
        forall|j: int| 0 <= j < v@.len() ==> r@[j]@ == v@[j]@,
    decreases v,
{
    let mut r: Vec<Expr> = Vec::new();
    let mut i: usize = 0;
    while i < v.len()
        invariant
            i <= v.len(),
            r.len() == i,
            forall|j: int| 0 <= j < i ==> r[j]@ == v[j]@,
        decreases v.len() - i,
    {
        r.push(v[i].clone());
        i += 1;
    }
    assert(expr_views(r@) =~= expr_views(v@));
    r
}

/// Copies a slice of expressions.
pub fn exprs_to_vec(v: &[Expr]) -> (r: Vec<Expr>)
    ensures
        expr_views(r@) == expr_views(v@),
        r@.len() == v@.len(),
        forall|j: int| 0 <= j < v@.len() ==> r@[j]@ == v@[j]@,
{
    let mut r: Vec<Expr> = Vec::new();
    let mut i: usize = 0;
    while i < v.len()
        invariant
            i <= v@.len(),
            r.len() == i,
            forall|j: int| 0 <= j < i ==> r[j]@ == v@[j]@,
        decreases v@.len() - i,
    {
        r.push(v[i].clone());
        i += 1;
    }
    assert(expr_views(r@) =~= expr_views(v@));
    r
}

/// A choice between the given expressions.
pub fn alt(expr: &[Expr]) -> (r: Expr)
    ensures
        r@ == ExprView::Alt(expr_views(expr@)),
{
    let v = exprs_to_vec(expr);
    let r = Expr::Alt(v);
    assert(r@->Alt_0 =~= expr_views(expr@));
    r
}

/// The given expressions one after the other.
pub fn seq(expr: &[Expr]) -> (r: Expr)
    ensures
        r@ == ExprView::Cat(expr_views(expr@)),
{
    let v = exprs_to_vec(expr);
    let r = Expr::Cat(v);
    assert(r@->Cat_0 =~= expr_views(expr@));
    r
}

/// Zero or one occurrence of `expr`.
pub fn opt(expr: Expr) -> (r: Expr)
    ensures
        r@ == ExprView::Opt(Box::new(expr@)),
{
    Expr::Opt(Box::new(expr))
}

/// One or more occurrences of `expr`.
pub fn plus(expr: Expr) -> (r: Expr)
    ensures
        r@ == ExprView::Plus(Box::new(expr@)),
{
    Expr::Plus(Box::new(expr))
}

/// Any number of occurrences of `expr`.
pub fn star(expr: Expr) -> (r: Expr)
    ensures
        r@ == ExprView::Star(Box::new(expr@)),
{
    Expr::Star(Box::new(expr))
}

/// The nonterminal with the given name (without angle brackets).
pub fn nt(s: &str) -> (r: Expr)
    ensures
        r@ == ExprView::NT(s@),
{
    Expr::NT(String::from_str(s))
}

/// The terminal with the given text.
pub fn t(s: &str) -> (r: Expr)
    ensures
        r@ == ExprView::T(s@),
{
    Expr::T(String::from_str(s))
}

/// Builds the name of the fresh nonterminal with number `c`.
pub fn symbol(c: usize) -> (r: String)
    ensures
        r@ == symbol_name(c as nat),
{
    let mut r = String::from_str("<symbol");
    proof {
        reveal_strlit("<symbol");
    }
    assert(r@ =~= seq!['<', 's', 'y', 'm', 'b', 'o', 'l']);
    push_decimal(&mut r, c as u64);
    push_char(&mut r, '>');
    assert(r@ =~= symbol_name(c as nat));
    r
}

/// Adds `name -> e` to `bnf` for each `e` of `exps`, in order.
pub fn add_all(bnf: &mut Grammar, name: &String, exps: Vec<Expansion>)
    requires
        old(bnf).wf(),
    ensures
        final(bnf).wf(),
        final(bnf)@ == with_productions(old(bnf)@, name@, exps.deep_view()),
{
    let ghost all = exps.deep_view();
    let mut j: usize = 0;
    while j < exps.len()
        invariant
            j <= exps.len(),
            bnf.wf(),
            all == exps.deep_view(),
            bnf@ == with_productions(old(bnf)@, name@, all.subrange(0, j as int)),
        decreases exps.len() - j,
    {
        proof {
            let next = all.subrange(0, j as int + 1);
            assert(next.drop_last() =~= all.subrange(0, j as int));
            assert(next.last() == exps[j as int].deep_view());
        }
        bnf.add_production_(name.clone(), clone_expansion(&exps[j]));
        j += 1;
    }
    assert(all.subrange(0, j as int) =~= all);
}

/// Adds the productions of `name+` to `bnf`: `name -> e` and
/// `name -> e name` for each `e` of `exps`.
pub fn add_plus(bnf: &mut Grammar, name: &String, exps: Vec<Expansion>)
    requires
        old(bnf).wf(),
    ensures
        final(bnf).wf(),
        final(bnf)@ == with_plus(old(bnf)@, name@, exps.deep_view()),
{
    let ghost all = exps.deep_view();
    let mut j: usize = 0;
    while j < exps.len()
        invariant
            j <= exps.len(),
            bnf.wf(),
            all == exps.deep_view(),
            bnf@ == with_plus(old(bnf)@, name@, all.subrange(0, j as int)),
        decreases exps.len() - j,
    {
        proof {
            let next = all.subrange(0, j as int + 1);
            assert(next.drop_last() =~= all.subrange(0, j as int));
            assert(next.last() == exps[j as int].deep_view());
        }
        let mut longer = clone_expansion(&exps[j]);
        bnf.add_production_(name.clone(), clone_expansion(&exps[j]));
        longer.push(name.clone());
        assert(longer.deep_view() =~= exps[j as int].deep_view().push(name@));
        bnf.add_production_(name.clone(), longer);
        j += 1;
    }
    assert(all.subrange(0, j as int) =~= all);
}

/// Adds the recursive productions of `name*` to `bnf`: `name -> e name` for
/// each `e` of `exps`.
pub fn add_star(bnf: &mut Grammar, name: &String, exps: Vec<Expansion>)
    requires
        old(bnf).wf(),
    ensures
        final(bnf).wf(),
        final(bnf)@ == with_star(old(bnf)@, name@, exps.deep_view()),
{
    let ghost all = exps.deep_view();
    let mut j: usize = 0;
    while j < exps.len()
        invariant
            j <= exps.len(),
            bnf.wf(),
            all == exps.deep_view(),
            bnf@ == with_star(old(bnf)@, name@, all.subrange(0, j as int)),
        decreases exps.len() - j,
    {
        proof {
            let next = all.subrange(0, j as int + 1);
            assert(next.drop_last() =~= all.subrange(0, j as int));
            assert(next.last() == exps[j as int].deep_view());
        }
        let mut longer = clone_expansion(&exps[j]);
        longer.push(name.clone());
        assert(longer.deep_view() =~= exps[j as int].deep_view().push(name@));
        bnf.add_production_(name.clone(), longer);
        j += 1;
    }
    assert(all.subrange(0, j as int) =~= all);
}

/// The expansion that derives the empty string.
pub fn epsilon_expansion() -> (r: Expansion)
    ensures
        r.deep_view() == epsilon(),
{
    let mut r: Vec<String> = Vec::new();
    r.push(String::new());
    assert(r.deep_view() =~= epsilon());
    r
}

/// The list that holds the one-symbol expansion `symbol` and nothing else.
pub fn single_symbol(symbol: String) -> (r: Vec<Expansion>)
    ensures
        r.deep_view() == seq![seq![symbol@]],
{
    let mut e: Vec<String> = Vec::new();
    e.push(symbol);
    assert(e.deep_view() =~= seq![symbol@]);
    let mut r: Vec<Expansion> = Vec::new();
    r.push(e);
    assert(r.deep_view()[0] == r[0].deep_view());
    assert(r.deep_view() =~= seq![seq![symbol@]]);
    r
}

/// One rule of an EBNF grammar.
#[derive(Debug)]
pub struct EbnfRule {
    /// The nonterminal, named without angle brackets.
    pub name: String,
    pub expr: Expr,
}

/// Mathematical model of an EBNF rule.
pub struct EbnfRuleView {
    pub name: Seq<char>,
    pub expr: ExprView,
}

impl View for EbnfRule {
    type V = EbnfRuleView;

    open spec fn view(&self) -> EbnfRuleView {
        EbnfRuleView { name: self.name@, expr: self.expr@ }
    }
}

/// Context-free grammar with support for EBNF constructs.
#[derive(Debug)]
pub struct Ebnf {
    pub rules: Vec<EbnfRule>,
}

impl View for Ebnf {
    type V = Seq<EbnfRuleView>;

    open spec fn view(&self) -> Seq<EbnfRuleView> {
        Seq::new(self.rules@.len(), |i: int| self.rules@[i]@)
    }
}

/// True when some rule of `g` is for `name`.
pub open spec fn ebnf_defines(g: Seq<EbnfRuleView>, name: Seq<char>) -> bool {
    exists|i: int| 0 <= i < g.len() && #[trigger] g[i].name == name
}

/// No two rules are for the same nonterminal.
pub open spec fn ebnf_distinct_names(g: Seq<EbnfRuleView>) -> bool {
    forall|i: int, j: int| 0 <= i < j < g.len() ==> #[trigger] g[i].name != #[trigger] g[j].name
}

/// Lowering of the first `k` rules of an EBNF grammar, in order: each
/// rule's expression is lowered, with the search for fresh names starting
/// from the symbol number 0 again, and its expansions become the
/// productions of the rule's nonterminal, written between angle brackets.
pub open spec fn lower_rules(g: Seq<EbnfRuleView>, k: nat) -> Option<Lowered>
    decreases k,
{
    if k == 0 || k > g.len() {
        Some(Lowered { bnf: Seq::empty(), counter: 0, expansions: Seq::empty() })
    } else {
        match lower_rules(g, (k - 1) as nat) {
            None => None,
            Some(p) => match lower(p.bnf, g[k - 1].expr, 0) {
                None => None,
                Some(q) => Some(
                    Lowered {
                        bnf: with_productions(q.bnf, bracketed_spec(g[k - 1].name), q.expansions),
                        counter: 0,
                        expansions: Seq::empty(),
                    },
                ),
            },
        }
    }
}

/// The BNF grammar that an EBNF grammar lowers to.
pub open spec fn to_bnf_spec(g: Seq<EbnfRuleView>) -> Option<Seq<RuleView>> {
    match lower_rules(g, g.len()) {
        None => None,
        Some(l) => Some(l.bnf),
    }
}

/// Once a prefix of the rules cannot be lowered, no longer prefix can.
pub proof fn lemma_lower_rules_none(g: Seq<EbnfRuleView>, k: nat, m: nat)
    requires
        k <= m <= g.len(),
        lower_rules(g, k) is None,
    ensures
        lower_rules(g, m) is None,
    decreases m,
{
    if k < m {
        lemma_lower_rules_none(g, k, (m - 1) as nat);
    }
}

/// The terminal expressions for the decimal numerals of `v`.
pub open spec fn numeral_terminals(v: Seq<u64>) -> Seq<ExprView> {
    Seq::new(v.len(), |i: int| ExprView::T(decimal_spec(v[i] as nat)))
}

impl Ebnf {
    /// The invariant of an EBNF grammar: each nonterminal has one rule.
    pub open spec fn wf(&self) -> bool {
        ebnf_distinct_names(self@)
    }

    /// Creates a grammar without rules.
    pub fn new() -> (g: Self)
        ensures
            g@ == Seq::<EbnfRuleView>::empty(),
            g.wf(),
    {
        let g = Ebnf { rules: Vec::new() };
        assert(g@ =~= Seq::<EbnfRuleView>::empty());
        g
    }

    /// Finds the position of the rule for `name`.
    pub fn find(&self, name: &str) -> (r: Option<usize>)
        ensures
            r.is_some() == ebnf_defines(self@, name@),
            r matches Some(i) ==> i < self@.len() && self@[i as int].name == name@,
    {
        let key = String::from_str(name);
        let mut i: usize = 0;
        while i < self.rules.len()
            invariant
                i <= self.rules.len(),
                key@ == name@,
                forall|j: int| 0 <= j < i ==> (#[trigger] self@[j]).name != name@,
            decreases self.rules.len() - i,
        {
            if self.rules[i].name == key {
                assert(self@[i as int].name == name@);
                return Some(i);
            }
            i += 1;
        }
        None
    }

    /// Adds the rule `nonterminal -> expr`. A nonterminal gets one rule
    /// only.
    pub fn add_production(&mut self, nonterminal: &str, expr: Expr)
        requires
            old(self).wf(),
            !ebnf_defines(old(self)@, nonterminal@),
        ensures
            final(self).wf(),
            final(self)@ == old(self)@.push(EbnfRuleView { name: nonterminal@, expr: expr@ }),
    {
        self.rules.push(EbnfRule { name: String::from_str(nonterminal), expr: expr });
        assert(self@ =~= old(self)@.push(EbnfRuleView { name: nonterminal@, expr: expr@ }));
        assert forall|a: int, b: int| 0 <= a < b < self@.len() implies #[trigger] self@[a].name
            != #[trigger] self@[b].name by {
            if b < old(self)@.len() {
                assert(old(self)@[a].name != old(self)@[b].name);
            } else {
                assert(self@[a].name == old(self)@[a].name);
            }
        }
    }

    /// Turns numbers into the terminals of their decimal numerals, for
    /// building alternatives out of ranges.
    pub fn to_terminals(v: &[u64]) -> (r: Vec<Expr>)
        ensures
            expr_views(r@) == numeral_terminals(v@),
    {
        let mut res: Vec<Expr> = Vec::new();
        let mut i: usize = 0;
        while i < v.len()
            invariant
                i <= v@.len(),
                res.len() == i,
                forall|j: int| 0 <= j < i ==> res[j]@ == ExprView::T(decimal_spec(v@[j] as nat)),
            decreases v@.len() - i,
        {
            res.push(Expr::T(crate::text::decimal(v[i])));
            i += 1;
        }
        assert(expr_views(res@) =~= numeral_terminals(v@));
        res
    }

    /// Generates the name of a nonterminal that has no rule in `bnf` yet:
    /// the first of `<symbolN>` for `N` from `*i` on. Leaves `*i` at the
    /// number taken: a later call yields another name once this one has
    /// a rule.
    pub fn new_nonterminal(bnf: &Grammar, i: &mut usize) -> (r: Option<String>)
        ensures
            match next_fresh(bnf@, *old(i) as nat) {
                Some(c) => r matches Some(s) && s@ == symbol_name(c) && *final(i) == c && c
                    < usize::MAX && !defines(bnf@, s@),
                None => r is None,
            },
    {
        let ghost i0 = *i as nat;
        while *i < usize::MAX
            invariant
                i0 == *old(i) as nat,
                next_fresh(bnf@, i0) == next_fresh(bnf@, *i as nat),
            decreases usize::MAX - *i,
        {
            let name = symbol(*i);
            if !bnf.contains_key(name.as_str()) {
                assert(next_fresh(bnf@, *i as nat) == Some(*i as nat));
                return Some(name);
            }
            assert(next_fresh(bnf@, *i as nat) == next_fresh(bnf@, (*i + 1) as nat));
            *i = *i + 1;
        }
        None
    }

    /// Lowers an EBNF expression into BNF expansions, adding to `bnf`
    /// the rules of the fresh nonterminals that this takes.
    pub fn to_bnf_expr(bnf: &mut Grammar, expression: &Expr, i: &mut usize) -> (r: Result<
        Vec<Expansion>,
        ToBnfError,
    >)
        requires
            old(bnf).wf(),
        ensures
            match lower(old(bnf)@, expression@, *old(i) as nat) {
                Some(l) => r matches Ok(es) && es.deep_view() == l.expansions && final(bnf)@
                    == l.bnf && *final(i) == l.counter && final(bnf).wf(),
                None => r is Err,
            },
        decreases expression,
    {
        let ghost bnf0 = bnf@;
        let ghost i0 = *i as nat;
        match expression {
            Expr::Alt(exprs) => {
                let ghost es = expression@->Alt_0;
                let mut res: Vec<Expansion> = Vec::new();
                let mut k: usize = 0;
                assert(res.deep_view() =~= Seq::<Seq<Seq<char>>>::empty());
                while k < exprs.len()
                    invariant
                        k <= exprs.len(),
                        expression is Alt,
                        expression->Alt_0 == *exprs,
                        bnf0 == old(bnf)@,
                        i0 == *old(i) as nat,
                        es == expression@->Alt_0,
                        es.len() == exprs.len(),
                        forall|j: int| 0 <= j < exprs.len() ==> es[j] == exprs[j]@,
                        bnf.wf(),
                        lower_alt(bnf0, es, k as nat, i0) == Some(
                            Lowered { bnf: bnf@, counter: *i as nat, expansions: res.deep_view() },
                        ),
                    decreases exprs.len() - k,
                {
                    let ghost bk = bnf@;
                    let ghost ik = *i as nat;
                    match Self::to_bnf_expr(bnf, &exprs[k], i) {
                        Err(e) => {
                            proof {
                                assert(lower(bk, es[k as int], ik) is None);
                                assert(lower_alt(bnf0, es, (k + 1) as nat, i0) is None);
                                lemma_lower_alt_none(bnf0, es, (k + 1) as nat, es.len(), i0);
                            }
                            return Err(e);
                        },
                        Ok(mut sub) => {
                            let ghost before = res.deep_view();
                            let ghost added = sub.deep_view();
                            res.append(&mut sub);
                            assert(res.deep_view() =~= before + added);
                        },
                    }
                    k += 1;
                }
                Ok(res)
            },
            Expr::Cat(exprs) => {
                let ghost es = expression@->Cat_0;
                let mut res: Vec<String> = Vec::new();
                let mut k: usize = 0;
                assert(res.deep_view() =~= Seq::<Seq<char>>::empty());
                while k < exprs.len()
                    invariant
                        k <= exprs.len(),
                        expression is Cat,
                        expression->Cat_0 == *exprs,
                        bnf0 == old(bnf)@,
                        i0 == *old(i) as nat,
                        es == expression@->Cat_0,
                        es.len() == exprs.len(),
                        forall|j: int| 0 <= j < exprs.len() ==> es[j] == exprs[j]@,
                        bnf.wf(),
                        lower_seq(bnf0, es, k as nat, i0) == Some(
                            Lowered {
                                bnf: bnf@,
                                counter: *i as nat,
                                expansions: seq![res.deep_view()],
                            },
                        ),
                    decreases exprs.len() - k,
                {
                    let ghost before = res.deep_view();
                    let ghost bk = bnf@;
                    let ghost ik = *i as nat;
                    match Self::to_bnf_expr(bnf, &exprs[k], i) {
                        Err(e) => {
                            proof {
                                assert(lower(bk, es[k as int], ik) is None);
                                assert(lower_seq(bnf0, es, (k + 1) as nat, i0) is None);
                                lemma_lower_seq_none(bnf0, es, (k + 1) as nat, es.len(), i0);
                            }
                            return Err(e);
                        },
                        Ok(sub) => {
                            assert(sub.deep_view().len() == sub.len());
                            if sub.len() == 1 && sub[0].len() == 1 {
                                assert(sub.deep_view()[0] == sub[0].deep_view());
                                assert(sub[0].deep_view()[0] == sub[0][0]@);
                                res.push(sub[0][0].clone());
                                assert(res.deep_view() =~= before.push(sub[0][0]@));
                            } else {
                                proof {
                                    if sub.len() == 1 {
                                        assert(sub.deep_view()[0] == sub[0].deep_view());
                                    }
                                }
                                match Self::new_nonterminal(bnf, i) {
                                    None => {
                                        proof {
                                            assert(lower(bk, es[k as int], ik) is Some);
                                            assert(lower_seq(bnf0, es, (k + 1) as nat, i0) is None);
                                            lemma_lower_seq_none(
                                                bnf0,
                                                es,
                                                (k + 1) as nat,
                                                es.len(),
                                                i0,
                                            );
                                        }
                                        return Err(ToBnfError::SymbolsExhausted);
                                    },
                                    Some(s) => {
                                        add_all(bnf, &s, sub);
                                        res.push(s);
                                        assert(res.deep_view() =~= before.push(s@));
                                    },
                                }
                            }
                        },
                    }
                    k += 1;
                }
                let mut out: Vec<Expansion> = Vec::new();
                out.push(res);
                assert(out.deep_view() =~= seq![res.deep_view()]);
                Ok(out)
            },
            Expr::Opt(inner) => {
                match Self::new_nonterminal(bnf, i) {
                    None => Err(ToBnfError::SymbolsExhausted),
                    Some(s) => {
                        *i = *i + 1;
                        match Self::to_bnf_expr(bnf, &**inner, i) {
                            Err(e) => Err(e),
                            Ok(sub) => {
                                add_all(bnf, &s, sub);
                                bnf.add_production_(s.clone(), epsilon_expansion());
                                Ok(single_symbol(s))
                            },
                        }
                    },
                }
            },
            Expr::Plus(inner) => {
                match Self::new_nonterminal(bnf, i) {
                    None => Err(ToBnfError::SymbolsExhausted),
                    Some(s) => {
                        *i = *i + 1;
                        match Self::to_bnf_expr(bnf, &**inner, i) {
                            Err(e) => Err(e),
                            Ok(sub) => {
                                add_plus(bnf, &s, sub);
                                Ok(single_symbol(s))
                            },
                        }
                    },
                }
            },
            Expr::Star(inner) => {
                match Self::new_nonterminal(bnf, i) {
                    None => Err(ToBnfError::SymbolsExhausted),
                    Some(s) => {
                        *i = *i + 1;
                        match Self::to_bnf_expr(bnf, &**inner, i) {
                            Err(e) => Err(e),
                            Ok(sub) => {
                                add_star(bnf, &s, sub);
                                bnf.add_production_(s.clone(), epsilon_expansion());
                                Ok(single_symbol(s))
                            },
                        }
                    },
                }
            },
            Expr::NT(s) => Ok(single_symbol(bracketed(s.as_str()))),
            Expr::T(s) => Ok(single_symbol(s.clone())),
        }
    }

    /// Converts the grammar to BNF: every rule's expression is lowered in
    /// turn, and the extended constructs are replaced by plain production
    /// rules. Fails only when the numbers for fresh nonterminals run out.
    pub fn to_bnf(&self) -> (r: Result<Grammar, ToBnfError>)
        ensures
            match to_bnf_spec(self@) {
                Some(g) => r matches Ok(bnf) && bnf@ == g && bnf.wf(),
                None => r is Err,
            },
    {
        let mut bnf = Grammar::new();
        let mut k: usize = 0;
        while k < self.rules.len()
            invariant
                k <= self.rules.len(),
                bnf.wf(),
                lower_rules(self@, k as nat) == Some(
                    Lowered { bnf: bnf@, counter: 0, expansions: Seq::empty() },
                ),
            decreases self.rules.len() - k,
        {
            let mut counter: usize = 0;
            assert(self@[k as int].expr == self.rules[k as int].expr@);
            match Self::to_bnf_expr(&mut bnf, &self.rules[k].expr, &mut counter) {
                Err(e) => {
                    proof {
                        assert(lower_rules(self@, (k + 1) as nat) is None);
                        lemma_lower_rules_none(self@, (k + 1) as nat, self@.len());
                    }
                    return Err(e);
                },
                Ok(expansions) => {
                    let name = bracketed(self.rules[k].name.as_str());
                    add_all(&mut bnf, &name, expansions);
                },
            }
            k += 1;
        }
        Ok(bnf)
    }
}

/// Creates the symbol that `s` names: a nonterminal where `s` stands between
/// angle brackets, which are stripped, and a terminal otherwise.
pub fn s(name: &str) -> (r: Expr)
    ensures
        r@ == (if crate::text::is_nonterminal_spec(name@) {
            ExprView::NT(crate::text::trim_angle_brackets_spec(name@))
        } else {
            ExprView::T(name@)
        }),
{
    if crate::text::is_nonterminal(name) {
        nt(crate::text::trim_angle_brackets(name))
    } else {
        t(name)
    }
}

} // verus!
