//! Grammars as text.
//!
//! A grammar is printed one rule per line: the nonterminal, padded to the
//! width of the longest, then ` -> ` and the alternatives with `  |  `
//! between them. Nonterminals are printed between angle brackets and
//! terminals between double quotes. BNF and EBNF are printed alike, so that
//! a grammar without extended constructs reads the same in both.

use vstd::prelude::*;
use vstd::string::*;
use vstd::utf8::encode_utf8;
use crate::ebnf::{Ebnf, EbnfRuleView, Expr, ExprView};
use crate::grammar::{Expansion, Grammar, RuleView};
use crate::text::{
    bracketed, bracketed_spec, concat, concat_spec, is_nonterminal, is_nonterminal_spec, join,
    join_spec, pad_right, pad_right_spec, quoted, quoted_spec,
};

verus! {

/// Between two alternatives.
pub open spec fn bar() -> Seq<char> {
    seq![' ', ' ', '|', ' ', ' ']
}

/// Between two symbols of a sequence.
pub open spec fn blank() -> Seq<char> {
    seq![' ']
}

/// Between the nonterminal of a rule and its alternatives.
pub open spec fn arrow() -> Seq<char> {
    seq![' ', '-', '>', ' ']
}

/// At the end of each rule.
pub open spec fn newline() -> Seq<char> {
    seq!['\n']
}

/// Number of bytes of the UTF-8 encoding of `s`.
pub open spec fn byte_len(s: Seq<char>) -> nat {
    encode_utf8(s).len()
}

/// The greatest byte length among the first `k` names.
pub open spec fn widest(names: Seq<Seq<char>>, k: nat) -> nat
    decreases k,
{
    if k == 0 || k > names.len() {
        0
    } else if widest(names, (k - 1) as nat) >= byte_len(names[k - 1]) {
        widest(names, (k - 1) as nat)
    } else {
        byte_len(names[k - 1])
    }
}

/// Width of the column of nonterminals: the byte length of the longest
/// name; 10 where there is no name.
pub open spec fn column_width(names: Seq<Seq<char>>) -> nat {
    if names.len() == 0 {
        10
    } else {
        widest(names, names.len())
    }
}

/// A symbol of a BNF grammar as text: a nonterminal as it is, a terminal
/// between double quotes.
pub open spec fn symbol_text(symbol: Seq<char>) -> Seq<char> {
    if is_nonterminal_spec(symbol) {
        symbol
    } else {
        quoted_spec(symbol)
    }
}

/// The texts of the symbols of an expansion.
pub open spec fn symbol_texts(e: Seq<Seq<char>>) -> Seq<Seq<char>> {
    Seq::new(e.len(), |i: int| symbol_text(e[i]))
}

/// An expansion as text: its symbols with a blank between them.
pub open spec fn expansion_text(e: Seq<Seq<char>>) -> Seq<char> {
    join_spec(symbol_texts(e), blank())
}

/// The texts of a list of expansions.
pub open spec fn expansion_texts(exps: Seq<Seq<Seq<char>>>) -> Seq<Seq<char>> {
    Seq::new(exps.len(), |i: int| expansion_text(exps[i]))
}

/// One rule as a line of text.
pub open spec fn rule_line(name: Seq<char>, body: Seq<char>, width: nat) -> Seq<char> {
    pad_right_spec(name, width) + arrow() + body + newline()
}

/// The names of the rules of a grammar.
pub open spec fn rule_names(g: Seq<RuleView>) -> Seq<Seq<char>> {
    Seq::new(g.len(), |i: int| g[i].name)
}

/// The lines of the rules of a grammar.
pub open spec fn grammar_lines(g: Seq<RuleView>) -> Seq<Seq<char>> {
    Seq::new(
        g.len(),
        |i: int|
            rule_line(
                g[i].name,
                join_spec(expansion_texts(g[i].expansions), bar()),
                column_width(rule_names(g)),
            ),
    )
}

/// A grammar as text.
pub open spec fn grammar_text(g: Seq<RuleView>) -> Seq<char> {
    concat_spec(grammar_lines(g))
}

/// An expression as text.
pub open spec fn expr_text(e: ExprView) -> Seq<char>
    decreases e, 0nat,
{
    match e {
        ExprView::Alt(es) => join_spec(expr_texts(es, es.len()), bar()),
        ExprView::Cat(es) => join_spec(expr_texts(es, es.len()), blank()),
        ExprView::Opt(inner) => seq!['('] + expr_text(*inner) + seq![')', '?'],
        ExprView::Plus(inner) => seq!['('] + expr_text(*inner) + seq![')', '+'],
        ExprView::Star(inner) => seq!['('] + expr_text(*inner) + seq![')', '*'],
        ExprView::NT(s) => bracketed_spec(s),
        ExprView::T(s) => quoted_spec(s),
    }
}

/// The texts of the first `k` of the expressions.
pub open spec fn expr_texts(es: Seq<ExprView>, k: nat) -> Seq<Seq<char>>
    decreases es, k,
{
    if k == 0 || k > es.len() {
        Seq::empty()
    } else {
        expr_texts(es, (k - 1) as nat).push(expr_text(es[k - 1]))
    }
}

/// The names of the rules of an EBNF grammar, between angle brackets.
pub open spec fn ebnf_names(g: Seq<EbnfRuleView>) -> Seq<Seq<char>> {
    Seq::new(g.len(), |i: int| bracketed_spec(g[i].name))
}

/// The lines of the rules of an EBNF grammar.
pub open spec fn ebnf_lines(g: Seq<EbnfRuleView>) -> Seq<Seq<char>> {
    Seq::new(
        g.len(),
        |i: int|
            rule_line(bracketed_spec(g[i].name), expr_text(g[i].expr), column_width(ebnf_names(g))),
    )
}

/// An EBNF grammar as text.
pub open spec fn ebnf_text(g: Seq<EbnfRuleView>) -> Seq<char> {
    concat_spec(ebnf_lines(g))
}

/// The width of the column for the given names.
pub fn width_of(names: &Vec<String>) -> (w: usize)
    ensures
        w == column_width(names.deep_view()),
{
    if names.len() == 0 {
        return 10;
    }
    let ghost all = names.deep_view();
    let mut w: usize = 0;
    let mut k: usize = 0;
    while k < names.len()
        invariant
            k <= names.len(),
            all == names.deep_view(),
            w == widest(all, k as nat),
        decreases names.len() - k,
    {
        assert(all[k as int] == names[k as int]@);
        let n = names[k].as_str().as_bytes().len();
        if w < n {
            w = n;
        }
        k += 1;
    }
    w
}

/// One rule as a line of text.
pub fn line(name: &str, body: &str, width: usize) -> (r: String)
    ensures
        r@ == rule_line(name@, body@, width as nat),
{
    let mut r = pad_right(name, width);
    r.append(" -> ");
    r.append(body);
    r.append("\n");
    proof {
        reveal_strlit(" -> ");
        reveal_strlit("\n");
        assert(" -> "@ =~= arrow());
        assert("\n"@ =~= newline());
        assert(r@ =~= rule_line(name@, body@, width as nat));
    }
    r
}

/// An expansion as text.
pub fn expansion_to_string(e: &Expansion) -> (r: String)
    ensures
        r@ == expansion_text(e.deep_view()),
{
    let mut parts: Vec<String> = Vec::new();
    let mut i: usize = 0;
    while i < e.len()
        invariant
            i <= e.len(),
            parts.len() == i,
            forall|j: int| 0 <= j < i ==> parts[j]@ == symbol_text(e[j]@),
        decreases e.len() - i,
    {
        if is_nonterminal(e[i].as_str()) {
            parts.push(e[i].clone());
        } else {
            parts.push(quoted(e[i].as_str()));
        }
        i += 1;
    }
    assert(parts.deep_view() =~= symbol_texts(e.deep_view()));
    proof {
        reveal_strlit(" ");
        assert(" "@ =~= blank());
    }
    join(&parts, " ")
}

/// The alternatives of a rule as text.
pub fn expansions_to_string(exps: &Vec<Expansion>) -> (r: String)
    ensures
        r@ == join_spec(expansion_texts(exps.deep_view()), bar()),
{
    let mut parts: Vec<String> = Vec::new();
    let mut i: usize = 0;
    while i < exps.len()
        invariant
            i <= exps.len(),
            parts.len() == i,
            forall|j: int| 0 <= j < i ==> parts[j]@ == expansion_text(exps[j].deep_view()),
        decreases exps.len() - i,
    {
        parts.push(expansion_to_string(&exps[i]));
        i += 1;
    }
    assert(parts.deep_view() =~= expansion_texts(exps.deep_view()));
    proof {
        reveal_strlit("  |  ");
        assert("  |  "@ =~= bar());
    }
    join(&parts, "  |  ")
}

impl Grammar {
    /// The grammar as text, one rule per line.
    pub fn to_string(&self) -> (r: String)
        ensures
            r@ == grammar_text(self@),
    {
        let names = self.nonterminals();
        assert(names.deep_view() =~= rule_names(self@));
        let width = width_of(&names);
        let mut lines: Vec<String> = Vec::new();
        let mut i: usize = 0;
        while i < self.rules.len()
            invariant
                i <= self.rules.len(),
                lines.len() == i,
                width == column_width(rule_names(self@)),
                forall|j: int| 0 <= j < i ==> lines[j]@ == grammar_lines(self@)[j],
            decreases self.rules.len() - i,
        {
            let rule = &self.rules[i];
            assert(self@[i as int] == rule@);
            let body = expansions_to_string(&rule.expansions);
            lines.push(line(rule.name.as_str(), body.as_str(), width));
            i += 1;
        }
        assert(lines.deep_view() =~= grammar_lines(self@));
        concat(&lines)
    }
}

impl Expr {
    /// The expression as text.
    pub fn to_string(&self) -> (r: String)
        ensures
            r@ == expr_text(self@),
        decreases self,
    {
        match self {
            Expr::Alt(exprs) => {
                let parts = texts_of(exprs);
                assert(parts.deep_view() =~= expr_texts(self@->Alt_0, self@->Alt_0.len())) by {
                    lemma_expr_texts(self@->Alt_0, expr_views_of(exprs@), exprs@.len() as nat);
                }
                proof {
                    reveal_strlit("  |  ");
                    assert("  |  "@ =~= bar());
                }
                join(&parts, "  |  ")
            },
            Expr::Cat(exprs) => {
                let parts = texts_of(exprs);
                assert(parts.deep_view() =~= expr_texts(self@->Cat_0, self@->Cat_0.len())) by {
                    lemma_expr_texts(self@->Cat_0, expr_views_of(exprs@), exprs@.len() as nat);
                }
                proof {
                    reveal_strlit(" ");
                    assert(" "@ =~= blank());
                }
                join(&parts, " ")
            },
            Expr::Opt(inner) => wrapped((&**inner).to_string(), '?'),
            Expr::Plus(inner) => wrapped((&**inner).to_string(), '+'),
            Expr::Star(inner) => wrapped((&**inner).to_string(), '*'),
            Expr::NT(s) => bracketed(s.as_str()),
            Expr::T(s) => quoted(s.as_str()),
        }
    }
}

/// The models of the expressions of a list.
pub open spec fn expr_views_of(v: Seq<Expr>) -> Seq<ExprView> {
    Seq::new(v.len(), |i: int| v[i]@)
}

/// Two lists of expressions that agree on their first `k` members have the
/// same first `k` texts.
pub proof fn lemma_expr_texts(a: Seq<ExprView>, b: Seq<ExprView>, k: nat)
    requires
        k <= a.len(),
        k <= b.len(),
        forall|j: int| 0 <= j < k ==> a[j] == b[j],
    ensures
        expr_texts(a, k) == expr_texts(b, k),
    decreases k,
{
    if k > 0 {
        lemma_expr_texts(a, b, (k - 1) as nat);
    }
}

/// The texts of a list of expressions.
pub fn texts_of(exprs: &Vec<Expr>) -> (r: Vec<String>)
    ensures
        r.deep_view() == expr_texts(expr_views_of(exprs@), exprs@.len() as nat),
    decreases exprs,
{
    let ghost es = expr_views_of(exprs@);
    let mut parts: Vec<String> = Vec::new();
    let mut i: usize = 0;
    assert(parts.deep_view() =~= expr_texts(es, 0));
    while i < exprs.len()
        invariant
            i <= exprs.len(),
            es == expr_views_of(exprs@),
            parts.deep_view() == expr_texts(es, i as nat),
        decreases exprs.len() - i,
    {
        let ghost before = parts.deep_view();
        let text = exprs[i].to_string();
        parts.push(text);
        assert(es[i as int] == exprs[i as int]@);
        assert(parts.deep_view() =~= before.push(expr_text(es[i as int])));
        i += 1;
    }
    parts
}

/// A text between round brackets, followed by a postfix operator.
pub fn wrapped(inner: String, operator: char) -> (r: String)
    ensures
        r@ == seq!['('] + inner@ + seq![')', operator],
{
    let mut r = String::new();
    crate::text::push_char(&mut r, '(');
    r.append(inner.as_str());
    crate::text::push_char(&mut r, ')');
    crate::text::push_char(&mut r, operator);
    assert(r@ =~= seq!['('] + inner@ + seq![')', operator]);
    r
}

impl Ebnf {
    /// The grammar as text, one rule per line.
    pub fn to_string(&self) -> (r: String)
        ensures
            r@ == ebnf_text(self@),
    {
        let mut names: Vec<String> = Vec::new();
        let mut k: usize = 0;
        while k < self.rules.len()
            invariant
                k <= self.rules.len(),
                names.len() == k,
                forall|j: int| 0 <= j < k ==> names[j]@ == bracketed_spec(self@[j].name),
            decreases self.rules.len() - k,
        {
            assert(self@[k as int] == self.rules[k as int]@);
            names.push(bracketed(self.rules[k].name.as_str()));
            k += 1;
        }
        assert(names.deep_view() =~= ebnf_names(self@));
        let width = width_of(&names);
        let mut lines: Vec<String> = Vec::new();
        let mut i: usize = 0;
        while i < self.rules.len()
            invariant
                i <= self.rules.len(),
                lines.len() == i,
                names.len() == self.rules.len(),
                forall|j: int| 0 <= j < names.len() ==> names[j]@ == bracketed_spec(self@[j].name),
                width == column_width(ebnf_names(self@)),
                forall|j: int| 0 <= j < i ==> lines[j]@ == ebnf_lines(self@)[j],
            decreases self.rules.len() - i,
        {
            let rule = &self.rules[i];
            assert(self@[i as int] == rule@);
            let body = rule.expr.to_string();
            lines.push(line(names[i].as_str(), body.as_str(), width));
            i += 1;
        }
        assert(lines.deep_view() =~= ebnf_lines(self@));
        concat(&lines)
    }
}

} // verus!
