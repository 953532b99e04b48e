//! Example grammars in EBNF: arithmetic expressions and JSON.

use vstd::prelude::*;
use vstd::string::*;
use crate::ebnf::{
    ebnf_defines, expr_views, opt, plus, s, numeral_terminals, Ebnf, EbnfRuleView, Expr, ExprView,
};
use crate::grammar::str_views;
use crate::text::{is_nonterminal_spec, push_char, trim_angle_brackets_spec};

verus! {

/// The expression that a symbol stands for: a nonterminal where it is
/// written between angle brackets, else a terminal.
pub open spec fn sym(x: Seq<char>) -> ExprView {
    if is_nonterminal_spec(x) {
        ExprView::NT(trim_angle_brackets_spec(x))
    } else {
        ExprView::T(x)
    }
}

/// The expressions that the symbols stand for.
pub open spec fn syms(list: Seq<Seq<char>>) -> Seq<ExprView> {
    Seq::new(list.len(), |i: int| sym(list[i]))
}

/// `g` with the rule `name -> e`, unless `name` has a rule already.
pub open spec fn with_rule(g: Seq<EbnfRuleView>, name: Seq<char>, e: ExprView) -> Seq<EbnfRuleView> {
    if ebnf_defines(g, name) {
        g
    } else {
        g.push(EbnfRuleView { name: name, expr: e })
    }
}

/// Adds the rule `name -> e`, unless `name` has a rule already.
pub fn add_rule(g: &mut Ebnf, name: &str, e: Expr)
    requires
        old(g).wf(),
    ensures
        final(g).wf(),
        final(g)@ == with_rule(old(g)@, name@, e@),
{
    if g.find(name).is_none() {
        g.add_production(name, e);
    }
}

/// Appends an expression to a list.
pub fn push_expr(v: &mut Vec<Expr>, e: Expr)
    ensures
        expr_views(final(v)@) == expr_views(old(v)@).push(e@),
{
    v.push(e);
    assert(expr_views(v@) =~= expr_views(old(v)@).push(e@));
}

/// Appends the expression of a symbol to a list.
pub fn push_symbol(v: &mut Vec<Expr>, x: &str)
    ensures
        expr_views(final(v)@) == expr_views(old(v)@).push(sym(x@)),
{
    push_expr(v, s(x));
}

/// The expressions of a list of symbols.
pub fn symbols(list: &[&str]) -> (r: Vec<Expr>)
    ensures
        expr_views(r@) == syms(str_views(list@)),
{
    let mut r: Vec<Expr> = Vec::new();
    let mut i: usize = 0;
    while i < list.len()
        invariant
            i <= list@.len(),
            r@.len() == i,
            forall|j: int| 0 <= j < i ==> r@[j]@ == sym(list@[j]@),
        decreases list@.len() - i,
    {
        r.push(s(list[i]));
        i += 1;
    }
    assert(expr_views(r@) =~= syms(str_views(list@)));
    r
}

/// The choice between the expressions of a list.
pub fn alt_of(v: Vec<Expr>) -> (r: Expr)
    ensures
        r@ == ExprView::Alt(expr_views(v@)),
{
    let r = Expr::Alt(v);
    assert(r@->Alt_0 =~= expr_views(v@));
    r
}

/// The expressions of a list one after the other.
pub fn seq_of(v: Vec<Expr>) -> (r: Expr)
    ensures
        r@ == ExprView::Cat(expr_views(v@)),
{
    let r = Expr::Cat(v);
    assert(r@->Cat_0 =~= expr_views(v@));
    r
}

/// The sequence of two symbols.
pub fn seq2(a: &str, b: &str) -> (r: Expr)
    ensures
        r@ == ExprView::Cat(syms(seq![a@, b@])),
{
    let e = [a, b];
    assert(str_views(e@) =~= seq![a@, b@]);
    seq_of(symbols(e.as_slice()))
}

/// The sequence of three symbols.
pub fn seq3(a: &str, b: &str, c: &str) -> (r: Expr)
    ensures
        r@ == ExprView::Cat(syms(seq![a@, b@, c@])),
{
    let e = [a, b, c];
    assert(str_views(e@) =~= seq![a@, b@, c@]);
    seq_of(symbols(e.as_slice()))
}

/// The sequence of five symbols.
pub fn seq5(a: &str, b: &str, c: &str, d: &str, e: &str) -> (r: Expr)
    ensures
        r@ == ExprView::Cat(syms(seq![a@, b@, c@, d@, e@])),
{
    let list = [a, b, c, d, e];
    assert(str_views(list@) =~= seq![a@, b@, c@, d@, e@]);
    seq_of(symbols(list.as_slice()))
}

/// The choice between the given symbols.
pub fn alt_symbols(list: &[&str]) -> (r: Expr)
    ensures
        r@ == ExprView::Alt(syms(str_views(list@))),
{
    alt_of(symbols(list))
}

/// The terminals of the printable ASCII characters with the codes from 32
/// to `32 + k - 1`, without the double quote and the backslash.
pub open spec fn printable_terminals(k: nat) -> Seq<ExprView>
    decreases k,
{
    if k == 0 {
        Seq::empty()
    } else {
        let code = (32 + k - 1) as u8;
        if code == 34 || code == 92 {
            printable_terminals((k - 1) as nat)
        } else {
            printable_terminals((k - 1) as nat).push(ExprView::T(seq![code as char]))
        }
    }
}

/// The terminals of the characters that a JSON string holds as they are:
/// the printable ASCII characters up to `}`, without the double quote
/// and the backslash.
pub fn json_characters() -> (r: Vec<Expr>)
    ensures
        expr_views(r@) == printable_terminals(94),
{
    let mut r: Vec<Expr> = Vec::new();
    let mut code: u8 = 32;
    assert(expr_views(r@) =~= printable_terminals(0));
    while code < 126
        invariant
            32 <= code <= 126,
            expr_views(r@) == printable_terminals((code - 32) as nat),
        decreases 126 - code,
    {
        if code != 34 && code != 92 {
            let mut text = String::new();
            push_char(&mut text, code as char);
            assert(text@ =~= seq![code as char]);
            push_expr(&mut r, Expr::T(text));
        }
        code += 1;
    }
    r
}

/// The EBNF grammar of arithmetic expressions, rule by rule.
pub open spec fn expr_grammar_ebnf_spec() -> Seq<EbnfRuleView> {
    let g = Seq::<EbnfRuleView>::empty();
    let g = with_rule(g, "start"@, sym("<expr>"@));
    let g = with_rule(
        g,
        "expr"@,
        ExprView::Alt(
            Seq::<ExprView>::empty().push(
                ExprView::Cat(syms(seq!["<term>"@, "+"@, "<expr>"@])),
            ).push(ExprView::Cat(syms(seq!["<term>"@, "-"@, "<expr>"@]))).push(sym("<term>"@)),
        ),
    );
    let g = with_rule(
        g,
        "term"@,
        ExprView::Alt(
            Seq::<ExprView>::empty().push(
                ExprView::Cat(syms(seq!["<factor>"@, "*"@, "<term>"@])),
            ).push(ExprView::Cat(syms(seq!["<factor>"@, "/"@, "<term>"@]))).push(sym("<factor>"@)),
        ),
    );
    let g = with_rule(
        g,
        "factor"@,
        ExprView::Alt(
            Seq::<ExprView>::empty().push(
                ExprView::Cat(
                    Seq::<ExprView>::empty().push(ExprView::Opt(Box::new(sym("<sign>"@)))).push(
                        sym("<factor>"@),
                    ),
                ),
            ).push(ExprView::Cat(syms(seq!["("@, "<expr>"@, ")"@]))).push(
                ExprView::Cat(
                    Seq::<ExprView>::empty().push(sym("<integer>"@)).push(
                        ExprView::Opt(Box::new(ExprView::Cat(syms(seq!["."@, "<integer>"@])))),
                    ),
                ),
            ),
        ),
    );
    let g = with_rule(g, "sign"@, ExprView::Alt(syms(seq!["+"@, "-"@])));
    let g = with_rule(g, "integer"@, ExprView::Plus(Box::new(sym("<digit>"@))));
    with_rule(
        g,
        "digit"@,
        ExprView::Alt(numeral_terminals(seq![0u64, 1u64, 2u64, 3u64, 4u64, 5u64, 6u64, 7u64, 8u64, 9u64])),
    )
}

/// The grammar of arithmetic expressions in EBNF, with an optional sign,
/// an optional fraction, and integers of one or more digits.
pub fn expr_grammar_ebnf() -> (g: Ebnf)
    ensures
        g.wf(),
        g@ == expr_grammar_ebnf_spec(),
{
    let mut grammar = Ebnf::new();

    add_rule(&mut grammar, "start", s("<expr>"));

    let mut expr: Vec<Expr> = Vec::new();
    assert(expr_views(expr@) =~= Seq::<ExprView>::empty());
    push_expr(&mut expr, seq3("<term>", "+", "<expr>"));
    push_expr(&mut expr, seq3("<term>", "-", "<expr>"));
    push_symbol(&mut expr, "<term>");
    add_rule(&mut grammar, "expr", alt_of(expr));

    let mut term: Vec<Expr> = Vec::new();
    assert(expr_views(term@) =~= Seq::<ExprView>::empty());
    push_expr(&mut term, seq3("<factor>", "*", "<term>"));
    push_expr(&mut term, seq3("<factor>", "/", "<term>"));
    push_symbol(&mut term, "<factor>");
    add_rule(&mut grammar, "term", alt_of(term));

    let mut signed: Vec<Expr> = Vec::new();
    assert(expr_views(signed@) =~= Seq::<ExprView>::empty());
    push_expr(&mut signed, opt(s("<sign>")));
    push_symbol(&mut signed, "<factor>");
    let mut number: Vec<Expr> = Vec::new();
    assert(expr_views(number@) =~= Seq::<ExprView>::empty());
    push_symbol(&mut number, "<integer>");
    push_expr(&mut number, opt(seq2(".", "<integer>")));
    let mut factor: Vec<Expr> = Vec::new();
    assert(expr_views(factor@) =~= Seq::<ExprView>::empty());
    push_expr(&mut factor, seq_of(signed));
    push_expr(&mut factor, seq3("(", "<expr>", ")"));
    push_expr(&mut factor, seq_of(number));
    add_rule(&mut grammar, "factor", alt_of(factor));

    let sign = ["+", "-"];
    assert(str_views(sign@) =~= seq!["+"@, "-"@]);
    add_rule(&mut grammar, "sign", alt_symbols(sign.as_slice()));

    add_rule(&mut grammar, "integer", plus(s("<digit>")));

    let digits = [0u64, 1u64, 2u64, 3u64, 4u64, 5u64, 6u64, 7u64, 8u64, 9u64];
    assert(digits@ =~= seq![0u64, 1u64, 2u64, 3u64, 4u64, 5u64, 6u64, 7u64, 8u64, 9u64]);
    add_rule(&mut grammar, "digit", alt_of(Ebnf::to_terminals(digits.as_slice())));

    grammar
}

/// A choice between a symbol and a sequence of two symbols.
pub open spec fn one_or_two(a: Seq<char>, b: Seq<char>, c: Seq<char>) -> ExprView {
    ExprView::Alt(Seq::<ExprView>::empty().push(sym(a)).push(ExprView::Cat(syms(seq![b, c]))))
}

/// A choice between a symbol and a sequence of three symbols.
pub open spec fn one_or_three(a: Seq<char>, b: Seq<char>, c: Seq<char>, d: Seq<char>) -> ExprView {
    ExprView::Alt(Seq::<ExprView>::empty().push(sym(a)).push(ExprView::Cat(syms(seq![b, c, d]))))
}

/// A choice between two sequences of three symbols.
pub open spec fn three_or_three(
    a: Seq<char>,
    b: Seq<char>,
    c: Seq<char>,
    d: Seq<char>,
    e: Seq<char>,
    f: Seq<char>,
) -> ExprView {
    ExprView::Alt(
        Seq::<ExprView>::empty().push(ExprView::Cat(syms(seq![a, b, c]))).push(
            ExprView::Cat(syms(seq![d, e, f])),
        ),
    )
}

/// A choice between a symbol and a sequence of two symbols.
pub fn alt_one_or_two(a: &str, b: &str, c: &str) -> (r: Expr)
    ensures
        r@ == one_or_two(a@, b@, c@),
{
    let mut v: Vec<Expr> = Vec::new();
    assert(expr_views(v@) =~= Seq::<ExprView>::empty());
    push_symbol(&mut v, a);
    push_expr(&mut v, seq2(b, c));
    alt_of(v)
}

/// A choice between a symbol and a sequence of three symbols.
pub fn alt_one_or_three(a: &str, b: &str, c: &str, d: &str) -> (r: Expr)
    ensures
        r@ == one_or_three(a@, b@, c@, d@),
{
    let mut v: Vec<Expr> = Vec::new();
    assert(expr_views(v@) =~= Seq::<ExprView>::empty());
    push_symbol(&mut v, a);
    push_expr(&mut v, seq3(b, c, d));
    alt_of(v)
}

/// A choice between two sequences of three symbols.
pub fn alt_three_or_three(a: &str, b: &str, c: &str, d: &str, e: &str, f: &str) -> (r: Expr)
    ensures
        r@ == three_or_three(a@, b@, c@, d@, e@, f@),
{
    let mut v: Vec<Expr> = Vec::new();
    assert(expr_views(v@) =~= Seq::<ExprView>::empty());
    push_expr(&mut v, seq3(a, b, c));
    push_expr(&mut v, seq3(d, e, f));
    alt_of(v)
}

/// The first rules of the JSON grammar: values, objects, arrays and strings.
pub open spec fn json_structure_spec() -> Seq<EbnfRuleView> {
    let g = Seq::<EbnfRuleView>::empty();
    let g = with_rule(g, "start"@, sym("<json>"@));
    let g = with_rule(g, "json"@, sym("<element>"@));
    let g = with_rule(
        g,
        "value"@,
        ExprView::Alt(
            syms(
                seq![
                    "<object>"@,
                    "<array>"@,
                    "<string>"@,
                    "<number>"@,
                    "true"@,
                    "false"@,
                    "null"@,
                ],
            ),
        ),
    );
    let g = with_rule(
        g,
        "object"@,
        three_or_three("{"@, "<ws>"@, "}"@, "{"@, "<members>"@, "}"@),
    );
    let g = with_rule(g, "members"@, one_or_three("<member>"@, "<member>"@, ","@, "<members>"@));
    let g = with_rule(
        g,
        "member"@,
        ExprView::Cat(syms(seq!["<ws>"@, "<string>"@, "<ws>"@, ":"@, "<element>"@])),
    );
    let g = with_rule(
        g,
        "array"@,
        three_or_three("["@, "<ws>"@, "]"@, "["@, "<elements>"@, "]"@),
    );
    let g = with_rule(
        g,
        "elements"@,
        one_or_three("<element>"@, "<element>"@, ","@, "<elements>"@),
    );
    let g = with_rule(g, "element"@, ExprView::Cat(syms(seq!["<ws>"@, "<value>"@, "<ws>"@])));
    let g = with_rule(g, "string"@, ExprView::Cat(syms(seq!["\""@, "<characters>"@, "\""@])));
    let g = with_rule(g, "characters"@, one_or_two(""@, "<character>"@, "<characters>"@));
    let g = with_rule(
        g,
        "character"@,
        ExprView::Alt(
            Seq::<ExprView>::empty().push(ExprView::Alt(printable_terminals(94))).push(
                ExprView::Cat(syms(seq!["\\"@, "<escape>"@])),
            ),
        ),
    );
    g
}

/// The JSON grammar up to the rules of escapes and hexadecimal digits.
pub open spec fn json_escapes_spec() -> Seq<EbnfRuleView> {
    let g = json_structure_spec();
    let g = with_rule(
        g,
        "escape"@,
        ExprView::Alt(
            syms(seq!["\""@, "\\"@, "/"@, "b"@, "f"@, "n"@, "r"@, "t"@]).push(
                ExprView::Cat(syms(seq!["u"@, "<hex>"@, "<hex>"@, "<hex>"@, "<hex>"@])),
            ),
        ),
    );
    let g = with_rule(
        g,
        "hex"@,
        ExprView::Alt(
            syms(
                seq![
                    "<digit>"@,
                    "A"@,
                    "B"@,
                    "C"@,
                    "D"@,
                    "E"@,
                    "F"@,
                    "a"@,
                    "b"@,
                    "c"@,
                    "d"@,
                    "e"@,
                    "f"@,
                ],
            ),
        ),
    );
    g
}

/// The grammar of JSON, rule by rule.
pub open spec fn json_grammar_spec() -> Seq<EbnfRuleView> {
    let g = json_escapes_spec();
    let g = with_rule(
        g,
        "number"@,
        ExprView::Cat(syms(seq!["<integer>"@, "<fraction>"@, "<exponent>"@])),
    );
    let g = with_rule(
        g,
        "integer"@,
        ExprView::Alt(
            Seq::<ExprView>::empty().push(sym("<digit>"@)).push(
                ExprView::Cat(syms(seq!["<onenine>"@, "<digits>"@])),
            ).push(ExprView::Cat(syms(seq!["-"@, "<digit>"@]))).push(
                ExprView::Cat(syms(seq!["-"@, "<onenine>"@, "<digits>"@])),
            ),
        ),
    );
    let g = with_rule(g, "digits"@, one_or_two("<digit>"@, "<digit>"@, "<digits>"@));
    let g = with_rule(g, "digit"@, ExprView::Alt(syms(seq!["0"@, "<onenine>"@])));
    let g = with_rule(
        g,
        "onenine"@,
        ExprView::Alt(syms(seq!["1"@, "2"@, "3"@, "4"@, "5"@, "6"@, "7"@, "8"@, "9"@])),
    );
    let g = with_rule(g, "fraction"@, one_or_two(""@, "."@, "<digits>"@));
    let g = with_rule(
        g,
        "exponent"@,
        ExprView::Alt(
            Seq::<ExprView>::empty().push(sym(""@)).push(
                ExprView::Cat(syms(seq!["E"@, "<sign>"@, "<digits>"@])),
            ).push(ExprView::Cat(syms(seq!["e"@, "<sign>"@, "<digits>"@]))),
        ),
    );
    let g = with_rule(g, "sign"@, ExprView::Alt(syms(seq![""@, "+"@, "-"@])));
    with_rule(g, "ws"@, ExprView::Alt(syms(seq![""@, " "@, "\r"@, "\n"@, "\t"@])))
}

/// Adds the rules of JSON values, objects, arrays and strings.
pub fn add_json_structure(grammar: &mut Ebnf)
    requires
        old(grammar)@ == Seq::<EbnfRuleView>::empty(),
        old(grammar).wf(),
    ensures
        final(grammar).wf(),
        final(grammar)@ == json_structure_spec(),
{
    add_rule(grammar, "start", s("<json>"));

    add_rule(grammar, "json", s("<element>"));

    let value = ["<object>", "<array>", "<string>", "<number>", "true", "false", "null"];
    assert(str_views(value@) =~= seq![
        "<object>"@,
        "<array>"@,
        "<string>"@,
        "<number>"@,
        "true"@,
        "false"@,
        "null"@,
    ]);
    add_rule(grammar, "value", alt_symbols(value.as_slice()));

    add_rule(grammar, "object", alt_three_or_three("{", "<ws>", "}", "{", "<members>", "}"));

    add_rule(grammar, "members", alt_one_or_three("<member>", "<member>", ",", "<members>"));
    add_rule(grammar, "member", seq5("<ws>", "<string>", "<ws>", ":", "<element>"));

    add_rule(grammar, "array", alt_three_or_three("[", "<ws>", "]", "[", "<elements>", "]"));

    add_rule(grammar, "elements", alt_one_or_three("<element>", "<element>", ",", "<elements>"));
    add_rule(grammar, "element", seq3("<ws>", "<value>", "<ws>"));

    add_rule(grammar, "string", seq3("\"", "<characters>", "\""));

    add_rule(grammar, "characters", alt_one_or_two("", "<character>", "<characters>"));

    let mut character: Vec<Expr> = Vec::new();
    assert(expr_views(character@) =~= Seq::<ExprView>::empty());
    push_expr(&mut character, alt_of(json_characters()));
    push_expr(&mut character, seq2("\\", "<escape>"));
    add_rule(grammar, "character", alt_of(character));
}

/// Adds the rules of JSON escapes and hexadecimal digits.
pub fn add_json_escapes(grammar: &mut Ebnf)
    requires
        old(grammar)@ == json_structure_spec(),
        old(grammar).wf(),
    ensures
        final(grammar).wf(),
        final(grammar)@ == json_escapes_spec(),
{
    let plain = ["\"", "\\", "/", "b", "f", "n", "r", "t"];
    assert(str_views(plain@) =~= seq!["\""@, "\\"@, "/"@, "b"@, "f"@, "n"@, "r"@, "t"@]);
    let mut escape = symbols(plain.as_slice());
    push_expr(&mut escape, seq5("u", "<hex>", "<hex>", "<hex>", "<hex>"));
    add_rule(grammar, "escape", alt_of(escape));

    let hex = ["<digit>", "A", "B", "C", "D", "E", "F", "a", "b", "c", "d", "e", "f"];
    assert(str_views(hex@) =~= seq![
        "<digit>"@,
        "A"@,
        "B"@,
        "C"@,
        "D"@,
        "E"@,
        "F"@,
        "a"@,
        "b"@,
        "c"@,
        "d"@,
        "e"@,
        "f"@,
    ]);
    add_rule(grammar, "hex", alt_symbols(hex.as_slice()));
}

/// The grammar of JSON documents.
pub fn json_grammar() -> (g: Ebnf)
    ensures
        g.wf(),
        g@ == json_grammar_spec(),
{
    let mut grammar = Ebnf::new();

    add_json_structure(&mut grammar);
    add_json_escapes(&mut grammar);

    add_rule(&mut grammar, "number", seq3("<integer>", "<fraction>", "<exponent>"));

    let mut integer: Vec<Expr> = Vec::new();
    assert(expr_views(integer@) =~= Seq::<ExprView>::empty());
    push_symbol(&mut integer, "<digit>");
    push_expr(&mut integer, seq2("<onenine>", "<digits>"));
    push_expr(&mut integer, seq2("-", "<digit>"));
    push_expr(&mut integer, seq3("-", "<onenine>", "<digits>"));
    add_rule(&mut grammar, "integer", alt_of(integer));

    add_rule(&mut grammar, "digits", alt_one_or_two("<digit>", "<digit>", "<digits>"));

    let digit = ["0", "<onenine>"];
    assert(str_views(digit@) =~= seq!["0"@, "<onenine>"@]);
    add_rule(&mut grammar, "digit", alt_symbols(digit.as_slice()));

    let onenine = ["1", "2", "3", "4", "5", "6", "7", "8", "9"];
    assert(str_views(onenine@) =~= seq!["1"@, "2"@, "3"@, "4"@, "5"@, "6"@, "7"@, "8"@, "9"@]);
    add_rule(&mut grammar, "onenine", alt_symbols(onenine.as_slice()));

    add_rule(&mut grammar, "fraction", alt_one_or_two("", ".", "<digits>"));

    let mut exponent: Vec<Expr> = Vec::new();
    assert(expr_views(exponent@) =~= Seq::<ExprView>::empty());
    push_symbol(&mut exponent, "");
    push_expr(&mut exponent, seq3("E", "<sign>", "<digits>"));
    push_expr(&mut exponent, seq3("e", "<sign>", "<digits>"));
    add_rule(&mut grammar, "exponent", alt_of(exponent));

    let sign = ["", "+", "-"];
    assert(str_views(sign@) =~= seq![""@, "+"@, "-"@]);
    add_rule(&mut grammar, "sign", alt_symbols(sign.as_slice()));

    let ws = ["", " ", "\r", "\n", "\t"];
    assert(str_views(ws@) =~= seq![""@, " "@, "\r"@, "\n"@, "\t"@]);
    add_rule(&mut grammar, "ws", alt_symbols(ws.as_slice()));

    grammar
}

} // verus!
