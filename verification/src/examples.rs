//! Example grammars: arithmetic expressions, CGI-encoded strings, book
//! titles.

use vstd::prelude::*;
use vstd::string::*;
use crate::grammar::{
    singletons, str_views, with_expansions, with_production, Grammar, RuleView,
};

verus! {

/// Adds `name -> a`.
pub fn add1(g: &mut Grammar, name: &str, a: &str)
    requires
        old(g).wf(),
    ensures
        final(g).wf(),
        final(g)@ == with_production(old(g)@, name@, seq![a@]),
{
    let e = [a];
    assert(str_views(e@) =~= seq![a@]);
    g.add_production(name, e.as_slice());
}

/// Adds `name -> a b`.
pub fn add2(g: &mut Grammar, name: &str, a: &str, b: &str)
    requires
        old(g).wf(),
    ensures
        final(g).wf(),
        final(g)@ == with_production(old(g)@, name@, seq![a@, b@]),
{
    let e = [a, b];
    assert(str_views(e@) =~= seq![a@, b@]);
    g.add_production(name, e.as_slice());
}

/// Adds `name -> a b c`.
pub fn add3(g: &mut Grammar, name: &str, a: &str, b: &str, c: &str)
    requires
        old(g).wf(),
    ensures
        final(g).wf(),
        final(g)@ == with_production(old(g)@, name@, seq![a@, b@, c@]),
{
    let e = [a, b, c];
    assert(str_views(e@) =~= seq![a@, b@, c@]);
    g.add_production(name, e.as_slice());
}

/// Adds `name -> a b c d`.
pub fn add4(g: &mut Grammar, name: &str, a: &str, b: &str, c: &str, d: &str)
    requires
        old(g).wf(),
    ensures
        final(g).wf(),
        final(g)@ == with_production(old(g)@, name@, seq![a@, b@, c@, d@]),
{
    let e = [a, b, c, d];
    assert(str_views(e@) =~= seq![a@, b@, c@, d@]);
    g.add_production(name, e.as_slice());
}

/// The ten decimal digits as symbols.
pub open spec fn digit_symbols() -> Seq<Seq<char>> {
    seq!["0"@, "1"@, "2"@, "3"@, "4"@, "5"@, "6"@, "7"@, "8"@, "9"@]
}

/// Adds `name -> 0`, `name -> 1`, up to `name -> 9`.
pub fn add_digits(g: &mut Grammar, name: &str)
    requires
        old(g).wf(),
    ensures
        final(g).wf(),
        final(g)@ == with_expansions(old(g)@, name@, singletons(digit_symbols())),
{
    let e = ["0", "1", "2", "3", "4", "5", "6", "7", "8", "9"];
    assert(str_views(e@) =~= digit_symbols());
    g.add_productions(name, e.as_slice());
}

/// The grammar of arithmetic expressions, rule by rule.
pub open spec fn expr_grammar_spec() -> Seq<RuleView> {
    let g = Seq::<RuleView>::empty();
    let g = with_production(g, "<start>"@, seq!["<expr>"@]);
    let g = with_production(g, "<expr>"@, seq!["<term>"@, "+"@, "<expr>"@]);
    let g = with_production(g, "<expr>"@, seq!["<term>"@, "-"@, "<expr>"@]);
    let g = with_production(g, "<expr>"@, seq!["<term>"@]);
    let g = with_production(g, "<term>"@, seq!["<factor>"@, "*"@, "<term>"@]);
    let g = with_production(g, "<term>"@, seq!["<factor>"@, "/"@, "<term>"@]);
    let g = with_production(g, "<term>"@, seq!["<factor>"@]);
    let g = with_production(g, "<factor>"@, seq!["+"@, "<factor>"@]);
    let g = with_production(g, "<factor>"@, seq!["-"@, "<factor>"@]);
    let g = with_production(g, "<factor>"@, seq!["("@, "<expr>"@, ")"@]);
    let g = with_production(g, "<factor>"@, seq!["<integer>"@, "."@, "<integer>"@]);
    let g = with_production(g, "<factor>"@, seq!["<integer>"@]);
    let g = with_production(g, "<integer>"@, seq!["<digit>"@, "<integer>"@]);
    let g = with_production(g, "<integer>"@, seq!["<digit>"@]);
    with_expansions(g, "<digit>"@, singletons(digit_symbols()))
}

/// The grammar of arithmetic expressions over decimal numbers, with the
/// four operations, signs and brackets.
pub fn expr_grammar() -> (g: Grammar)
    ensures
        g.wf(),
        g@ == expr_grammar_spec(),
{
    let mut grammar = Grammar::new();

    add1(&mut grammar, "<start>", "<expr>");

    add3(&mut grammar, "<expr>", "<term>", "+", "<expr>");
    add3(&mut grammar, "<expr>", "<term>", "-", "<expr>");
    add1(&mut grammar, "<expr>", "<term>");

    add3(&mut grammar, "<term>", "<factor>", "*", "<term>");
    add3(&mut grammar, "<term>", "<factor>", "/", "<term>");
    add1(&mut grammar, "<term>", "<factor>");

    add2(&mut grammar, "<factor>", "+", "<factor>");
    add2(&mut grammar, "<factor>", "-", "<factor>");
    add3(&mut grammar, "<factor>", "(", "<expr>", ")");
    add3(&mut grammar, "<factor>", "<integer>", ".", "<integer>");
    add1(&mut grammar, "<factor>", "<integer>");

    add2(&mut grammar, "<integer>", "<digit>", "<integer>");
    add1(&mut grammar, "<integer>", "<digit>");

    add_digits(&mut grammar, "<digit>");

    grammar
}

/// The characters that a CGI-encoded string holds as they are.
pub open spec fn other_symbols() -> Seq<Seq<char>> {
    seq![
        "a"@,
        "b"@,
        "c"@,
        "d"@,
        "e"@,
        "f"@,
        "g"@,
        "h"@,
        "i"@,
        "j"@,
        "k"@,
        "l"@,
        "m"@,
        "n"@,
        "o"@,
        "p"@,
        "q"@,
        "r"@,
        "s"@,
        "t"@,
        "u"@,
        "v"@,
        "w"@,
        "x"@,
        "y"@,
        "z"@,
        "0"@,
        "1"@,
        "2"@,
        "3"@,
        "4"@,
        "5"@,
        "6"@,
        "7"@,
        "8"@,
        "9"@,
        "-"@,
        "_"@,
    ]
}

/// Adds one production per character that a CGI-encoded string holds as
/// it is: the lower-case letters, the digits, `-` and `_`.
pub fn add_others(g: &mut Grammar, name: &str)
    requires
        old(g).wf(),
    ensures
        final(g).wf(),
        final(g)@ == with_expansions(old(g)@, name@, singletons(other_symbols())),
{
    let e = [
        "a",
        "b",
        "c",
        "d",
        "e",
        "f",
        "g",
        "h",
        "i",
        "j",
        "k",
        "l",
        "m",
        "n",
        "o",
        "p",
        "q",
        "r",
        "s",
        "t",
        "u",
        "v",
        "w",
        "x",
        "y",
        "z",
        "0",
        "1",
        "2",
        "3",
        "4",
        "5",
        "6",
        "7",
        "8",
        "9",
        "-",
        "_",
    ];
    assert(str_views(e@) =~= other_symbols());
    g.add_productions(name, e.as_slice());
}

/// The grammar of CGI-encoded strings, rule by rule.
pub open spec fn cgi_grammar_spec() -> Seq<RuleView> {
    let g = Seq::<RuleView>::empty();
    let g = with_production(g, "<start>"@, seq!["<string>"@]);
    let g = with_production(g, "<string>"@, seq!["<letter>"@]);
    let g = with_production(g, "<string>"@, seq!["<letter>"@, "<string>"@]);
    let g = with_production(g, "<letter>"@, seq!["<plus>"@]);
    let g = with_production(g, "<letter>"@, seq!["<percent>"@]);
    let g = with_production(g, "<letter>"@, seq!["<other>"@]);
    let g = with_production(g, "<plus>"@, seq!["+"@]);
    let g = with_production(g, "<percent>"@, seq!["%"@, "<hexdigit>"@, "<hexdigit>"@]);
    let g = with_expansions(g, "<hexdigit>"@, singletons(digit_symbols()));
    with_expansions(g, "<other>"@, singletons(other_symbols()))
}

/// The grammar of CGI-encoded strings: letters, `+` for a blank, and `%`
/// with two digits for any other character.
pub fn cgi_grammar() -> (g: Grammar)
    ensures
        g.wf(),
        g@ == cgi_grammar_spec(),
{
    let mut grammar = Grammar::new();

    add1(&mut grammar, "<start>", "<string>");

    add1(&mut grammar, "<string>", "<letter>");
    add2(&mut grammar, "<string>", "<letter>", "<string>");

    add1(&mut grammar, "<letter>", "<plus>");
    add1(&mut grammar, "<letter>", "<percent>");
    add1(&mut grammar, "<letter>", "<other>");

    add1(&mut grammar, "<plus>", "+");

    add3(&mut grammar, "<percent>", "%", "<hexdigit>", "<hexdigit>");

    add_digits(&mut grammar, "<hexdigit>");

    add_others(&mut grammar, "<other>");

    grammar
}

/// The grammar of book titles, rule by rule.
pub open spec fn title_grammar_spec() -> Seq<RuleView> {
    let g = Seq::<RuleView>::empty();
    let g = with_production(g, "<start>"@, seq!["<title>"@]);
    let g = with_production(g, "<title>"@, seq!["<topic>"@, ": "@, "<subtopic>"@]);
    let g = with_production(g, "<topic>"@, seq!["Generating Software Tests"@]);
    let g = with_production(g, "<topic>"@, seq!["<fuzzing-prefix>"@, "Fuzzing"@]);
    let g = with_production(g, "<topic>"@, seq!["The Fuzzing Book"@]);
    let g = with_production(g, "<fuzzing-prefix>"@, seq![""@]);
    let g = with_production(g, "<fuzzing-prefix>"@, seq!["The Art of "@]);
    let g = with_production(g, "<fuzzing-prefix>"@, seq!["The Joy of "@]);
    let g = with_production(g, "<subtopic>"@, seq!["<subtopic-main>"@]);
    let g = with_production(g, "<subtopic>"@, seq!["<subtopic-prefix>"@, "<subtopic-main>"@]);
    let g = with_production(g, "<subtopic>"@, seq!["<subtopic-main>"@, "<subtopic-suffix>"@]);
    let g = with_production(g, "<subtopic-main>"@, seq!["Breaking Software"@]);
    let g = with_production(g, "<subtopic-main>"@, seq!["Generating Software Tests"@]);
    let g = with_production(g, "<subtopic-main>"@, seq!["Principles, Techniques and Tools"@]);
    let g = with_production(g, "<subtopic-prefix>"@, seq![""@]);
    let g = with_production(g, "<subtopic-prefix>"@, seq!["Tools and Techniques for "@]);
    let g = with_production(
        g,
        "<subtopic-suffix>"@,
        seq![" for "@, "<reader-property>"@, " and "@, "<reader-property>"@],
    );
    let g = with_production(
        g,
        "<subtopic-suffix>"@,
        seq![" for "@, "<software-property>"@, " and "@, "<software-property>"@],
    );
    let g = with_production(g, "<reader-property>"@, seq!["Fun"@]);
    let g = with_production(g, "<reader-property>"@, seq!["Profit"@]);
    let g = with_production(g, "<software-property>"@, seq!["Robustness"@]);
    let g = with_production(g, "<software-property>"@, seq!["Reliability"@]);
    with_production(g, "<software-property>"@, seq!["Security"@])
}

/// The grammar of book titles: a topic, a colon and a subtopic, put
/// together from stock phrases.
pub fn title_grammar() -> (g: Grammar)
    ensures
        g.wf(),
        g@ == title_grammar_spec(),
{
    let mut grammar = Grammar::new();

    add1(&mut grammar, "<start>", "<title>");

    add3(&mut grammar, "<title>", "<topic>", ": ", "<subtopic>");

    add1(&mut grammar, "<topic>", "Generating Software Tests");
    add2(&mut grammar, "<topic>", "<fuzzing-prefix>", "Fuzzing");
    add1(&mut grammar, "<topic>", "The Fuzzing Book");

    add1(&mut grammar, "<fuzzing-prefix>", "");
    add1(&mut grammar, "<fuzzing-prefix>", "The Art of ");
    add1(&mut grammar, "<fuzzing-prefix>", "The Joy of ");

    add1(&mut grammar, "<subtopic>", "<subtopic-main>");
    add2(&mut grammar, "<subtopic>", "<subtopic-prefix>", "<subtopic-main>");
    add2(&mut grammar, "<subtopic>", "<subtopic-main>", "<subtopic-suffix>");

    add1(&mut grammar, "<subtopic-main>", "Breaking Software");
    add1(&mut grammar, "<subtopic-main>", "Generating Software Tests");
    add1(&mut grammar, "<subtopic-main>", "Principles, Techniques and Tools");

    add1(&mut grammar, "<subtopic-prefix>", "");
    add1(&mut grammar, "<subtopic-prefix>", "Tools and Techniques for ");

    add4(&mut grammar, "<subtopic-suffix>", " for ", "<reader-property>", " and ", "<reader-property>");
    add4(
        &mut grammar,
        "<subtopic-suffix>",
        " for ",
        "<software-property>",
        " and ",
        "<software-property>",
    );

    add1(&mut grammar, "<reader-property>", "Fun");
    add1(&mut grammar, "<reader-property>", "Profit");

    add1(&mut grammar, "<software-property>", "Robustness");
    add1(&mut grammar, "<software-property>", "Reliability");
    add1(&mut grammar, "<software-property>", "Security");

    grammar
}

} // verus!
