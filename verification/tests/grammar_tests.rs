use fuzzkit::cost::{expansion_cost, symbol_cost, symbol_cost_, SymbolCost};
use fuzzkit::ebnf::{alt, nt, opt, plus, s, star, t, Ebnf, Expr};
use fuzzkit::ebnf_examples::{expr_grammar_ebnf, json_grammar};
use fuzzkit::examples::{cgi_grammar, expr_grammar, title_grammar};
use fuzzkit::grammar::Grammar;
use fuzzkit::validity::GrammarError;

fn digit_grammar() -> Grammar {
    let mut g = Grammar::new();
    g.add_production("<start>", &["<integer>"]);
    g.add_production("<integer>", &["<digit>", "<integer>"]);
    g.add_production("<integer>", &["<digit>"]);
    g.add_productions("<digit>", &["0", "1", "2", "3", "4", "5", "6", "7", "8", "9"]);
    g
}

#[test]
fn example_grammars_are_valid() {
    assert!(expr_grammar().is_valid());
    assert!(cgi_grammar().is_valid());
    assert!(title_grammar().is_valid());
    assert!(digit_grammar().is_valid());
}

#[test]
fn example_grammars_have_their_rules() {
    assert_eq!(expr_grammar().len(), 6);
    assert_eq!(cgi_grammar().len(), 7);
    assert_eq!(title_grammar().len(), 10);
    assert_eq!(
        expr_grammar().nonterminals(),
        vec!["<start>", "<expr>", "<term>", "<factor>", "<integer>", "<digit>"]
    );
}

#[test]
fn json_grammar_is_valid_in_both_forms() {
    let ebnf = json_grammar();
    assert!(ebnf.is_valid());
    let bnf = ebnf.to_bnf().unwrap();
    assert!(bnf.is_valid());
    assert_eq!(bnf.len(), 23);
}

#[test]
fn flat_ebnf_prints_like_its_bnf() {
    let ebnf = json_grammar();
    let bnf = ebnf.to_bnf().unwrap();
    assert_eq!(ebnf.to_string(), bnf.to_string());
}

#[test]
fn grammar_prints_one_rule_per_line() {
    let mut g = Grammar::new();
    g.add_production("<start>", &["<digit>", "x"]);
    g.add_productions("<digit>", &["0", "1"]);
    assert_eq!(g.to_string(), "<start> -> <digit> \"x\"\n<digit> -> \"0\"  |  \"1\"\n");
}

#[test]
fn empty_grammar_prints_nothing() {
    assert_eq!(Grammar::new().to_string(), "");
    assert_eq!(Ebnf::new().to_string(), "");
}

#[test]
fn expr_prints_with_operators() {
    let e = alt(&[fuzzkit::ebnf::seq(&[opt(s("<sign>")), s("<factor>")]), plus(t("a")), star(nt("b"))]);
    assert_eq!(e.to_string(), "(<sign>)? <factor>  |  (\"a\")+  |  (<b>)*");
}

#[test]
fn dead_rule_makes_grammar_invalid() {
    let mut g = expr_grammar();
    assert!(g.is_valid());
    g.add_production("<unused>", &["x"]);
    assert!(!g.is_valid());
    let t = g.trim().unwrap();
    assert!(t.same_rules(&expr_grammar()));
    assert!(!t.same_rules(&g));
}

#[test]
fn undefined_nonterminal_is_an_error() {
    let mut g = Grammar::new();
    g.add_production("<start>", &["<missing>"]);
    assert!(!g.is_valid());
    match g.trim() {
        Err(e) => {
            assert_eq!(e, GrammarError::UndefinedNonterminal(String::from("<missing>")));
            assert_eq!(
                e.message(),
                "Nonterminal <missing> is referenced/used in the RHS but not defined in the LHS of any production rule"
            );
        }
        Ok(_) => panic!("trim must fail"),
    }
}

#[test]
fn grammar_without_start_is_invalid() {
    let mut g = Grammar::new();
    g.add_production("<digit>", &["0"]);
    assert!(!g.is_valid());
    assert!(g.trim().is_err());
}

#[test]
fn ebnf_with_dead_rule_is_invalid() {
    let mut g = Ebnf::new();
    g.add_production("start", s("<a>"));
    g.add_production("a", t("x"));
    assert!(g.is_valid());
    g.add_production("dead", t("y"));
    assert!(!g.is_valid());
    let trimmed = g.trim().unwrap();
    assert_eq!(trimmed.to_string(), "<start> -> <a>\n<a>     -> \"x\"\n");
}

#[test]
fn ebnf_with_missing_rule_is_invalid() {
    let mut g = Ebnf::new();
    g.add_production("start", s("<a>"));
    assert!(!g.is_valid());
    assert!(g.trim().is_err());
}

#[test]
fn optional_becomes_fresh_symbol_with_epsilon() {
    let mut g = Ebnf::new();
    g.add_production("start", opt(t("a")));
    let bnf = g.to_bnf().unwrap();
    assert_eq!(
        bnf.to_string(),
        "<symbol0> -> \"a\"  |  \"\"\n<start>   -> <symbol0>\n"
    );
}

#[test]
fn plus_becomes_right_recursion() {
    let mut g = Ebnf::new();
    g.add_production("start", plus(t("a")));
    let bnf = g.to_bnf().unwrap();
    assert_eq!(
        bnf.to_string(),
        "<symbol0> -> \"a\"  |  \"a\" <symbol0>\n<start>   -> <symbol0>\n"
    );
}

#[test]
fn star_becomes_right_recursion_with_epsilon() {
    let mut g = Ebnf::new();
    g.add_production("start", star(t("a")));
    let bnf = g.to_bnf().unwrap();
    assert_eq!(
        bnf.to_string(),
        "<symbol0> -> \"a\" <symbol0>  |  \"\"\n<start>   -> <symbol0>\n"
    );
}

#[test]
fn nested_operators_get_distinct_symbols() {
    let mut g = Ebnf::new();
    g.add_production("start", opt(opt(t("a"))));
    let bnf = g.to_bnf().unwrap();
    assert_eq!(
        bnf.to_string(),
        "<symbol1> -> \"a\"  |  \"\"\n<symbol0> -> <symbol1>  |  \"\"\n<start>   -> <symbol0>\n"
    );
}

#[test]
fn sequence_inlines_single_symbols_only() {
    let mut g = Ebnf::new();
    g.add_production("start", fuzzkit::ebnf::seq(&[t("a"), alt(&[t("b"), t("c")]), fuzzkit::ebnf::seq(&[t("d")])]));
    let bnf = g.to_bnf().unwrap();
    assert_eq!(
        bnf.to_string(),
        "<symbol0> -> \"b\"  |  \"c\"\n<start>   -> \"a\" <symbol0> \"d\"\n"
    );
}

#[test]
fn fresh_symbols_skip_names_in_use() {
    let mut g = Ebnf::new();
    g.add_production("symbol0", t("x"));
    g.add_production("start", fuzzkit::ebnf::seq(&[nt("symbol0"), opt(t("a"))]));
    let bnf = g.to_bnf().unwrap();
    assert_eq!(
        bnf.to_string(),
        "<symbol0> -> \"x\"\n<symbol1> -> \"a\"  |  \"\"\n<start>   -> <symbol0> <symbol1>\n"
    );
}

#[test]
fn expr_grammar_ebnf_lowers_to_a_valid_grammar() {
    let ebnf = expr_grammar_ebnf();
    assert!(ebnf.is_valid());
    let bnf = ebnf.to_bnf().unwrap();
    assert!(bnf.is_valid());
}

#[test]
fn costs_of_expression_grammar_are_finite() {
    let g = expr_grammar();
    for name in g.nonterminals() {
        match symbol_cost(&g, &name) {
            SymbolCost::Finite(_) => {}
            SymbolCost::Infinite => panic!("{} must have a finite cost", name),
        }
    }
    assert_eq!(symbol_cost(&g, "<digit>"), SymbolCost::Finite(1));
    assert_eq!(symbol_cost(&g, "<integer>"), SymbolCost::Finite(2));
    assert_eq!(symbol_cost(&g, "<factor>"), SymbolCost::Finite(3));
    assert_eq!(symbol_cost(&g, "<term>"), SymbolCost::Finite(4));
    assert_eq!(symbol_cost(&g, "<expr>"), SymbolCost::Finite(5));
    assert_eq!(symbol_cost(&g, "<start>"), SymbolCost::Finite(6));
}

#[test]
fn self_loop_has_infinite_cost() {
    let mut g = Grammar::new();
    g.add_production("<start>", &["<loop>"]);
    g.add_production("<loop>", &["<loop>"]);
    assert_eq!(symbol_cost(&g, "<loop>"), SymbolCost::Infinite);
    assert_eq!(symbol_cost(&g, "<start>"), SymbolCost::Infinite);
}

#[test]
fn seen_nonterminal_makes_expansion_infinite() {
    let g = expr_grammar();
    let seen = vec![String::from("<expr>")];
    let e = vec![String::from("<term>"), String::from("+"), String::from("<expr>")];
    assert_eq!(expansion_cost(&g, &e, &seen), SymbolCost::Infinite);
    assert_eq!(expansion_cost(&g, &e, &Vec::new()), SymbolCost::Finite(10));
    assert_eq!(symbol_cost_(&g, "<digit>", &seen), SymbolCost::Finite(1));
    assert_eq!(symbol_cost(&g, "<nowhere>"), SymbolCost::Infinite);
}

#[test]
fn costs_add_with_infinite_absorbing() {
    assert_eq!(SymbolCost::Finite(2).add(SymbolCost::Finite(3)), SymbolCost::Finite(5));
    assert_eq!(SymbolCost::Finite(2).add(SymbolCost::Infinite), SymbolCost::Infinite);
    assert_eq!(SymbolCost::Infinite.add(SymbolCost::Finite(3)), SymbolCost::Infinite);
    assert_eq!(SymbolCost::Finite(usize::MAX).add(SymbolCost::Finite(1)), SymbolCost::Infinite);
    assert!(SymbolCost::Finite(7).le(&SymbolCost::Infinite));
    assert!(!SymbolCost::Infinite.le(&SymbolCost::Finite(7)));
    assert_eq!(SymbolCost::Finite(7).min(SymbolCost::Finite(4)), SymbolCost::Finite(4));
    assert_eq!(SymbolCost::Finite(7).max(SymbolCost::Infinite), SymbolCost::Infinite);
}

#[test]
fn s_tells_nonterminals_by_their_brackets() {
    assert!(matches!(s("<expr>"), Expr::NT(name) if name == "expr"));
    assert!(matches!(s("expr"), Expr::T(name) if name == "expr"));
    assert!(matches!(s("<"), Expr::T(name) if name == "<"));
    assert!(matches!(s(""), Expr::T(name) if name.is_empty()));
    assert!(Grammar::is_nonterminal("<a>"));
    assert!(!Grammar::is_nonterminal("a>"));
    assert_eq!(Grammar::trim_angle_brackets("<<a>>"), "a");
}

#[test]
fn fresh_symbols_run_out_at_the_limit() {
    let bnf = Grammar::new();
    let mut i = usize::MAX;
    assert_eq!(Ebnf::new_nonterminal(&bnf, &mut i), None);
    let mut i = 7;
    assert_eq!(Ebnf::new_nonterminal(&bnf, &mut i), Some(String::from("<symbol7>")));
    assert_eq!(i, 7);

    let mut bnf = Grammar::new();
    let mut i = usize::MAX;
    assert_eq!(
        Ebnf::to_bnf_expr(&mut bnf, &opt(t("a")), &mut i),
        Err(fuzzkit::ebnf::ToBnfError::SymbolsExhausted)
    );
    let mut i = usize::MAX;
    assert_eq!(
        Ebnf::to_bnf_expr(&mut bnf, &alt(&[t("a"), nt("b")]), &mut i),
        Ok(vec![vec![String::from("a")], vec![String::from("<b>")]])
    );
}

#[test]
fn terminals_of_numbers_are_their_numerals() {
    let terminals = Ebnf::to_terminals(&[0, 7, 10, 18446744073709551615]);
    let texts: Vec<String> = terminals.iter().map(|e| e.to_string()).collect();
    assert_eq!(texts, vec!["\"0\"", "\"7\"", "\"10\"", "\"18446744073709551615\""]);
    assert_eq!(fuzzkit::ebnf::symbol(120), "<symbol120>");
}

#[test]
fn productions_keep_their_order() {
    let mut g = Grammar::new();
    g.add_production("<a>", &["x", "<b>"]);
    g.add_production_(String::from("<b>"), vec![String::from("y")]);
    g.add_production("<a>", &[]);
    g.add_productions("<b>", &["z", "w"]);
    g.add_productions("<c>", &[]);
    assert_eq!(g.to_string(), "<a> -> \"x\" <b>  |  \n<b> -> \"y\"  |  \"z\"  |  \"w\"\n<c> -> \n");
    assert_eq!(g.find("<b>"), Some(1));
    assert_eq!(g.find("<d>"), None);
    assert!(g.contains_key("<c>"));
    assert_eq!(g.get("<a>").map(|e| e.len()), Some(2));
    assert!(g.get("<d>").is_none());
}

#[test]
fn nested_choices_and_single_elements_print_like_their_bnf() {
    let mut g = Ebnf::new();
    g.add_production(
        "start",
        alt(&[
            alt(&[t("a"), nt("b")]),
            fuzzkit::ebnf::seq(&[fuzzkit::ebnf::seq(&[t("c")]), alt(&[nt("b")]), t("")]),
            fuzzkit::ebnf::seq(&[]),
        ]),
    );
    g.add_production("b", alt(&[fuzzkit::ebnf::seq(&[t("x"), t("y")])]));
    let bnf = g.to_bnf().unwrap();
    assert_eq!(bnf.len(), 2);
    assert_eq!(g.to_string(), bnf.to_string());
    assert_eq!(
        bnf.to_string(),
        "<start> -> \"a\"  |  <b>  |  \"c\" <b> \"\"  |  \n<b>     -> \"x\" \"y\"\n"
    );
}

#[test]
fn a_sequence_within_a_sequence_takes_a_fresh_symbol() {
    let mut g = Ebnf::new();
    g.add_production(
        "start",
        fuzzkit::ebnf::seq(&[fuzzkit::ebnf::seq(&[t("a"), t("b")]), t("c")]),
    );
    let bnf = g.to_bnf().unwrap();
    assert_eq!(g.to_string(), "<start> -> \"a\" \"b\" \"c\"\n");
    assert_eq!(bnf.to_string(), "<symbol0> -> \"a\" \"b\"\n<start>   -> <symbol0> \"c\"\n");
}

#[test]
fn counter_stays_at_the_name_that_got_its_rule() {
    let mut bnf = Grammar::new();
    let mut i = 0;
    let e = fuzzkit::ebnf::seq(&[fuzzkit::ebnf::seq(&[t("a"), t("b")]), t("c")]);
    let r = Ebnf::to_bnf_expr(&mut bnf, &e, &mut i).unwrap();
    assert_eq!(r, vec![vec![String::from("<symbol0>"), String::from("c")]]);
    assert_eq!(bnf.nonterminals(), vec!["<symbol0>"]);
    assert_eq!(
        bnf.get("<symbol0>").unwrap(),
        &vec![vec![String::from("a"), String::from("b")]]
    );
    assert_eq!(i, 0);

    let r = Ebnf::to_bnf_expr(&mut bnf, &e, &mut i).unwrap();
    assert_eq!(r, vec![vec![String::from("<symbol1>"), String::from("c")]]);
    assert_eq!(i, 1);
}

#[test]
fn counter_moves_on_while_an_operator_waits_for_its_rule() {
    let mut bnf = Grammar::new();
    let mut i = 0;
    let r = Ebnf::to_bnf_expr(&mut bnf, &opt(t("a")), &mut i).unwrap();
    assert_eq!(r, vec![vec![String::from("<symbol0>")]]);
    assert_eq!(i, 1);

    let mut bnf = Grammar::new();
    let mut i = 0;
    let r = Ebnf::to_bnf_expr(&mut bnf, &star(plus(t("a"))), &mut i).unwrap();
    assert_eq!(r, vec![vec![String::from("<symbol0>")]]);
    assert_eq!(bnf.nonterminals(), vec!["<symbol1>", "<symbol0>"]);
    assert_eq!(i, 2);

    let mut bnf = Grammar::new();
    let mut i = 0;
    let e = fuzzkit::ebnf::seq(&[alt(&[t("a"), t("b")]), alt(&[t("c"), t("d")])]);
    let r = Ebnf::to_bnf_expr(&mut bnf, &e, &mut i).unwrap();
    assert_eq!(r, vec![vec![String::from("<symbol0>"), String::from("<symbol1>")]]);
    assert_eq!(bnf.nonterminals(), vec!["<symbol0>", "<symbol1>"]);
    assert_eq!(i, 1);
}
