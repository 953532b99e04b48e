use fuzzkit::examples::expr_grammar;
use fuzzkit::expand::{
    choose_expansion, expand_node, expand_node_max_cost, expand_node_min_cost,
    expand_node_randomly, expand_tree, expand_tree_once, fuzz, fuzz_tree_, ExpandStrategy,
    FuzzError, GrammarCost,
};
use fuzzkit::cost::SymbolCost;
use fuzzkit::grammar::Grammar;
use fuzzkit::rng::Rng;
use fuzzkit::tree::{tnt, ts, tt, Derivation};

fn sample() -> Derivation {
    tnt(
        "expr",
        &[tnt("term", &[ts("<factor>")]), tt("+"), ts("<expr>")],
    )
}

#[test]
fn leaves_read_from_left_to_right() {
    assert_eq!(sample().all_leafs(), " <factor> + <expr> ");
    let done = tnt("integer", &[tnt("digit", &[tt("4")]), tnt("integer", &[tnt("digit", &[tt("2")])])]);
    assert_eq!(done.all_leafs(), "42");
    assert_eq!(tt("x").all_leafs(), "x");
    assert_eq!(ts("<start>").all_leafs(), " <start> ");
}

#[test]
fn open_leaves_are_counted() {
    assert_eq!(sample().possible_expansions(), 2);
    assert!(sample().any_possible_expansions());
    assert_eq!(tt("x").possible_expansions(), 0);
    assert!(!tt("x").any_possible_expansions());
    assert_eq!(ts("<a>").possible_expansions(), 1);
    assert_eq!(sample().kth_open_name(0), "factor");
    assert_eq!(sample().kth_open_name(1), "expr");
}

#[test]
fn names_are_written_as_in_the_grammar() {
    assert_eq!(ts("<a>").get_name(), "<a>");
    assert_eq!(tt("a").get_name(), "a");
    assert_eq!(tnt("b", &[]).get_name(), "<b>");
}

#[test]
fn expand_kth_replaces_the_chosen_leaf() {
    let t = sample().expand_kth(1, vec![ts("<term>")]);
    assert_eq!(t.all_leafs(), " <factor> + <term> ");
    let t = sample().expand_kth(0, vec![tt("7")]);
    assert_eq!(t.all_leafs(), "7+ <expr> ");
    assert_eq!(t.possible_expansions(), 1);
    assert_eq!(t.clone().all_leafs(), t.all_leafs());
}

#[test]
fn node_expansion_by_cost_picks_first_least_and_last_greatest() {
    let g = expr_grammar();
    assert_eq!(expand_node_min_cost(&g, &ts("<factor>")).all_leafs(), " <integer> ");
    assert_eq!(expand_node(&g, &ts("<expr>")).all_leafs(), " <term> ");
    assert_eq!(expand_node_max_cost(&g, &ts("<expr>")).all_leafs(), " <term> - <expr> ");
    assert_eq!(expand_node_max_cost(&g, &ts("<factor>")).all_leafs(), "( <expr> )");
    let mut rng = Rng::seeded(1);
    let r = expand_node_randomly(&mut rng, &g, &ts("<expr>"));
    assert_eq!(r.all_leafs(), " <term> - <expr> ");
}

#[test]
fn strategies_choose_among_extreme_costs() {
    let costs = vec![SymbolCost::Finite(3), SymbolCost::Finite(1), SymbolCost::Finite(3), SymbolCost::Finite(1)];
    for seed in 0..50 {
        let mut rng = Rng::seeded(seed);
        let i = choose_expansion(&mut rng, &costs, ExpandStrategy::MinCost);
        assert!(i == 1 || i == 3);
        let i = choose_expansion(&mut rng, &costs, ExpandStrategy::MaxCost);
        assert!(i == 0 || i == 2);
        let i = choose_expansion(&mut rng, &costs, ExpandStrategy::Random);
        assert!(i < 4);
    }
}

#[test]
fn shrinking_closes_the_tree() {
    let costs = GrammarCost::new(expr_grammar());
    assert!(costs.is_generative());
    let mut rng = Rng::seeded(3);
    let mut tree = ts("<start>");
    for _ in 0..30 {
        if !tree.any_possible_expansions() {
            break;
        }
        tree = expand_tree_once(&mut rng, &costs, tree, ExpandStrategy::MinCost);
    }
    assert!(!tree.any_possible_expansions());
    assert_eq!(tree.all_leafs().len(), 1);
}

#[test]
fn growing_makes_the_tree_large() {
    let costs = GrammarCost::new(expr_grammar());
    let mut rng = Rng::seeded(3);
    let small = expand_tree(&mut rng, &costs, ts("<start>"), 0, 0);
    let large = expand_tree(&mut rng, &costs, ts("<start>"), 60, 60);
    assert!(!small.any_possible_expansions());
    assert!(!large.any_possible_expansions());
    assert_eq!(small.all_leafs().len(), 1);
    assert!(large.all_leafs().len() > 20);
}

#[test]
fn fuzz_yields_arithmetic_expressions() {
    let mut rng = Rng::seeded(42);
    for _ in 0..10 {
        let s = fuzz(&mut rng, expr_grammar()).unwrap();
        assert!(!s.is_empty());
        assert!(s.chars().all(|c| "0123456789+-*/().".contains(c)), "{}", s);
    }
}

#[test]
fn fuzz_rejects_grammars_that_cannot_be_completed() {
    let mut rng = Rng::seeded(1);
    let before = rng;
    let mut g = Grammar::new();
    g.add_production("<start>", &["a"]);
    g.add_production("<start>", &["<bad>"]);
    g.add_production("<bad>", &["<bad>"]);
    assert_eq!(fuzz(&mut rng, g), Err(FuzzError::UnusableExpansion));

    let mut g = Grammar::new();
    g.add_production("<start>", &["<missing>"]);
    assert_eq!(fuzz(&mut rng, g), Err(FuzzError::InfiniteCost));

    let mut g = Grammar::new();
    g.add_production("<start>", &[]);
    assert_eq!(fuzz_tree_(&mut rng, g, 1, 2).err(), Some(FuzzError::UnusableExpansion));

    let mut g = Grammar::new();
    g.add_production("<start>", &["<<a>>"]);
    g.add_production("<<a>>", &["x"]);
    assert_eq!(fuzz(&mut rng, g), Err(FuzzError::UnusableExpansion));
    assert_eq!(rng, before);
}

#[test]
fn dot_numbers_nodes_breadth_first() {
    let tree = tnt("a", &[tnt("b", &[tt("x")]), tt("y,")]);
    let expected = [
        "digraph DerivationTree {",
        "",
        "    node [shape=plain];",
        "",
        "    n1 [label=\"\\<a\\>\"];",
        "    n2 [label=\"\\<b\\>\"];",
        "    n1 -> n2;",
        "",
        "    n3 [label=\"\\\"y\\,\\\"\"];",
        "    n1 -> n3;",
        "",
        "    n4 [label=\"\\\"x\\\"\"];",
        "    n2 -> n4;",
        "",
        "}",
    ]
    .join("\n");
    assert_eq!(fuzzkit::tree::Tree(tree.clone()).to_dot(), expected);
    assert_eq!(tree.to_dot_in(true), expected);
}

#[test]
fn derivation_graph_shows_bare_terminals() {
    let tree = tnt("start", &[tnt("expr", &[tnt("expr", &[]), tt("+"), tnt("term", &[])])]);
    let expected = [
        "digraph Derivation {",
        "",
        "    node [shape=plain];",
        "",
        "    n1 [label=\"\\<start\\>\"];",
        "    n2 [label=\"\\<expr\\>\"];",
        "    n1 -> n2;",
        "",
        "    n3 [label=\"\\<expr\\>\"];",
        "    n2 -> n3;",
        "",
        "    n4 [label=\"+\"];",
        "    n2 -> n4;",
        "",
        "    n5 [label=\"\\<term\\>\"];",
        "    n2 -> n5;",
        "",
        "}",
    ]
    .join("\n");
    assert_eq!(tree.to_dot(), expected);
    assert_eq!(tree.to_dot_in(false), expected);
    assert_eq!(&tree.to_dot()[..20], "digraph Derivation {");
}

#[test]
fn tree_wraps_a_derivation() {
    let tree = fuzzkit::tree::Tree(tnt("a", &[tt("x"), tnt("b", &[])]));
    assert_eq!(tree.get_name(), "<a>");
    assert_eq!(fuzzkit::tree::Tree(tt("x")).get_name(), "\"x\"");
    assert_eq!(tt("x").get_name(), "x");
    assert_eq!(fuzzkit::tree::Tree::to_dot_label("a,b"), "a\\,b");
    assert_eq!(tree.all_leafs(), "x <b> ");
    let mut leaves = vec![String::from("-")];
    tree.all_leafs_(&mut leaves);
    assert_eq!(leaves, vec!["-", "x", " <b> "]);
    assert_eq!(tree.get_expandable_nonterminals(), vec!["b"]);
    assert_eq!(tree.clone().0.all_leafs(), tree.all_leafs());
}

#[test]
fn dot_labels_escape_and_mask() {
    assert_eq!(Derivation::to_dot_label("<a b>"), "\\<a_b\\>");
    assert_eq!(Derivation::to_dot_label("x\\\"~é"), "x\\\\\\\"__");
    assert_eq!(Derivation::to_dot_label(""), "");
    assert_eq!(tt("a").display_name(true), "\"a\"");
    assert_eq!(tt("a").display_name(false), "a");
    assert_eq!(ts("<a>").display_name(true), "<a>");
    assert_eq!(ts("<a>").display_name(false), "<a>");
}

#[test]
fn open_leaves_are_listed_from_left_to_right() {
    assert_eq!(sample().get_expandable_nonterminals(), vec!["factor", "expr"]);
    assert!(tt("x").get_expandable_nonterminals().is_empty());
}

#[test]
fn node_expansion_by_strategy_uses_precomputed_costs() {
    let costs = GrammarCost::new(expr_grammar());
    for seed in 0..20 {
        let mut rng = Rng::seeded(seed);
        let least = fuzzkit::expand::expand_node_by_strategy(
            &mut rng,
            &costs,
            &ts("<factor>"),
            ExpandStrategy::MinCost,
        );
        assert_eq!(least.all_leafs(), " <integer> ");
        let most = fuzzkit::expand::expand_node_by_strategy(
            &mut rng,
            &costs,
            &ts("<expr>"),
            ExpandStrategy::MaxCost,
        );
        let text = most.all_leafs();
        assert!(text == " <term> + <expr> " || text == " <term> - <expr> ", "{}", text);
    }
}

#[test]
fn fuzz_tree_is_reproducible() {
    let mut a = Rng::seeded(77);
    let mut b = Rng::seeded(77);
    let first = fuzzkit::expand::fuzz_tree(&mut a, expr_grammar()).unwrap();
    let second = fuzzkit::expand::fuzz_tree(&mut b, expr_grammar()).unwrap();
    assert_eq!(first.all_leafs(), second.all_leafs());
    assert_eq!(first.to_dot(), second.to_dot());
    assert_eq!(a, b);
}

#[test]
fn rules_that_cannot_be_reached_do_not_hinder_generation() {
    let mut g = Grammar::new();
    g.add_production("<start>", &["a", "<b>"]);
    g.add_production("<b>", &["b"]);
    g.add_production("<dead>", &["<dead>"]);
    g.add_production("<void>", &[]);
    g.add_production("<lost>", &["<nowhere>"]);
    assert!(!g.is_valid());
    let costs = GrammarCost::new(g);
    assert!(costs.is_generative());
    assert!(costs.rule_is_usable(0) && costs.rule_is_usable(1));
    assert!(!costs.rule_is_usable(2) && !costs.rule_is_usable(3) && !costs.rule_is_usable(4));
    let mut rng = Rng::seeded(4);
    assert_eq!(fuzz(&mut rng, costs.grammar), Ok(String::from("ab")));

    let mut g = Grammar::new();
    g.add_production("<start>", &["a"]);
    g.add_production("<start>", &["<missing>"]);
    assert!(!GrammarCost::new(g).is_generative());
}

#[test]
fn one_step_needs_only_an_expansion_for_the_open_leaves() {
    let mut g = Grammar::new();
    g.add_production("<start>", &["a"]);
    g.add_production("<start>", &["<bad>", "<bad>"]);
    g.add_production("<bad>", &["<bad>"]);
    let costs = GrammarCost::new(g);
    assert!(!costs.is_generative());
    let mut seen_a = false;
    let mut seen_bad = false;
    for seed in 0..40 {
        let mut rng = Rng::seeded(seed);
        let before = rng;
        let mut twin = before;
        let tree = expand_tree_once(&mut rng, &costs, ts("<start>"), ExpandStrategy::Random);
        twin.next();
        twin.next();
        assert_eq!(rng, twin);
        match tree.all_leafs().as_str() {
            "a" => seen_a = true,
            " <bad>  <bad> " => {
                seen_bad = true;
                let mut rng = before;
                let next = expand_tree_once(&mut rng, &costs, tree, ExpandStrategy::MinCost);
                assert_eq!(next.possible_expansions(), 2);
                assert_eq!(next.all_leafs(), " <bad>  <bad> ");
            }
            other => panic!("unexpected leaves {:?}", other),
        }
    }
    assert!(seen_a && seen_bad);
    let mut rng = Rng::seeded(1);
    let least = expand_tree_once(&mut rng, &costs, ts("<start>"), ExpandStrategy::MinCost);
    assert_eq!(least.all_leafs(), "a");
    let most = expand_tree_once(&mut rng, &costs, ts("<start>"), ExpandStrategy::MaxCost);
    assert_eq!(most.all_leafs(), " <bad>  <bad> ");
}
