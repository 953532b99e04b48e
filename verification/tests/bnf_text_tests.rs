use fuzzkit::bnf_text::{parse, parse_alternatives, parse_production, parse_words, ParseError};
use fuzzkit::grammar::{Grammar, Rule};

fn strings(v: &[&str]) -> Vec<String> {
    v.iter().map(|x| x.to_string()).collect()
}

#[test]
fn text_yields_the_expression_grammar() {
    let text = b"<start>   := <expr>\n<expr>    := <term> \"+\" <expr> | <term> \"-\" <expr> | <term>\r\n<term>    := <factor>\n<factor>  := \"(\" <expr> \")\" | <digit>\n<digit>   := 0 | 1";
    let g = parse(text).unwrap();
    assert_eq!(g.nonterminals(), strings(&["<start>", "<expr>", "<term>", "<factor>", "<digit>"]));
    assert_eq!(
        g.to_string(),
        "<start>  -> <expr>\n<expr>   -> <term> \"+\" <expr>  |  <term> \"-\" <expr>  |  <term>\n<term>   -> <factor>\n<factor> -> \"(\" <expr> \")\"  |  <digit>\n<digit>  -> \"0\"  |  \"1\"\n"
    );
    assert!(g.is_valid());
}

#[test]
fn later_production_replaces_earlier_one() {
    let g = parse(b"<a> := x\n<b> := y\n<a> := z | w\n").unwrap();
    let mut expected = Grammar::new();
    expected.add_productions("<a>", &["z", "w"]);
    expected.add_productions("<b>", &["y"]);
    assert!(g.same_rules(&expected));
    assert_eq!(g.nonterminals(), strings(&["<a>", "<b>"]));
}

#[test]
fn lines_without_one_definition_are_errors() {
    assert_eq!(parse(b"<a> := x\nno definition\n").err(), Some(ParseError::MissingDefinition(1)));
    assert_eq!(parse(b"<a> := x := y\n").err(), Some(ParseError::MissingDefinition(0)));
    assert_eq!(parse(b"<a> := x\n\n<b> := y\n").err(), Some(ParseError::MissingDefinition(1)));
    assert_eq!(parse(b":").err(), Some(ParseError::MissingDefinition(0)));
    assert!(parse(b"").unwrap().nonterminals().is_empty());
}

#[test]
fn bytes_that_are_no_text_are_errors() {
    assert_eq!(parse(b"<a> := x\n<b> := \xff\n").err(), Some(ParseError::NotUtf8(1)));
    assert_eq!(parse(b"\xff := x\n").err(), Some(ParseError::NotUtf8(0)));
}

#[test]
fn symbols_lose_their_quotes() {
    let s = b"  \"a\"  b\"\"  \"\" \"\"\"c ";
    assert_eq!(parse_words(s, 0, s.len()), Some(strings(&["a", "b", "", "c"])));
    assert_eq!(parse_words(s, 0, 0), Some(Vec::new()));
    assert_eq!(parse_words(b"   ", 0, 3), Some(Vec::new()));
}

#[test]
fn alternatives_are_split_at_bars() {
    let s = b"a b| c ||";
    assert_eq!(
        parse_alternatives(s, 0, s.len()),
        Some(vec![strings(&["a", "b"]), strings(&["c"]), Vec::new(), Vec::new()])
    );
    assert_eq!(parse_alternatives(s, 0, 0), Some(vec![Vec::new()]));
}

#[test]
fn production_has_a_name_and_alternatives() {
    let s = b"  <a>  := x y | z";
    match parse_production(s, 0, s.len(), 7) {
        Ok(Rule { name, expansions }) => {
            assert_eq!(name, "<a>");
            assert_eq!(expansions, vec![strings(&["x", "y"]), strings(&["z"])]);
        }
        Err(e) => panic!("{:?}", e),
    }
    assert_eq!(parse_production(b"x", 0, 1, 7).err(), Some(ParseError::MissingDefinition(7)));
    assert_eq!(parse_production(b":=", 0, 2, 7).map(|r| (r.name, r.expansions)), Ok((String::new(), vec![Vec::new()])));
}

#[test]
fn set_rule_replaces_or_appends() {
    let mut g = Grammar::new();
    g.set_rule(Rule { name: String::from("<a>"), expansions: vec![strings(&["x"])] });
    g.set_rule(Rule { name: String::from("<b>"), expansions: vec![] });
    g.set_rule(Rule { name: String::from("<a>"), expansions: vec![strings(&["y"]), strings(&["z"])] });
    assert_eq!(g.to_string(), "<a> -> \"y\"  |  \"z\"\n<b> -> \n");
}
