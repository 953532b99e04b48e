//! Reading a BNF grammar from text.
//!
//! The text holds one production per line: a nonterminal, `:=`, and the
//! alternatives with `|` between them. An alternative is a list of symbols
//! with white space between them; double quotes around a symbol are
//! dropped. A later production for a nonterminal replaces an earlier one.

use vstd::prelude::*;
use vstd::string::*;
use vstd::utf8::{decode_utf8, encode_utf8_decode_utf8, valid_utf8};
use crate::gcov::{
    find_byte, first_index, is_space, lemma_first_index, lemma_line_index, line_end, strip_cr,
    trim_bounds, trimmed,
};
use crate::grammar::{
    defines, distinct_names, index_of, lemma_index_of, Expansion, Grammar, Rule, RuleView,
};
use crate::text::string_from_utf8;

verus! {

/// The first position from `from` on where `s` holds white space (`space`)
/// or something else (`!space`); the length of `s` where there is none.
pub open spec fn first_of(s: Seq<u8>, from: int, space: bool) -> int
    decreases s.len() - from,
{
    if from < 0 || from >= s.len() {
        s.len() as int
    } else if is_space(s[from]) == space {
        from
    } else {
        first_of(s, from + 1, space)
    }
}

/// `s` without leading double quotes.
pub open spec fn strip_quotes_start(s: Seq<u8>) -> Seq<u8>
    decreases s.len(),
{
    if s.len() > 0 && s[0] == 34 {
        strip_quotes_start(s.subrange(1, s.len() as int))
    } else {
        s
    }
}

/// `s` without trailing double quotes.
pub open spec fn strip_quotes_end(s: Seq<u8>) -> Seq<u8>
    decreases s.len(),
{
    if s.len() > 0 && s[s.len() - 1] == 34 {
        strip_quotes_end(s.subrange(0, s.len() - 1))
    } else {
        s
    }
}

/// `s` without leading and trailing double quotes.
pub open spec fn unquoted(s: Seq<u8>) -> Seq<u8> {
    strip_quotes_end(strip_quotes_start(s))
}

/// The symbols of `s` from the position `from` on: the runs of bytes
/// that are no white space, each without the double quotes around it.
pub open spec fn words_from(s: Seq<u8>, from: int) -> Seq<Seq<u8>>
    decreases s.len() + 1 - from,
{
    if from < 0 || from >= s.len() {
        Seq::empty()
    } else {
        let a = first_of(s, from, false);
        if a >= s.len() {
            Seq::empty()
        } else {
            let b = first_of(s, a, true);
            let next = if from < b && b <= s.len() {
                b
            } else {
                from + 1
            };
            seq![unquoted(s.subrange(a, b))] + words_from(s, next)
        }
    }
}

/// The alternatives of `s` from the position `from` on: the symbols of
/// each piece between two `|`.
pub open spec fn alternatives_from(s: Seq<u8>, from: int) -> Seq<Seq<Seq<u8>>>
    decreases s.len() + 1 - from,
{
    if from < 0 || from > s.len() {
        Seq::empty()
    } else {
        let e = first_index(s, from, 124);
        if e >= s.len() {
            seq![words_from(s.subrange(from, s.len() as int), 0)]
        } else {
            let next = if from <= e {
                e + 1
            } else {
                from + 1
            };
            seq![words_from(s.subrange(from, e), 0)] + alternatives_from(s, next)
        }
    }
}

/// The first position from `from` on where `:=` stands in `s`; the length
/// of `s` where it stands nowhere.
pub open spec fn find_define(s: Seq<u8>, from: int) -> int
    decreases s.len() - from,
{
    if from < 0 || from + 1 >= s.len() {
        s.len() as int
    } else if s[from] == 58 && s[from + 1] == 61 {
        from
    } else {
        find_define(s, from + 1)
    }
}

/// One production as bytes: the nonterminal and its alternatives.
pub struct ProductionView {
    pub name: Seq<u8>,
    pub expansions: Seq<Seq<Seq<u8>>>,
}

/// The production that a line states, where the line holds `:=` exactly
/// once: the nonterminal is what stands before it, without the white space
/// around; the alternatives are what follows.
pub open spec fn production_of(line: Seq<u8>) -> Option<ProductionView> {
    let p = find_define(line, 0);
    if p >= line.len() {
        None
    } else if find_define(line, p + 2) < line.len() {
        None
    } else {
        Some(
            ProductionView {
                name: trimmed(line.subrange(0, p)),
                expansions: alternatives_from(line.subrange(p + 2, line.len() as int), 0),
            },
        )
    }
}

/// Every symbol of the list is well-formed UTF-8.
pub open spec fn valid_words(ws: Seq<Seq<u8>>) -> bool {
    forall|i: int| 0 <= i < ws.len() ==> valid_utf8(#[trigger] ws[i])
}

/// The symbols of the list as text.
pub open spec fn decoded_words(ws: Seq<Seq<u8>>) -> Seq<Seq<char>> {
    Seq::new(ws.len(), |i: int| decode_utf8(ws[i]))
}

/// Every symbol of every alternative is well-formed UTF-8.
pub open spec fn valid_alternatives(alts: Seq<Seq<Seq<u8>>>) -> bool {
    forall|i: int| 0 <= i < alts.len() ==> valid_words(#[trigger] alts[i])
}

/// The alternatives as text.
pub open spec fn decoded_alternatives(alts: Seq<Seq<Seq<u8>>>) -> Seq<Seq<Seq<char>>> {
    Seq::new(alts.len(), |i: int| decoded_words(alts[i]))
}

/// The nonterminal and every symbol of the production are well-formed
/// UTF-8.
pub open spec fn valid_production(p: ProductionView) -> bool {
    valid_utf8(p.name) && valid_alternatives(p.expansions)
}

/// The production as a rule of a grammar.
pub open spec fn decoded(p: ProductionView) -> RuleView {
    RuleView { name: decode_utf8(p.name), expansions: decoded_alternatives(p.expansions) }
}

/// `g` with the rule `r` in the place of the rule of the same nonterminal,
/// or as a new last rule.
pub open spec fn with_rule_set(g: Seq<RuleView>, r: RuleView) -> Seq<RuleView> {
    if defines(g, r.name) {
        g.update(index_of(g, r.name), r)
    } else {
        g.push(r)
    }
}

/// Why a text is no grammar.
#[derive(Clone, Copy, Debug, PartialEq, Eq, Structural)]
pub enum ParseError {
    /// The line with this number, from 0, does not hold `:=` exactly once.
    MissingDefinition(usize),
    /// A symbol of the line with this number, from 0, is no UTF-8 text.
    NotUtf8(usize),
}

/// The grammar that the lines of `text` from the position `from` on state,
/// added to `acc`; or the first error met. `line` is the number of the line
/// at `from`.
pub open spec fn grammar_from(text: Seq<u8>, from: int, line: nat, acc: Seq<RuleView>) -> Result<
    Seq<RuleView>,
    ParseError,
>
    decreases text.len() + 1 - from,
{
    if from < 0 || from >= text.len() {
        Ok(acc)
    } else {
        let end = line_end(text, from);
        let next = if from <= end && end <= text.len() {
            end + 1
        } else {
            from + 1
        };
        match production_of(strip_cr(text.subrange(from, end))) {
            None => Err(ParseError::MissingDefinition(line as usize)),
            Some(p) => if !valid_production(p) {
                Err(ParseError::NotUtf8(line as usize))
            } else {
                grammar_from(text, next, line + 1, with_rule_set(acc, decoded(p)))
            },
        }
    }
}

/// The grammar that a text states.
pub open spec fn grammar_of(text: Seq<u8>) -> Result<Seq<RuleView>, ParseError> {
    grammar_from(text, 0, 0, Seq::empty())
}

/// Reads the bytes `s[from..to]` as text.
pub fn text_of(s: &[u8], from: usize, to: usize) -> (r: Option<String>)
    requires
        from <= to <= s@.len(),
    ensures
        r.is_some() == valid_utf8(s@.subrange(from as int, to as int)),
        r matches Some(t) ==> t@ == decode_utf8(s@.subrange(from as int, to as int)),
{
    let mut bytes: Vec<u8> = Vec::new();
    let mut i = from;
    while i < to
        invariant
            from <= i <= to <= s@.len(),
            bytes@ == s@.subrange(from as int, i as int),
        decreases to - i,
    {
        bytes.push(s[i]);
        assert(bytes@ =~= s@.subrange(from as int, i as int + 1));
        i += 1;
    }
    let r = string_from_utf8(bytes);
    proof {
        if r is Some {
            encode_utf8_decode_utf8(r->0@);
        }
    }
    r
}

/// Finds the first position in `[from, to)` where `s` holds white space
/// (`space`) or something else; `to` where there is none.
pub fn find_kind(s: &[u8], from: usize, to: usize, space: bool) -> (r: usize)
    requires
        from <= to <= s@.len(),
    ensures
        from <= r <= to,
        r < to ==> is_space(s@[r as int]) == space,
        r == first_of(s@.subrange(0, to as int), from as int, space),
{
    let ghost prefix = s@.subrange(0, to as int);
    let mut i = from;
    while i < to && (s[i] == 32 || (9 <= s[i] && s[i] <= 13)) != space
        invariant
            from <= i <= to <= s@.len(),
            prefix == s@.subrange(0, to as int),
            first_of(prefix, from as int, space) == first_of(prefix, i as int, space),
        decreases to - i,
    {
        assert(prefix[i as int] == s@[i as int]);
        i += 1;
    }
    proof {
        if i < to {
            assert(prefix[i as int] == s@[i as int]);
        }
    }
    i
}

/// Finds the bounds of `s[from..to]` without the double quotes at its
/// start and at its end.
pub fn unquote_bounds(s: &[u8], from: usize, to: usize) -> (r: (usize, usize))
    requires
        from <= to <= s@.len(),
    ensures
        from <= r.0 <= r.1 <= to,
        s@.subrange(r.0 as int, r.1 as int) == unquoted(s@.subrange(from as int, to as int)),
{
    let mut a = from;
    while a < to && s[a] == 34
        invariant
            from <= a <= to <= s@.len(),
            strip_quotes_start(s@.subrange(from as int, to as int)) == strip_quotes_start(
                s@.subrange(a as int, to as int),
            ),
        decreases to - a,
    {
        proof {
            let cur = s@.subrange(a as int, to as int);
            assert(cur[0] == s@[a as int]);
            assert(cur.subrange(1, cur.len() as int) =~= s@.subrange(a as int + 1, to as int));
        }
        a += 1;
    }
    let ghost mid = s@.subrange(a as int, to as int);
    proof {
        if a < to {
            assert(mid[0] == s@[a as int]);
        }
        assert(strip_quotes_start(s@.subrange(from as int, to as int)) == mid);
    }
    let mut b = to;
    while b > a && s[b - 1] == 34
        invariant
            a <= b <= to <= s@.len(),
            mid == s@.subrange(a as int, to as int),
            strip_quotes_end(mid) == strip_quotes_end(s@.subrange(a as int, b as int)),
        decreases b - a,
    {
        proof {
            let cur = s@.subrange(a as int, b as int);
            assert(cur[cur.len() - 1] == s@[b - 1]);
            assert(cur.subrange(0, cur.len() - 1) =~= s@.subrange(a as int, b - 1));
        }
        b -= 1;
    }
    proof {
        let cur = s@.subrange(a as int, b as int);
        if b > a {
            assert(cur[cur.len() - 1] == s@[b - 1]);
        }
        assert(strip_quotes_end(mid) == cur);
    }
    (a, b)
}

/// Positions of white space within a piece and within the text it is
/// taken from correspond.
pub proof fn lemma_piece_kind(s: Seq<u8>, from: int, stop: int, start: int, space: bool)
    requires
        0 <= from <= start <= stop <= s.len(),
    ensures
        first_of(s.subrange(from, stop), start - from, space) == first_of(
            s.subrange(0, stop),
            start,
            space,
        ) - from,
    decreases stop - start,
{
    let piece = s.subrange(from, stop);
    let prefix = s.subrange(0, stop);
    if start < stop {
        assert(piece[start - from] == prefix[start]);
        if is_space(piece[start - from]) != space {
            lemma_piece_kind(s, from, stop, start + 1, space);
        }
    }
}

/// Reads the symbols of the piece `s[from..to]`. Returns `None` where one
/// of them is no UTF-8 text.
pub fn parse_words(s: &[u8], from: usize, to: usize) -> (r: Option<Expansion>)
    requires
        from <= to <= s@.len(),
    ensures
        r.is_some() == valid_words(words_from(s@.subrange(from as int, to as int), 0)),
        r matches Some(e) ==> e.deep_view() == decoded_words(
            words_from(s@.subrange(from as int, to as int), 0),
        ),
{
    let ghost piece = s@.subrange(from as int, to as int);
    let ghost all = words_from(piece, 0);
    let mut out: Vec<String> = Vec::new();
    let ghost mut done: Seq<Seq<u8>> = Seq::empty();
    let mut pos = from;
    assert(done + words_from(piece, 0) =~= all);
    while pos < to
        invariant
            from <= pos <= to <= s@.len(),
            piece == s@.subrange(from as int, to as int),
            all == words_from(piece, 0),
            all == done + words_from(piece, pos - from),
            valid_words(done),
            out.deep_view() == decoded_words(done),
        decreases to - pos,
    {
        let a = find_kind(s, pos, to, false);
        proof {
            lemma_piece_kind(s@, from as int, to as int, pos as int, false);
        }
        if a >= to {
            proof {
                assert(words_from(piece, pos - from) =~= Seq::<Seq<u8>>::empty());
                assert(all =~= done);
            }
            return Some(out);
        }
        let b = find_kind(s, a, to, true);
        proof {
            lemma_piece_kind(s@, from as int, to as int, a as int, true);
        }
        let (qa, qb) = unquote_bounds(s, a, b);
        let ghost word = unquoted(piece.subrange(a - from, b - from));
        proof {
            assert(piece.subrange(a - from, b - from) =~= s@.subrange(a as int, b as int));
            assert(words_from(piece, pos - from) == seq![word] + words_from(piece, b - from));
        }
        match text_of(s, qa, qb) {
            None => {
                proof {
                    assert(all[done.len() as int] == word);
                }
                return None;
            },
            Some(t) => {
                let ghost before = out.deep_view();
                let ghost tv = t@;
                out.push(t);
                proof {
                    let grown = done.push(word);
                    assert(grown + words_from(piece, b - from) =~= all);
                    assert(word == s@.subrange(qa as int, qb as int));
                    assert(tv == decode_utf8(word));
                    assert(out.deep_view() =~= before.push(tv));
                    assert(out.deep_view() =~= decoded_words(grown));
                    assert forall|i: int| 0 <= i < grown.len() implies valid_utf8(
                        #[trigger] grown[i],
                    ) by {
                        if i < done.len() {
                            assert(grown[i] == done[i]);
                        }
                    }
                    done = grown;
                }
            },
        }
        pos = b;
    }
    proof {
        assert(words_from(piece, pos - from) =~= Seq::<Seq<u8>>::empty());
        assert(all =~= done);
    }
    Some(out)
}

/// Reads the alternatives of the body `s[from..to]`. Returns `None` where
/// a symbol is no UTF-8 text.
pub fn parse_alternatives(s: &[u8], from: usize, to: usize) -> (r: Option<Vec<Expansion>>)
    requires
        from <= to <= s@.len(),
    ensures
        r.is_some() == valid_alternatives(
            alternatives_from(s@.subrange(from as int, to as int), 0),
        ),
        r matches Some(es) ==> es.deep_view() == decoded_alternatives(
            alternatives_from(s@.subrange(from as int, to as int), 0),
        ),
{
    let ghost body = s@.subrange(from as int, to as int);
    let ghost all = alternatives_from(body, 0);
    let mut out: Vec<Expansion> = Vec::new();
    let ghost mut done: Seq<Seq<Seq<u8>>> = Seq::empty();
    let mut pos = from;
    assert(done + alternatives_from(body, 0) =~= all);
    loop
        invariant
            from <= pos <= to <= s@.len(),
            body == s@.subrange(from as int, to as int),
            all == alternatives_from(body, 0),
            all == done + alternatives_from(body, pos - from),
            valid_alternatives(done),
            out.deep_view() == decoded_alternatives(done),
        decreases to - pos,
    {
        let e = find_byte(s, pos, to, 124);
        proof {
            lemma_line_index(s@, from as int, to as int, pos as int, 124);
            assert(body.subrange(pos - from, e - from) =~= s@.subrange(pos as int, e as int));
        }
        let ghost words = words_from(s@.subrange(pos as int, e as int), 0);
        let expansion = parse_words(s, pos, e);
        proof {
            if e >= to {
                assert(alternatives_from(body, pos - from) =~= seq![words]);
            } else {
                assert(alternatives_from(body, pos - from) == seq![words] + alternatives_from(
                    body,
                    e + 1 - from,
                ));
            }
            assert(all[done.len() as int] == words);
        }
        match expansion {
            None => {
                return None;
            },
            Some(symbols) => {
                let ghost before = out.deep_view();
                let ghost sv = symbols.deep_view();
                out.push(symbols);
                proof {
                    let grown = done.push(words);
                    assert(sv == decoded_words(words));
                    assert(out.deep_view() =~= before.push(sv));
                    assert(out.deep_view() =~= decoded_alternatives(grown));
                    assert forall|i: int| 0 <= i < grown.len() implies valid_words(
                        #[trigger] grown[i],
                    ) by {
                        if i < done.len() {
                            assert(grown[i] == done[i]);
                        }
                    }
                    if e >= to {
                        assert(grown =~= all);
                    } else {
                        assert(grown + alternatives_from(body, e + 1 - from) =~= all);
                    }
                    done = grown;
                }
            },
        }
        if e >= to {
            return Some(out);
        }
        pos = e + 1;
    }
}

/// Finds the first position in `[from, to)` where `:=` stands in
/// `s[..to]`; `to` where it stands nowhere.
pub fn find_definition(s: &[u8], from: usize, to: usize) -> (r: usize)
    requires
        from <= to <= s@.len(),
    ensures
        from <= r <= to,
        r == find_define(s@.subrange(0, to as int), from as int),
        r < to ==> r + 1 < to,
{
    let ghost prefix = s@.subrange(0, to as int);
    let mut i = from;
    while i < to
        invariant
            from <= i <= to <= s@.len(),
            prefix == s@.subrange(0, to as int),
            find_define(prefix, from as int) == find_define(prefix, i as int),
        decreases to - i,
    {
        if i + 1 >= to {
            return to;
        }
        assert(prefix[i as int] == s@[i as int]);
        assert(prefix[i as int + 1] == s@[i as int + 1]);
        if s[i] == 58 && s[i + 1] == 61 {
            return i;
        }
        i += 1;
    }
    to
}

/// Positions of `:=` within a line and within the text it is taken from
/// correspond.
pub proof fn lemma_line_define(s: Seq<u8>, from: int, stop: int, start: int)
    requires
        0 <= from <= start <= stop <= s.len(),
    ensures
        find_define(s.subrange(from, stop), start - from) == find_define(
            s.subrange(0, stop),
            start,
        ) - from,
    decreases stop - start,
{
    let line = s.subrange(from, stop);
    let prefix = s.subrange(0, stop);
    if start + 1 < stop {
        assert(line[start - from] == prefix[start]);
        assert(line[start - from + 1] == prefix[start + 1]);
        if !(line[start - from] == 58 && line[start - from + 1] == 61) {
            lemma_line_define(s, from, stop, start + 1);
        }
    }
}

/// Reads the production that the line `s[from..to]` states.
pub fn parse_production(s: &[u8], from: usize, to: usize, line: usize) -> (r: Result<
    Rule,
    ParseError,
>)
    requires
        from <= to <= s@.len(),
    ensures
        match production_of(s@.subrange(from as int, to as int)) {
            None => r == Err::<Rule, ParseError>(ParseError::MissingDefinition(line)),
            Some(p) => if valid_production(p) {
                r matches Ok(rule) && rule@ == decoded(p)
            } else {
                r == Err::<Rule, ParseError>(ParseError::NotUtf8(line))
            },
        },
{
    let ghost text = s@.subrange(from as int, to as int);
    let p = find_definition(s, from, to);
    proof {
        lemma_line_define(s@, from as int, to as int, from as int);
    }
    if p >= to {
        return Err(ParseError::MissingDefinition(line));
    }
    let again = find_definition(s, p + 2, to);
    proof {
        lemma_line_define(s@, from as int, to as int, p as int + 2);
    }
    if again < to {
        return Err(ParseError::MissingDefinition(line));
    }
    let (a, b) = trim_bounds(s, from, p);
    proof {
        assert(text.subrange(0, p - from) =~= s@.subrange(from as int, p as int));
        assert(text.subrange(p + 2 - from, text.len() as int) =~= s@.subrange(
            p as int + 2,
            to as int,
        ));
    }
    match text_of(s, a, b) {
        None => Err(ParseError::NotUtf8(line)),
        Some(name) => match parse_alternatives(s, p + 2, to) {
            None => Err(ParseError::NotUtf8(line)),
            Some(expansions) => Ok(Rule { name: name, expansions: expansions }),
        },
    }
}

impl Grammar {
    /// Puts a rule into the grammar: in the place of the rule of the same
    /// nonterminal, or as a new last rule.
    pub fn set_rule(&mut self, rule: Rule)
        requires
            old(self).wf(),
        ensures
            final(self).wf(),
            final(self)@ == with_rule_set(old(self)@, rule@),
    {
        let ghost g = self@;
        let ghost r = rule@;
        match self.find(rule.name.as_str()) {
            Some(i) => {
                self.rules.set(i, rule);
                assert(self@ =~= with_rule_set(g, r));
                proof {
                    lemma_index_of(g, i as int);
                    assert forall|a: int, b: int| 0 <= a < b < self@.len() implies #[trigger] self@[a].name
                        != #[trigger] self@[b].name by {
                        assert(self@[a].name == g[a].name);
                        assert(self@[b].name == g[b].name);
                        assert(g[a].name != g[b].name);
                    }
                }
            },
            None => {
                self.rules.push(rule);
                assert(self@ =~= with_rule_set(g, r));
                proof {
                    assert forall|a: int, b: int| 0 <= a < b < self@.len() implies #[trigger] self@[a].name
                        != #[trigger] self@[b].name by {
                        if b < g.len() {
                            assert(g[a].name != g[b].name);
                        } else {
                            assert(self@[a] == g[a]);
                        }
                    }
                }
            },
        }
    }
}

/// Reads a grammar from text, one production per line. Returns the first
/// error met: a line without exactly one `:=`, or a symbol that is no UTF-8
/// text.
pub fn parse(text: &[u8]) -> (r: Result<Grammar, ParseError>)
    ensures
        match grammar_of(text@) {
            Ok(g) => r matches Ok(grammar) && grammar@ == g && grammar.wf(),
            Err(e) => r == Err::<Grammar, ParseError>(e),
        },
{
    let n = text.len();
    let mut grammar = Grammar::new();
    let mut from: usize = 0;
    let mut line: usize = 0;
    while from < n
        invariant
            n == text@.len(),
            from <= n,
            line <= from,
            grammar.wf(),
            grammar_of(text@) == grammar_from(text@, from as int, line as nat, grammar@),
        decreases n - from,
    {
        assert(text@.subrange(0, n as int) =~= text@);
        let end = find_byte(text, from, n, 10);
        proof {
            lemma_first_index(text@, from as int, 10);
        }
        let stop = if end > from && text[end - 1] == 13 {
            end - 1
        } else {
            end
        };
        proof {
            let raw = text@.subrange(from as int, end as int);
            if end > from {
                assert(raw.last() == text@[end - 1]);
            }
            assert(strip_cr(raw) =~= text@.subrange(from as int, stop as int));
            assert(line_end(text@, from as int) == end);
        }
        let ghost acc = grammar@;
        let ghost start = from as int;
        match parse_production(text, from, stop, line) {
            Err(e) => {
                assert(grammar_from(text@, start, line as nat, acc) == Err::<
                    Seq<RuleView>,
                    ParseError,
                >(e));
                return Err(e);
            },
            Ok(rule) => {
                grammar.set_rule(rule);
                assert(grammar_from(text@, start, line as nat, acc) == grammar_from(
                    text@,
                    end as int + 1,
                    line as nat + 1,
                    grammar@,
                ));
            },
        }
        if end < n {
            from = end + 1;
            line = line + 1;
        } else {
            assert(grammar_from(text@, n as int + 1, line as nat + 1, grammar@) == Ok::<
                Seq<RuleView>,
                ParseError,
            >(grammar@));
            assert(grammar_from(text@, n as int, line as nat, grammar@) == Ok::<
                Seq<RuleView>,
                ParseError,
            >(grammar@));
            from = n;
        }
    }
    Ok(grammar)
}

} // verus!
