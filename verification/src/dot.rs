//! Derivation trees as graphs in the dot language.
//!
//! The nodes are numbered from 1 in the order of a breadth-first walk; each
//! node is written with its label, and each node but the root with the edge
//! from its parent. The result can be rendered with graphviz.
//!
//! There are two forms. A `Derivation` writes a graph called `Derivation`
//! with its terminals as they are; a `Tree` writes a graph called
//! `DerivationTree` with its terminals between double quotes.

use vstd::prelude::*;
use vstd::string::*;
use crate::text::{
    bracketed, bracketed_spec, decimal_spec, join, join_spec, push_char, push_decimal, quoted,
    quoted_spec,
};
use crate::tree::{Derivation, DerivationView, Tree};

verus! {

/// One character of a label: characters outside the visible ASCII range
/// up to `}` become `_`; comma, angle brackets, backslash and double quote
/// get a backslash in front.
pub open spec fn label_char(c: char) -> Seq<char> {
    if !(0x21 <= c as u32 && c as u32 <= 0x7d) {
        seq!['_']
    } else if c == ',' || c == '<' || c == '>' || c == '\\' || c == '"' {
        seq!['\\', c]
    } else {
        seq![c]
    }
}

/// A symbol name as the label of a node.
pub open spec fn dot_label(s: Seq<char>) -> Seq<char>
    decreases s.len(),
{
    if s.len() == 0 {
        Seq::empty()
    } else {
        dot_label(s.drop_last()) + label_char(s.last())
    }
}

/// The name that a node shows: a nonterminal between angle brackets; a
/// terminal as it is or, with `quotes`, between double quotes.
pub open spec fn display_name(t: DerivationView, quotes: bool) -> Seq<char> {
    match t {
        DerivationView::NT(name, _) => bracketed_spec(name),
        DerivationView::T(name) => if quotes {
            quoted_spec(name)
        } else {
            name
        },
    }
}

/// The line that declares the node number `n`.
pub open spec fn node_line(t: DerivationView, n: nat, quotes: bool) -> Seq<char> {
    "    n"@ + decimal_spec(n) + " [label=\""@ + dot_label(display_name(t, quotes)) + "\"];"@
}

/// The line of the edge from the node number `parent` to the node number
/// `n`.
pub open spec fn edge_line(parent: nat, n: nat) -> Seq<char> {
    "    n"@ + decimal_spec(parent) + " -> n"@ + decimal_spec(n) + ";"@
}

/// The lines of one node: its declaration and, for a node with a parent,
/// the edge from the parent and an empty line.
pub open spec fn node_lines(t: DerivationView, parent: Option<nat>, n: nat, quotes: bool) -> Seq<Seq<char>> {
    match parent {
        None => seq![node_line(t, n, quotes)],
        Some(p) => seq![node_line(t, n, quotes), edge_line(p, n), Seq::empty()],
    }
}

/// Number of nodes of a tree.
pub open spec fn size(t: DerivationView) -> nat
    decreases t, 0nat,
{
    match t {
        DerivationView::NT(_, children) => 1 + seq_size(children, children.len()),
        DerivationView::T(_) => 1,
    }
}

/// Number of nodes of the first `k` trees of a list.
pub open spec fn seq_size(ts: Seq<DerivationView>, k: nat) -> nat
    decreases ts, k,
{
    if k == 0 || k > ts.len() {
        0
    } else {
        seq_size(ts, (k - 1) as nat) + size(ts[k - 1])
    }
}

/// Number of nodes of the trees that wait in a queue.
pub open spec fn queue_size(q: Seq<(DerivationView, Option<nat>)>) -> nat
    decreases q.len(),
{
    if q.len() == 0 {
        0
    } else {
        queue_size(q.drop_last()) + size(q.last().0)
    }
}

/// The children of a node as entries of the queue, each with the number
/// of the node as its parent.
pub open spec fn children_entries(t: DerivationView, n: nat) -> Seq<(DerivationView, Option<nat>)> {
    match t {
        DerivationView::NT(_, children) => Seq::new(children.len(), |i: int| (children[i], Some(n))),
        DerivationView::T(_) => Seq::empty(),
    }
}

/// The size of two queues put together is the sum of their sizes.
pub proof fn lemma_queue_size_add(
    a: Seq<(DerivationView, Option<nat>)>,
    b: Seq<(DerivationView, Option<nat>)>,
)
    ensures
        queue_size(a + b) == queue_size(a) + queue_size(b),
    decreases b.len(),
{
    if b.len() == 0 {
        assert(a + b =~= a);
    } else {
        lemma_queue_size_add(a, b.drop_last());
        assert((a + b).drop_last() =~= a + b.drop_last());
        assert((a + b).last() == b.last());
    }
}

/// The first `k` children of a node weigh as much in the queue as in the
/// tree.
pub proof fn lemma_children_size(children: Seq<DerivationView>, n: nat, k: nat)
    requires
        k <= children.len(),
    ensures
        queue_size(Seq::new(k, |i: int| (children[i], Some(n)))) == seq_size(children, k),
    decreases k,
{
    let q = Seq::new(k, |i: int| (children[i], Some(n)));
    if k > 0 {
        lemma_children_size(children, n, (k - 1) as nat);
        assert(q.drop_last() =~= Seq::new((k - 1) as nat, |i: int| (children[i], Some(n))));
    }
}

/// Taking the first tree from a queue and putting its children at the end
/// leaves one node fewer in the queue.
pub proof fn lemma_queue_step(q: Seq<(DerivationView, Option<nat>)>, n: nat)
    requires
        q.len() > 0,
    ensures
        queue_size(q.subrange(1, q.len() as int) + children_entries(q[0].0, n)) + 1 == queue_size(q),
{
    let rest = q.subrange(1, q.len() as int);
    let first = seq![q[0]];
    assert(first + rest =~= q);
    lemma_queue_size_add(first, rest);
    lemma_queue_size_add(rest, children_entries(q[0].0, n));
    assert(first.drop_last() =~= Seq::<(DerivationView, Option<nat>)>::empty());
    assert(first.last() == q[0]);
    assert(queue_size(first.drop_last()) == 0);
    assert(queue_size(first) == size(q[0].0));
    match q[0].0 {
        DerivationView::NT(_, children) => {
            lemma_children_size(children, n, children.len());
        },
        DerivationView::T(_) => {},
    }
}

/// The lines of the nodes that a breadth-first walk still has to write:
/// those of the first tree of the queue, which gets the number after
/// `count`, then those of the rest of the queue with the children of that
/// tree at its end.
pub open spec fn dot_body(q: Seq<(DerivationView, Option<nat>)>, count: nat, quotes: bool) -> Seq<Seq<char>>
    decreases queue_size(q),
{
    if q.len() == 0 {
        Seq::empty()
    } else {
        let n = count + 1;
        let rest = q.subrange(1, q.len() as int) + children_entries(q[0].0, n);
        proof {
            lemma_queue_step(q, n);
        }
        node_lines(q[0].0, q[0].1, n, quotes) + dot_body(rest, n, quotes)
    }
}

/// The first lines of a graph: the graph is called `Derivation` or, with
/// `quotes`, `DerivationTree`.
pub open spec fn dot_header(quotes: bool) -> Seq<Seq<char>> {
    seq![
        if quotes {
            "digraph DerivationTree {"@
        } else {
            "digraph Derivation {"@
        },
        Seq::empty(),
        "    node [shape=plain];"@,
        Seq::empty(),
    ]
}

/// The lines of the graph of a tree, in one of the two forms: with bare
/// terminals or, with `quotes`, with terminals between double quotes.
pub open spec fn dot_lines(t: DerivationView, quotes: bool) -> Seq<Seq<char>> {
    dot_header(quotes) + dot_body(seq![(t, None)], 0, quotes) + seq!["}"@]
}

/// The graph of a tree in the dot language.
pub open spec fn dot_text(t: DerivationView, quotes: bool) -> Seq<char> {
    join_spec(dot_lines(t, quotes), "\n"@)
}

/// The entries of the queue of a walk, with the trees by their models.
pub open spec fn queue_view(q: Seq<(&Derivation, Option<usize>)>) -> Seq<(DerivationView, Option<nat>)> {
    Seq::new(
        q.len(),
        |i: int|
            (
                q[i].0@,
                match q[i].1 {
                    Some(p) => Some(p as nat),
                    None => None,
                },
            ),
    )
}

impl Derivation {
    /// Escapes a symbol name for use as the label of a node.
    pub fn to_dot_label(s: &str) -> (r: String)
        ensures
            r@ == dot_label(s@),
    {
        let n = s.unicode_len();
        let mut r = String::new();
        let mut i: usize = 0;
        assert(s@.subrange(0, 0) =~= Seq::<char>::empty());
        while i < n
            invariant
                i <= n == s@.len(),
                r@ == dot_label(s@.subrange(0, i as int)),
            decreases n - i,
        {
            let c = s.get_char(i);
            let ghost before = s@.subrange(0, i as int);
            let ghost after = s@.subrange(0, i as int + 1);
            assert(after.drop_last() =~= before);
            assert(after.last() == c);
            let code = c as u32;
            if !(0x21 <= code && code <= 0x7d) {
                push_char(&mut r, '_');
                assert(r@ =~= dot_label(before) + label_char(c));
            } else if c == ',' || c == '<' || c == '>' || c == '\\' || c == '"' {
                push_char(&mut r, '\\');
                push_char(&mut r, c);
                assert(r@ =~= dot_label(before) + label_char(c));
            } else {
                push_char(&mut r, c);
                assert(r@ =~= dot_label(before) + label_char(c));
            }
            i += 1;
        }
        assert(s@.subrange(0, i as int) =~= s@);
        r
    }

    /// The name that the node shows in a graph: a nonterminal between
    /// angle brackets; a terminal as it is or, with `quotes`, between double
    /// quotes.
    pub fn display_name(&self, quotes: bool) -> (r: String)
        ensures
            r@ == display_name(self@, quotes),
    {
        match self {
            Derivation::NT(name, _) => bracketed(name.as_str()),
            Derivation::T(name) => if quotes {
                quoted(name.as_str())
            } else {
                name.clone()
            },
        }
    }

    /// Returns the graph of the tree in the dot language, called
    /// `Derivation`, with the terminals as they are. It can be rendered
    /// with `dot -Tpdf tree.dot -o tree.pdf`.
    pub fn to_dot(&self) -> (r: String)
        ensures
            r@ == dot_text(self@, false),
    {
        self.to_dot_in(false)
    }

    /// Returns the graph of the tree in the dot language, in one of the two
    /// forms: called `Derivation`, with bare terminals; or, with `quotes`,
    /// called `DerivationTree`, with the terminals between double quotes.
    pub fn to_dot_in(&self, quotes: bool) -> (r: String)
        ensures
            r@ == dot_text(self@, quotes),
    {
        let mut lines: Vec<String> = Vec::new();
        if quotes {
            lines.push(String::from_str("digraph DerivationTree {"));
        } else {
            lines.push(String::from_str("digraph Derivation {"));
        }
        lines.push(String::new());
        lines.push(String::from_str("    node [shape=plain];"));
        lines.push(String::new());
        assert(lines.deep_view() =~= dot_header(quotes));

        let mut queue: Vec<(&Derivation, Option<usize>)> = Vec::new();
        queue.push((self, None));
        let mut head: usize = 0;
        let ghost total = dot_body(seq![(self@, None)], 0, quotes);
        assert(queue_view(queue@) =~= seq![(self@, None::<nat>)]);
        assert(queue_view(queue@).subrange(0, 1) =~= queue_view(queue@));

        while head < queue.len()
            invariant
                head <= queue.len(),
                dot_header(quotes) + total == lines.deep_view() + dot_body(
                    queue_view(queue@).subrange(head as int, queue@.len() as int),
                    head as nat,
                    quotes,
                ),
            decreases queue_size(queue_view(queue@).subrange(head as int, queue@.len() as int)),
        {
            let ghost remaining = queue_view(queue@).subrange(head as int, queue@.len() as int);
            let ghost written = lines.deep_view();
            let (cur, parent) = queue[head];
            let node_count = head + 1;
            proof {
                assert(remaining[0] == queue_view(queue@)[head as int]);
                lemma_queue_step(remaining, node_count as nat);
            }

            let mut declaration = String::from_str("    n");
            push_decimal(&mut declaration, node_count as u64);
            declaration.append(" [label=\"");
            declaration.append(
                Derivation::to_dot_label(cur.display_name(quotes).as_str()).as_str(),
            );
            declaration.append("\"];");
            assert(declaration@ =~= node_line(cur@, node_count as nat, quotes));
            lines.push(declaration);

            match parent {
                Some(p) => {
                    let mut edge = String::from_str("    n");
                    push_decimal(&mut edge, p as u64);
                    edge.append(" -> n");
                    push_decimal(&mut edge, node_count as u64);
                    edge.append(";");
                    assert(edge@ =~= edge_line(p as nat, node_count as nat));
                    lines.push(edge);
                    lines.push(String::new());
                    assert(lines.deep_view() =~= written + node_lines(
                        cur@,
                        Some(p as nat),
                        node_count as nat,
                        quotes,
                    ));
                },
                None => {
                    assert(lines.deep_view() =~= written + node_lines(
                        cur@,
                        None,
                        node_count as nat,
                        quotes,
                    ));
                },
            }

            let ghost queue0 = queue@;
            match cur {
                Derivation::NT(_, children) => {
                    let ghost cs = cur@->NT_1;
                    let mut k: usize = 0;
                    while k < children.len()
                        invariant
                            k <= children.len(),
                            cur is NT,
                            cur->NT_1 == *children,
                            cs == cur@->NT_1,
                            cs.len() == children.len(),
                            forall|j: int| 0 <= j < children.len() ==> cs[j] == children[j]@,
                            head < queue0.len(),
                            node_count == head + 1,
                            queue@.len() == queue0.len() + k,
                            forall|j: int| 0 <= j < queue0.len() ==> queue@[j] == queue0[j],
                            forall|j: int|
                                0 <= j < k ==> (#[trigger] queue@[queue0.len() + j]).0@ == cs[j]
                                    && queue@[queue0.len() + j].1 == Some(node_count),
                        decreases children.len() - k,
                    {
                        queue.push((&children[k], Some(node_count)));
                        k += 1;
                    }
                    proof {
                        let next = queue_view(queue@).subrange(head as int + 1, queue@.len() as int);
                        let old_rest = remaining.subrange(1, remaining.len() as int);
                        let added = children_entries(cur@, node_count as nat);
                        assert(added.len() == cs.len());
                        assert(next.len() == old_rest.len() + added.len());
                        assert forall|j: int| 0 <= j < next.len() implies next[j] == (old_rest
                            + added)[j] by {
                            if j < old_rest.len() {
                                assert(queue@[head + 1 + j] == queue0[head + 1 + j]);
                                assert(old_rest[j] == queue_view(queue0)[head + 1 + j]);
                            } else {
                                let a = j - old_rest.len();
                                assert(queue@[queue0.len() + a].0@ == cs[a]);
                                assert(added[a] == (cs[a], Some(node_count as nat)));
                            }
                        }
                        assert(next =~= old_rest + added);
                    }
                },
                Derivation::T(_) => {
                    assert(queue_view(queue@).subrange(head as int + 1, queue@.len() as int)
                        =~= remaining.subrange(1, remaining.len() as int) + children_entries(
                        cur@,
                        node_count as nat,
                    ));
                },
            }
            proof {
                let next = queue_view(queue@).subrange(head as int + 1, queue@.len() as int);
                assert(dot_body(remaining, head as nat, quotes) == node_lines(
                    remaining[0].0,
                    remaining[0].1,
                    node_count as nat,
                    quotes,
                ) + dot_body(next, node_count as nat, quotes));
                assert(dot_header(quotes) + total =~= lines.deep_view() + dot_body(
                    next,
                    node_count as nat,
                    quotes,
                ));
            }
            head = head + 1;
        }
        proof {
            assert(queue_view(queue@).subrange(head as int, queue@.len() as int).len() == 0);
            assert(dot_header(quotes) + total =~= lines.deep_view());
        }
        lines.push(String::from_str("}"));
        assert(lines.deep_view() =~= dot_lines(self@, quotes));
        join(&lines, "\n")
    }
}

impl Tree {
    /// Escapes a symbol name for use as the label of a node.
    pub fn to_dot_label(s: &str) -> (r: String)
        ensures
            r@ == dot_label(s@),
    {
        Derivation::to_dot_label(s)
    }

    /// The symbol of the root as a graph shows it: a nonterminal between
    /// angle brackets, a terminal between double quotes.
    pub fn get_name(&self) -> (r: String)
        ensures
            r@ == display_name(self@, true),
    {
        self.0.display_name(true)
    }

    /// Returns the graph of the tree in the dot language, called
    /// `DerivationTree`, with the terminals between double quotes. It can
    /// be rendered with `dot -Tpdf tree.dot -o tree.pdf`.
    pub fn to_dot(&self) -> (r: String)
        ensures
            r@ == dot_text(self@, true),
    {
        self.0.to_dot_in(true)
    }
}

} // verus!
