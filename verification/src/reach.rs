//! Reachability among the nonterminals of a grammar.
//!
//! A grammar is seen as a graph: each rule is a node, named by its
//! nonterminal, that refers to the nonterminals on its right-hand side.
//! `reach` walks the graph depth-first from a start symbol, with a set of
//! visited nodes as the guard against recursion, and reports either the
//! nodes it reached, in the order of the walk, or a symbol that is referred
//! to but has no rule.

use vstd::prelude::*;
use vstd::string::*;

verus! {

/// A node of the graph: a name and the names it refers to.
pub struct NodeView {
    pub name: Seq<char>,
    pub refs: Seq<Seq<char>>,
}

/// The graph given by a list of names and, for each, the list of the names
/// it refers to.
pub open spec fn graph_view(names: Seq<String>, refs: Seq<Vec<String>>) -> Seq<NodeView> {
    Seq::new(names.len(), |i: int| NodeView { name: names[i]@, refs: refs[i].deep_view() })
}

/// Some node has the name `x`.
pub open spec fn node_defined(g: Seq<NodeView>, x: Seq<char>) -> bool {
    exists|i: int| 0 <= i < g.len() && #[trigger] g[i].name == x
}

/// No two nodes have the same name.
pub open spec fn distinct_nodes(g: Seq<NodeView>) -> bool {
    forall|i: int, j: int| 0 <= i < j < g.len() ==> #[trigger] g[i].name != #[trigger] g[j].name
}

/// A node named `x` refers to `y`.
pub open spec fn edge(g: Seq<NodeView>, x: Seq<char>, y: Seq<char>) -> bool {
    exists|i: int| 0 <= i < g.len() && #[trigger] g[i].name == x && g[i].refs.contains(y)
}

/// `x` is reached from `start` by exactly `n` references.
pub open spec fn reach_in(g: Seq<NodeView>, start: Seq<char>, x: Seq<char>, n: nat) -> bool
    decreases n,
{
    if n == 0 {
        x == start
    } else {
        exists|y: Seq<char>|
            #![trigger edge(g, y, x)]
            reach_in(g, start, y, (n - 1) as nat) && edge(g, y, x)
    }
}

/// `x` is `start` or is reached from it by a chain of references.
pub open spec fn reachable(g: Seq<NodeView>, start: Seq<char>, x: Seq<char>) -> bool {
    exists|n: nat| reach_in(g, start, x, n)
}

/// Number of entries of `v` that are `false`.
pub open spec fn count_false(v: Seq<bool>) -> nat
    decreases v.len(),
{
    if v.len() == 0 {
        0
    } else {
        count_false(v.drop_last()) + if v.last() {
            0nat
        } else {
            1nat
        }
    }
}

/// Setting a `false` entry to `true` leaves one `false` entry fewer.
pub proof fn lemma_count_false_update(v: Seq<bool>, i: int)
    requires
        0 <= i < v.len(),
        !v[i],
    ensures
        count_false(v.update(i, true)) + 1 == count_false(v),
    decreases v.len(),
{
    let w = v.update(i, true);
    if i == v.len() - 1 {
        assert(w.drop_last() =~= v.drop_last());
    } else {
        assert(w.drop_last() =~= v.drop_last().update(i, true));
        lemma_count_false_update(v.drop_last(), i);
    }
}

/// What is reached by one more reference from a reachable name is
/// reachable.
pub proof fn lemma_reachable_step(g: Seq<NodeView>, start: Seq<char>, y: Seq<char>, x: Seq<char>)
    requires
        reachable(g, start, y),
        edge(g, y, x),
    ensures
        reachable(g, start, x),
{
    let n = choose|n: nat| reach_in(g, start, y, n);
    assert(reach_in(g, start, y, ((n + 1) - 1) as nat));
    assert(reach_in(g, start, x, n + 1));
}

/// The start symbol is reachable.
pub proof fn lemma_reachable_start(g: Seq<NodeView>, start: Seq<char>)
    ensures
        reachable(g, start, start),
{
    assert(reach_in(g, start, start, 0));
}

/// A set of marked nodes that holds the start symbol and is closed under
/// references holds every name that is reached in `n` steps.
pub proof fn lemma_closed_holds_reachable(
    g: Seq<NodeView>,
    start: Seq<char>,
    marked: Seq<bool>,
    x: Seq<char>,
    n: nat,
)
    requires
        distinct_nodes(g),
        marked.len() == g.len(),
        is_marked(g, marked, start),
        forall|i: int, k: int|
            0 <= i < g.len() && marked[i] && 0 <= k < g[i].refs.len() ==> is_marked(
                g,
                marked,
                #[trigger] g[i].refs[k],
            ),
        reach_in(g, start, x, n),
    ensures
        is_marked(g, marked, x),
    decreases n,
{
    if n > 0 {
        let y = choose|y: Seq<char>|
            #![trigger edge(g, y, x)]
            reach_in(g, start, y, (n - 1) as nat) && edge(g, y, x);
        lemma_closed_holds_reachable(g, start, marked, y, (n - 1) as nat);
        let i = choose|i: int| 0 <= i < g.len() && #[trigger] g[i].name == y && marked[i];
        let j = choose|j: int| 0 <= j < g.len() && #[trigger] g[j].name == y && g[j].refs.contains(x);
        if i < j {
            assert(g[i].name != g[j].name);
        }
        if j < i {
            assert(g[j].name != g[i].name);
        }
        let k = choose|k: int| 0 <= k < g[i].refs.len() && g[i].refs[k] == x;
        assert(is_marked(g, marked, g[i].refs[k]));
    }
}

/// The node named `x` is marked.
pub open spec fn is_marked(g: Seq<NodeView>, marked: Seq<bool>, x: Seq<char>) -> bool {
    exists|i: int| 0 <= i < g.len() && #[trigger] g[i].name == x && marked[i]
}

/// The name `x` is on the stack.
pub open spec fn on_stack(stack: Seq<String>, x: Seq<char>) -> bool {
    exists|j: int| 0 <= j < stack.len() && (#[trigger] stack[j])@ == x
}

/// Finds the position of a name in a list of names.
pub fn find_name(names: &Vec<String>, name: &String) -> (r: Option<usize>)
    ensures
        r matches Some(i) ==> i < names@.len() && names@[i as int]@ == name@,
        r is None ==> forall|i: int| 0 <= i < names@.len() ==> (#[trigger] names@[i])@ != name@,
{
    let mut i: usize = 0;
    while i < names.len()
        invariant
            i <= names.len(),
            forall|j: int| 0 <= j < i ==> (#[trigger] names@[j])@ != name@,
        decreases names.len() - i,
    {
        if names[i] == *name {
            return Some(i);
        }
        i += 1;
    }
    None
}

/// Walks the graph depth-first from `start`. Returns the positions of the
/// nodes that are reachable, each once, in the order in which the walk
/// first met them; or, where the walk meets a name without a node, that
/// name.
pub fn reach(names: &Vec<String>, refs: &Vec<Vec<String>>, start: &str) -> (r: Result<
    Vec<usize>,
    String,
>)
    requires
        names@.len() == refs@.len(),
        distinct_nodes(graph_view(names@, refs@)),
    ensures
        r matches Ok(order) ==> {
            &&& forall|j: int| 0 <= j < order@.len() ==> (#[trigger] order@[j]) < names@.len()
            &&& forall|a: int, b: int|
                0 <= a < b < order@.len() ==> #[trigger] order@[a] != #[trigger] order@[b]
            &&& forall|i: int|
                0 <= i < names@.len() ==> (order@.contains(i as usize) <==> reachable(
                    graph_view(names@, refs@),
                    start@,
                    #[trigger] names@[i]@,
                ))
            &&& forall|x: Seq<char>|
                reachable(graph_view(names@, refs@), start@, x) ==> node_defined(
                    graph_view(names@, refs@),
                    x,
                )
        },
        r matches Err(x) ==> reachable(graph_view(names@, refs@), start@, x@) && !node_defined(
            graph_view(names@, refs@),
            x@,
        ),
{
    let ghost g = graph_view(names@, refs@);
    let n = names.len();
    let mut marked: Vec<bool> = Vec::new();
    let mut i: usize = 0;
    while i < n
        invariant
            i <= n,
            marked@.len() == i,
            forall|j: int| 0 <= j < i ==> !marked@[j],
        decreases n - i,
    {
        marked.push(false);
        i += 1;
    }
    let mut order: Vec<usize> = Vec::new();
    let mut stack: Vec<String> = Vec::new();
    stack.push(String::from_str(start));
    proof {
        lemma_reachable_start(g, start@);
        assert(stack@[0]@ == start@);
    }
    while stack.len() > 0
        invariant
            n == names@.len(),
            names@.len() == refs@.len(),
            g == graph_view(names@, refs@),
            distinct_nodes(g),
            marked@.len() == n,
            forall|j: int| 0 <= j < order@.len() ==> (#[trigger] order@[j]) < n && marked@[order@[j] as int],
            forall|a: int, b: int|
                0 <= a < b < order@.len() ==> #[trigger] order@[a] != #[trigger] order@[b],
            forall|i: int| 0 <= i < n && #[trigger] marked@[i] ==> order@.contains(i as usize),
            forall|i: int| 0 <= i < n && #[trigger] marked@[i] ==> reachable(g, start@, g[i].name),
            forall|j: int| 0 <= j < stack@.len() ==> reachable(g, start@, (#[trigger] stack@[j])@),
            forall|i: int, k: int|
                0 <= i < n && marked@[i] && 0 <= k < g[i].refs.len() ==> is_marked(
                    g,
                    marked@,
                    #[trigger] g[i].refs[k],
                ) || on_stack(stack@, g[i].refs[k]),
            is_marked(g, marked@, start@) || on_stack(stack@, start@),
        decreases count_false(marked@), stack@.len(),
    {
        let ghost stack0 = stack@;
        let ghost marked0 = marked@;
        let ghost order0 = order@;
        let x = stack.pop().unwrap();
        assert(x == stack0[stack0.len() - 1]);
        match find_name(names, &x) {
            None => {
                proof {
                    assert forall|i: int| 0 <= i < g.len() implies (#[trigger] g[i]).name != x@ by {
                        assert(names@[i]@ != x@);
                    }
                }
                return Err(x);
            },
            Some(i) => {
                assert(g[i as int].name == x@);
                if !marked[i] {
                    marked.set(i, true);
                    order.push(i);
                    proof {
                        lemma_count_false_update(marked0, i as int);
                        assert forall|a: int, b: int| 0 <= a < b < order@.len() implies #[trigger] order@[a]
                            != #[trigger] order@[b] by {
                            if b == order@.len() - 1 {
                                assert(marked0[order@[a] as int]);
                            }
                        }
                        assert forall|m: int| 0 <= m < n && #[trigger] marked@[m] implies order@.contains(
                            m as usize,
                        ) by {
                            if m == i {
                                assert(order@[order@.len() - 1] == i);
                            } else {
                                assert(marked0[m]);
                                assert(order0.contains(m as usize));
                                let w = choose|w: int|
                                    0 <= w < order0.len() && order0[w] == m as usize;
                                assert(order@[w] == m as usize);
                            }
                        }
                    }
                    let targets = &refs[i];
                    assert(g[i as int].refs == targets.deep_view());
                    let mut k: usize = 0;
                    while k < targets.len()
                        invariant
                            k <= targets.len(),
                            n == names@.len(),
                            g == graph_view(names@, refs@),
                            distinct_nodes(g),
                            marked@.len() == n,
                            marked0.len() == n,
                            0 <= i < n,
                            marked@ == marked0.update(i as int, true),
                            g[i as int].refs == targets.deep_view(),
                            g[i as int].name == x@,
                            reachable(g, start@, x@),
                            stack0.len() > 0,
                            x == stack0[stack0.len() - 1],
                            stack@.len() == stack0.len() - 1 + k,
                            forall|j: int|
                                0 <= j < stack0.len() - 1 ==> stack@[j] == stack0[j],
                            forall|j: int|
                                0 <= j < k ==> (#[trigger] stack@[stack0.len() - 1 + j])@
                                    == targets[j]@,
                            forall|j: int|
                                0 <= j < stack@.len() ==> reachable(
                                    g,
                                    start@,
                                    (#[trigger] stack@[j])@,
                                ),
                        decreases targets.len() - k,
                    {
                        proof {
                            assert(g[i as int].refs[k as int] == targets[k as int]@);
                            assert(g[i as int].refs.contains(targets[k as int]@));
                            assert(edge(g, x@, targets[k as int]@));
                            lemma_reachable_step(g, start@, x@, targets[k as int]@);
                        }
                        stack.push(targets[k].clone());
                        k += 1;
                    }
                    proof {
                        assert forall|a: int, b: int|
                            0 <= a < n && marked@[a] && 0 <= b < g[a].refs.len() implies is_marked(
                            g,
                            marked@,
                            #[trigger] g[a].refs[b],
                        ) || on_stack(stack@, g[a].refs[b]) by {
                            let y = g[a].refs[b];
                            if a == i {
                                assert(stack@[stack0.len() - 1 + b]@ == targets[b]@);
                                assert(on_stack(stack@, y));
                            } else {
                                assert(marked0[a]);
                                lemma_keeps(g, marked0, stack0, marked@, stack@, i as int, y);
                            }
                        }
                        lemma_keeps(g, marked0, stack0, marked@, stack@, i as int, start@);
                    }
                } else {
                    proof {
                        assert forall|a: int, b: int|
                            0 <= a < n && marked@[a] && 0 <= b < g[a].refs.len() implies is_marked(
                            g,
                            marked@,
                            #[trigger] g[a].refs[b],
                        ) || on_stack(stack@, g[a].refs[b]) by {
                            lemma_keeps(g, marked0, stack0, marked@, stack@, i as int, g[a].refs[b]);
                        }
                        lemma_keeps(g, marked0, stack0, marked@, stack@, i as int, start@);
                    }
                }
            },
        }
    }
    proof {
        assert forall|y: Seq<char>| !on_stack(stack@, y) by {}
        assert forall|x: Seq<char>| reachable(g, start@, x) implies is_marked(g, marked@, x) by {
            let m = choose|m: nat| reach_in(g, start@, x, m);
            lemma_closed_holds_reachable(g, start@, marked@, x, m);
        }
        assert forall|i: int| 0 <= i < names@.len() implies (order@.contains(i as usize) <==> reachable(
            g,
            start@,
            #[trigger] names@[i]@,
        )) by {
            if order@.contains(i as usize) {
                let w = choose|w: int| 0 <= w < order@.len() && order@[w] == i as usize;
                assert(marked@[order@[w] as int]);
                assert(g[i].name == names@[i]@);
            }
            if reachable(g, start@, names@[i]@) {
                let j = choose|j: int| 0 <= j < g.len() && #[trigger] g[j].name == names@[i]@ && marked@[j];
                if i < j {
                    assert(g[i].name != g[j].name);
                }
                if j < i {
                    assert(g[j].name != g[i].name);
                }
            }
        }
    }
    Ok(order)
}

/// A name that was marked or on the stack is still so after the top of the
/// stack was popped and marked, whatever was pushed since.
pub proof fn lemma_keeps(
    g: Seq<NodeView>,
    marked0: Seq<bool>,
    stack0: Seq<String>,
    marked: Seq<bool>,
    stack: Seq<String>,
    i: int,
    y: Seq<char>,
)
    requires
        marked0.len() == g.len(),
        marked.len() == g.len(),
        0 <= i < g.len(),
        stack0.len() > 0,
        g[i].name == stack0[stack0.len() - 1]@,
        marked[i],
        forall|m: int| 0 <= m < g.len() && marked0[m] ==> marked[m],
        stack.len() >= stack0.len() - 1,
        forall|j: int| 0 <= j < stack0.len() - 1 ==> stack[j] == stack0[j],
        is_marked(g, marked0, y) || on_stack(stack0, y),
    ensures
        is_marked(g, marked, y) || on_stack(stack, y),
{
    if is_marked(g, marked0, y) {
        let m = choose|m: int| 0 <= m < g.len() && #[trigger] g[m].name == y && marked0[m];
        assert(g[m].name == y && marked[m]);
    } else {
        let j = choose|j: int| 0 <= j < stack0.len() && (#[trigger] stack0[j])@ == y;
        if j == stack0.len() - 1 {
            assert(g[i].name == y && marked[i]);
        } else {
            assert(stack[j]@ == y);
        }
    }
}

} // verus!
