//! Derivation trees of a grammar.
//!
//! A node is a nonterminal with its children, or a terminal. A nonterminal
//! without children has not been expanded yet: it is an open leaf. Trees
//! grow by replacing the children of one open leaf with the symbols of an
//! expansion; a tree without open leaves is complete.

use vstd::prelude::*;
use vstd::string::*;
use crate::text::{
    bracketed, bracketed_spec, concat, concat_spec, is_nonterminal, is_nonterminal_spec,
    push_char, trim_angle_brackets, trim_angle_brackets_spec,
};

verus! {

/// Derivation tree in a given grammar.
#[derive(Debug)]
pub enum Derivation {
    /// Nonterminal symbol: its name, without angle brackets, and its
    /// children. No children means that the node is not expanded yet.
    NT(String, Vec<Derivation>),
    /// Terminal symbol: its text.
    T(String),
}

/// A derivation tree that shows its terminals between double quotes: in
/// its name and in its graph, which is called `DerivationTree`.
#[derive(Debug)]
pub struct Tree(pub Derivation);

/// Mathematical model of a derivation tree.
pub enum DerivationView {
    NT(Seq<char>, Seq<DerivationView>),
    T(Seq<char>),
}

/// The models of a list of trees.
pub open spec fn tree_views(v: Seq<Derivation>) -> Seq<DerivationView> {
    Seq::new(v.len(), |i: int| v[i]@)
}

impl View for Derivation {
    type V = DerivationView;

    open spec fn view(&self) -> DerivationView
        decreases self,
    {
        match self {
            Derivation::NT(name, children) => DerivationView::NT(
                name@,
                Seq::new(
                    children@.len(),
                    |i: int|
                        if 0 <= i < children@.len() {
                            children@[i]@
                        } else {
                            DerivationView::T(Seq::empty())
                        },
                ),
            ),
            Derivation::T(name) => DerivationView::T(name@),
        }
    }
}

/// The node that stands for the symbol `s`: an open nonterminal where `s`
/// is written between angle brackets, else a terminal.
pub open spec fn symbol_node(s: Seq<char>) -> DerivationView {
    if is_nonterminal_spec(s) {
        DerivationView::NT(trim_angle_brackets_spec(s), Seq::empty())
    } else {
        DerivationView::T(s)
    }
}

/// The nodes that stand for the symbols of an expansion.
pub open spec fn symbol_nodes(e: Seq<Seq<char>>) -> Seq<DerivationView> {
    Seq::new(e.len(), |i: int| symbol_node(e[i]))
}

/// Number of open leaves of a tree.
pub open spec fn count_open(t: DerivationView) -> nat
    decreases t, 0nat,
{
    match t {
        DerivationView::NT(_, children) => if children.len() == 0 {
            1
        } else {
            seq_open(children, children.len())
        },
        DerivationView::T(_) => 0,
    }
}

/// Number of open leaves in the first `k` trees of `ts`.
pub open spec fn seq_open(ts: Seq<DerivationView>, k: nat) -> nat
    decreases ts, k,
{
    if k == 0 || k > ts.len() {
        0
    } else {
        seq_open(ts, (k - 1) as nat) + count_open(ts[k - 1])
    }
}

/// Name of the open leaf number `k`, counting from the left and from 0.
pub open spec fn open_name(t: DerivationView, k: nat) -> Seq<char>
    decreases t, 0nat,
{
    match t {
        DerivationView::NT(name, children) => if children.len() == 0 {
            name
        } else {
            seq_open_name(children, children.len(), k)
        },
        DerivationView::T(name) => name,
    }
}

/// Name of the open leaf number `k` among those of the first `n` trees.
pub open spec fn seq_open_name(ts: Seq<DerivationView>, n: nat, k: nat) -> Seq<char>
    decreases ts, n,
{
    if n == 0 || n > ts.len() {
        Seq::empty()
    } else if k < seq_open(ts, (n - 1) as nat) {
        seq_open_name(ts, (n - 1) as nat, k)
    } else {
        open_name(ts[n - 1], (k - seq_open(ts, (n - 1) as nat)) as nat)
    }
}

/// The tree with the open leaf number `k` given the children `c`.
pub open spec fn replace_open(t: DerivationView, k: nat, c: Seq<DerivationView>) -> DerivationView
    decreases t, 0nat,
{
    match t {
        DerivationView::NT(name, children) => if children.len() == 0 {
            if k == 0 {
                DerivationView::NT(name, c)
            } else {
                t
            }
        } else {
            DerivationView::NT(name, seq_replace_open(children, children.len(), k, c))
        },
        DerivationView::T(_) => t,
    }
}

/// The trees with the open leaf number `k` among those of the first `n`
/// trees given the children `c`.
pub open spec fn seq_replace_open(
    ts: Seq<DerivationView>,
    n: nat,
    k: nat,
    c: Seq<DerivationView>,
) -> Seq<DerivationView>
    decreases ts, n,
{
    if n == 0 || n > ts.len() {
        ts
    } else if k < seq_open(ts, (n - 1) as nat) {
        seq_replace_open(ts, (n - 1) as nat, k, c)
    } else if k < seq_open(ts, n) {
        ts.update(n - 1, replace_open(ts[n - 1], (k - seq_open(ts, (n - 1) as nat)) as nat, c))
    } else {
        ts
    }
}

/// The leaves of a tree from left to right: terminals as they are, open
/// leaves as their name between ` <` and `> `.
pub open spec fn leaves(t: DerivationView) -> Seq<Seq<char>>
    decreases t, 0nat,
{
    match t {
        DerivationView::NT(name, children) => if children.len() == 0 {
            seq![seq![' '] + bracketed_spec(name) + seq![' ']]
        } else {
            seq_leaves(children, children.len())
        },
        DerivationView::T(name) => seq![name],
    }
}

/// The leaves of the first `k` trees of `ts`.
pub open spec fn seq_leaves(ts: Seq<DerivationView>, k: nat) -> Seq<Seq<char>>
    decreases ts, k,
{
    if k == 0 || k > ts.len() {
        Seq::empty()
    } else {
        seq_leaves(ts, (k - 1) as nat) + leaves(ts[k - 1])
    }
}

/// Open leaves only add up.
pub proof fn lemma_seq_open_monotonic(ts: Seq<DerivationView>, a: nat, b: nat)
    requires
        a <= b <= ts.len(),
    ensures
        seq_open(ts, a) <= seq_open(ts, b),
    decreases b,
{
    if a < b {
        lemma_seq_open_monotonic(ts, a, (b - 1) as nat);
    }
}

/// Where the open leaf number `k` lies in the tree at position `i`, the
/// replacement and the name are those within that tree.
pub proof fn lemma_seq_locate(
    ts: Seq<DerivationView>,
    n: nat,
    i: nat,
    k: nat,
    c: Seq<DerivationView>,
)
    requires
        i < n <= ts.len(),
        seq_open(ts, i) <= k < seq_open(ts, i + 1),
    ensures
        seq_replace_open(ts, n, k, c) == ts.update(
            i as int,
            replace_open(ts[i as int], (k - seq_open(ts, i)) as nat, c),
        ),
        seq_open_name(ts, n, k) == open_name(ts[i as int], (k - seq_open(ts, i)) as nat),
    decreases n,
{
    if n > i + 1 {
        lemma_seq_open_monotonic(ts, i + 1, (n - 1) as nat);
        lemma_seq_locate(ts, (n - 1) as nat, i, k, c);
    }
}

impl View for Tree {
    type V = DerivationView;

    open spec fn view(&self) -> DerivationView {
        self.0@
    }
}

impl Clone for Tree {
    fn clone(&self) -> (r: Self)
        ensures
            r@ == self@,
    {
        Tree(self.0.clone())
    }
}

impl Tree {
    /// Concatenates all leaves of the tree, terminals and open leaves, into
    /// one string.
    pub fn all_leafs(&self) -> (r: String)
        ensures
            r@ == concat_spec(leaves(self@)),
    {
        self.0.all_leafs()
    }

    /// Appends the leaves of the tree to `res`, from left to right.
    pub fn all_leafs_(&self, res: &mut Vec<String>)
        ensures
            final(res).deep_view() == old(res).deep_view() + leaves(self@),
    {
        self.0.all_leafs_(res)
    }

    /// The names of the open leaves, from left to right; of the first
    /// `usize::MAX` of them, should there be more.
    pub fn get_expandable_nonterminals(&self) -> (r: Vec<String>)
        ensures
            r@.len() == self.0.possible_expansions_spec(),
            forall|k: int| 0 <= k < r@.len() ==> (#[trigger] r@[k])@ == open_name(self@, k as nat),
    {
        self.0.get_expandable_nonterminals()
    }
}

impl Clone for Derivation {
    fn clone(&self) -> (r: Self)
        ensures
            r@ == self@,
        decreases self,
    {
        match self {
            Derivation::NT(name, children) => {
                let c = clone_trees(children);
                let r = Derivation::NT(name.clone(), c);
                assert(r@ == self@) by {
                    assert(r@->NT_1 =~= self@->NT_1);
                }
                r
            },
            Derivation::T(name) => Derivation::T(name.clone()),
        }
    }
}

/// Copies a list of trees.
pub fn clone_trees(v: &Vec<Derivation>) -> (r: Vec<Derivation>)
    ensures
        r@.len() == v@.len(),
        forall|j: int| 0 <= j < v@.len() ==> r@[j]@ == v@[j]@,
        tree_views(r@) == tree_views(v@),
    decreases v,
{
    let mut r: Vec<Derivation> = Vec::new();
    let mut i: usize = 0;
    while i < v.len()
        invariant
            i <= v.len(),
            r.len() == i,
            forall|j: int| 0 <= j < i ==> r[j]@ == v[j]@,
        decreases v.len() - i,
    {
        r.push(v[i].clone());
        i += 1;
    }
    assert(tree_views(r@) =~= tree_views(v@));
    r
}

/// A nonterminal node with the given name and children.
pub fn tnt(name: &str, children: &[Derivation]) -> (r: Derivation)
    ensures
        r@ == DerivationView::NT(name@, tree_views(children@)),
{
    let mut c: Vec<Derivation> = Vec::new();
    let mut i: usize = 0;
    while i < children.len()
        invariant
            i <= children@.len(),
            c.len() == i,
            forall|j: int| 0 <= j < i ==> c[j]@ == children@[j]@,
        decreases children@.len() - i,
    {
        c.push(children[i].clone());
        i += 1;
    }
    let r = Derivation::NT(String::from_str(name), c);
    assert(r@->NT_1 =~= tree_views(children@));
    r
}

/// A terminal node with the given text.
pub fn tt(name: &str) -> (r: Derivation)
    ensures
        r@ == DerivationView::T(name@),
{
    Derivation::T(String::from_str(name))
}

/// The node that stands for a symbol: an open nonterminal where the symbol
/// is written between angle brackets, else a terminal.
pub fn ts(symbol: &str) -> (r: Derivation)
    ensures
        r@ == symbol_node(symbol@),
{
    if is_nonterminal(symbol) {
        let r = Derivation::NT(String::from_str(trim_angle_brackets(symbol)), Vec::new());
        assert(r@->NT_1 =~= Seq::<DerivationView>::empty());
        r
    } else {
        tt(symbol)
    }
}

/// The nodes that stand for the symbols of an expansion.
pub fn expansion_nodes(expansion: &Vec<String>) -> (r: Vec<Derivation>)
    ensures
        tree_views(r@) == symbol_nodes(expansion.deep_view()),
{
    let mut r: Vec<Derivation> = Vec::new();
    let mut i: usize = 0;
    while i < expansion.len()
        invariant
            i <= expansion.len(),
            r.len() == i,
            forall|j: int| 0 <= j < i ==> r[j]@ == symbol_node(expansion[j]@),
        decreases expansion.len() - i,
    {
        r.push(ts(expansion[i].as_str()));
        i += 1;
    }
    assert(tree_views(r@) =~= symbol_nodes(expansion.deep_view()));
    r
}

impl Derivation {
    /// The number that `possible_expansions` reports.
    pub open spec fn possible_expansions_spec(&self) -> usize {
        if count_open(self@) <= usize::MAX {
            count_open(self@) as usize
        } else {
            usize::MAX
        }
    }

    /// The symbol of the node as the grammar writes it: a nonterminal's
    /// name between angle brackets, a terminal's text as it is.
    pub fn get_name(&self) -> (r: String)
        ensures
            r@ == (match self@ {
                DerivationView::NT(name, _) => bracketed_spec(name),
                DerivationView::T(name) => name,
            }),
    {
        match self {
            Derivation::NT(name, _) => bracketed(name.as_str()),
            Derivation::T(name) => name.clone(),
        }
    }

    /// Concatenates all leaves of the tree, terminals and open leaves, into
    /// one string.
    pub fn all_leafs(&self) -> (r: String)
        ensures
            r@ == concat_spec(leaves(self@)),
    {
        let mut res: Vec<String> = Vec::new();
        assert(res.deep_view() =~= Seq::<Seq<char>>::empty());
        self.all_leafs_(&mut res);
        assert(res.deep_view() =~= leaves(self@));
        concat(&res)
    }

    /// Appends the leaves of the tree to `res`, from left to right.
    pub fn all_leafs_(&self, res: &mut Vec<String>)
        ensures
            final(res).deep_view() == old(res).deep_view() + leaves(self@),
        decreases self,
    {
        match self {
            Derivation::NT(name, children) => {
                if children.len() == 0 {
                    let mut label = String::new();
                    push_char(&mut label, ' ');
                    label.append(bracketed(name.as_str()).as_str());
                    push_char(&mut label, ' ');
                    assert(label@ =~= seq![' '] + bracketed_spec(name@) + seq![' ']);
                    res.push(label);
                    assert(res.deep_view() =~= old(res).deep_view() + leaves(self@));
                } else {
                    let ghost ts = self@->NT_1;
                    let mut i: usize = 0;
                    assert(res.deep_view() =~= old(res).deep_view() + seq_leaves(ts, 0));
                    while i < children.len()
                        invariant
                            i <= children.len(),
                            self is NT,
                            self->NT_1 == *children,
                            ts == self@->NT_1,
                            ts.len() == children.len(),
                            forall|j: int| 0 <= j < children.len() ==> ts[j] == children[j]@,
                            res.deep_view() == old(res).deep_view() + seq_leaves(ts, i as nat),
                        decreases children.len() - i,
                    {
                        let ghost before = res.deep_view();
                        children[i].all_leafs_(res);
                        assert(res.deep_view() =~= old(res).deep_view() + seq_leaves(
                            ts,
                            (i + 1) as nat,
                        ));
                        i += 1;
                    }
                }
            },
            Derivation::T(name) => {
                res.push(name.clone());
                assert(res.deep_view() =~= old(res).deep_view() + leaves(self@));
            },
        }
    }

    /// Counts the open leaves: the nonterminals that have no children yet.
    /// The count stops at `usize::MAX`.
    pub fn possible_expansions(&self) -> (r: usize)
        ensures
            r == if count_open(self@) <= usize::MAX {
                count_open(self@)
            } else {
                usize::MAX as nat
            },
        decreases self,
    {
        match self {
            Derivation::NT(_, children) => {
                if children.len() == 0 {
                    1
                } else {
                    let ghost ts = self@->NT_1;
                    let mut res: usize = 0;
                    let mut i: usize = 0;
                    while i < children.len()
                        invariant
                            i <= children.len(),
                            self is NT,
                            self->NT_1 == *children,
                            ts == self@->NT_1,
                            ts.len() == children.len(),
                            forall|j: int| 0 <= j < children.len() ==> ts[j] == children[j]@,
                            res == if seq_open(ts, i as nat) <= usize::MAX {
                                seq_open(ts, i as nat)
                            } else {
                                usize::MAX as nat
                            },
                        decreases children.len() - i,
                    {
                        let c = children[i].possible_expansions();
                        res = res.saturating_add(c);
                        i += 1;
                    }
                    res
                }
            },
            Derivation::T(_) => 0,
        }
    }

    /// Tells whether the tree has an open leaf.
    pub fn any_possible_expansions(&self) -> (r: bool)
        ensures
            r == (count_open(self@) > 0),
        decreases self,
    {
        match self {
            Derivation::NT(_, children) => {
                if children.len() == 0 {
                    true
                } else {
                    let ghost ts = self@->NT_1;
                    let mut i: usize = 0;
                    while i < children.len()
                        invariant
                            i <= children.len(),
                            self is NT,
                            self->NT_1 == *children,
                            ts == self@->NT_1,
                            ts.len() == children.len(),
                            forall|j: int| 0 <= j < children.len() ==> ts[j] == children[j]@,
                            seq_open(ts, i as nat) == 0,
                        decreases children.len() - i,
                    {
                        if children[i].any_possible_expansions() {
                            proof {
                                lemma_seq_open_monotonic(ts, (i + 1) as nat, ts.len());
                            }
                            return true;
                        }
                        i += 1;
                    }
                    false
                }
            },
            Derivation::T(_) => false,
        }
    }

    /// The name of the open leaf number `k`, counting from the left and
    /// from 0.
    pub fn kth_open_name(&self, k: usize) -> (r: String)
        requires
            k < count_open(self@),
            k < usize::MAX,
        ensures
            r@ == open_name(self@, k as nat),
        decreases self,
    {
        match self {
            Derivation::NT(name, children) => {
                if children.len() == 0 {
                    name.clone()
                } else {
                    let ghost ts = self@->NT_1;
                    let mut offset: usize = 0;
                    let mut i: usize = 0;
                    while i < children.len()
                        invariant
                            i <= children.len(),
                            self is NT,
                            self->NT_1 == *children,
                            ts == self@->NT_1,
                            ts.len() == children.len(),
                            forall|j: int| 0 <= j < children.len() ==> ts[j] == children[j]@,
                            offset == seq_open(ts, i as nat),
                            offset <= k < seq_open(ts, ts.len()),
                            k < usize::MAX,
                        decreases children.len() - i,
                    {
                        let c = children[i].possible_expansions();
                        assert(seq_open(ts, (i + 1) as nat) == seq_open(ts, i as nat) + count_open(
                            ts[i as int],
                        ));
                        if k - offset < c {
                            proof {
                                lemma_seq_locate(ts, ts.len(), i as nat, k as nat, Seq::empty());
                            }
                            return children[i].kth_open_name(k - offset);
                        }
                        offset = offset + c;
                        i += 1;
                    }
                    proof {
                        assert(false);
                    }
                    name.clone()
                }
            },
            Derivation::T(name) => name.clone(),
        }
    }

    /// The names of the open leaves, from left to right; of the first
    /// `usize::MAX` of them, should there be more.
    pub fn get_expandable_nonterminals(&self) -> (r: Vec<String>)
        ensures
            r@.len() == self.possible_expansions_spec(),
            forall|k: int| 0 <= k < r@.len() ==> (#[trigger] r@[k])@ == open_name(self@, k as nat),
    {
        let n = self.possible_expansions();
        let mut r: Vec<String> = Vec::new();
        let mut k: usize = 0;
        while k < n
            invariant
                k <= n,
                n == self.possible_expansions_spec(),
                r@.len() == k,
                forall|j: int| 0 <= j < k ==> (#[trigger] r@[j])@ == open_name(self@, j as nat),
            decreases n - k,
        {
            r.push(self.kth_open_name(k));
            k += 1;
        }
        r
    }

    /// Gives the open leaf number `k` the children `new_children`.
    pub fn expand_kth(self, k: usize, new_children: Vec<Derivation>) -> (r: Derivation)
        requires
            k < count_open(self@),
            k < usize::MAX,
        ensures
            r@ == replace_open(self@, k as nat, tree_views(new_children@)),
        decreases self,
    {
        let ghost c = tree_views(new_children@);
        match self {
            Derivation::NT(name, mut children) => {
                if children.len() == 0 {
                    let r = Derivation::NT(name, new_children);
                    assert(r@->NT_1 =~= c);
                    r
                } else {
                    let ghost ts = self@->NT_1;
                    let ghost initial = children;
                    let mut offset: usize = 0;
                    let mut i: usize = 0;
                    while i < children.len()
                        invariant
                            i <= children.len(),
                            children == initial,
                            self is NT,
                            self->NT_1 == initial,
                            self->NT_0 == name,
                            ts == self@->NT_1,
                            c == tree_views(new_children@),
                            ts.len() == children.len(),
                            forall|j: int| 0 <= j < children.len() ==> ts[j] == children[j]@,
                            offset == seq_open(ts, i as nat),
                            offset <= k < seq_open(ts, ts.len()),
                            k < usize::MAX,
                        decreases children.len() - i,
                    {
                        let n = children[i].possible_expansions();
                        assert(seq_open(ts, (i + 1) as nat) == seq_open(ts, i as nat) + count_open(
                            ts[i as int],
                        ));
                        if k - offset < n {
                            proof {
                                lemma_seq_locate(ts, ts.len(), i as nat, k as nat, c);
                            }
                            let child = children.remove(i);
                            let grown = child.expand_kth(k - offset, new_children);
                            children.insert(i, grown);
                            let r = Derivation::NT(name, children);
                            assert(r@->NT_1 =~= seq_replace_open(ts, ts.len(), k as nat, c));
                            return r;
                        }
                        offset = offset + n;
                        i += 1;
                    }
                    proof {
                        assert(false);
                    }
                    Derivation::NT(name, children)
                }
            },
            Derivation::T(name) => Derivation::T(name),
        }
    }
}

} // verus!
