//! Coverage: the set of locations that one run of the program under test
//! went through.
//!
//! Locations are opaque numbers. Two runs with the same coverage count as
//! the same behaviour, so coverage is compared as a set: by its members,
//! whatever the order in which they were recorded.

use vstd::prelude::*;

verus! {

/// Identifier of a place in the program under test.
pub type Location = usize;

/// The members of a sequence with one more element are those of the
/// sequence and that element.
pub proof fn lemma_push_to_set<A>(s: Seq<A>, x: A)
    ensures
        s.push(x).to_set() == s.to_set().insert(x),
{
    let t = s.push(x);
    assert forall|y: A| t.to_set().contains(y) == s.to_set().insert(x).contains(y) by {
        if t.to_set().contains(y) {
            let j = choose|j: int| 0 <= j < t.len() && t[j] == y;
            if j < s.len() {
                assert(s[j] == y);
            }
        }
        if s.to_set().contains(y) {
            let j = choose|j: int| 0 <= j < s.len() && s[j] == y;
            assert(t[j] == y);
        }
        if y == x {
            assert(t[s.len() as int] == y);
        }
    }
    assert(t.to_set() =~= s.to_set().insert(x));
}

/// A sequence without duplicates stays so with one more element that it
/// did not hold.
pub proof fn lemma_push_no_duplicates<A>(s: Seq<A>, x: A)
    requires
        s.no_duplicates(),
        !s.contains(x),
    ensures
        s.push(x).no_duplicates(),
{
    let t = s.push(x);
    assert forall|i: int, j: int| 0 <= i < t.len() && 0 <= j < t.len() && i != j implies t[i]
        != t[j] by {
        if i < s.len() && j < s.len() {
            assert(s[i] != s[j]);
        } else if i < s.len() {
            assert(s.contains(s[i]));
        } else {
            assert(s.contains(s[j]));
        }
    }
}

/// A finite set of locations.
#[derive(Debug)]
pub struct Coverage {
    items: Vec<Location>,
}

impl View for Coverage {
    type V = Set<Location>;

    closed spec fn view(&self) -> Set<Location> {
        self.items@.to_set()
    }
}

impl Clone for Coverage {
    fn clone(&self) -> (r: Self)
        ensures
            r@ == self@,
    {
        proof {
            use_type_invariant(self);
        }
        Coverage { items: self.items() }
    }
}

impl Coverage {
    /// No location is recorded twice.
    #[verifier::type_invariant]
    spec fn inv(self) -> bool {
        self.items@.no_duplicates()
    }

    /// Every coverage is a finite set.
    pub proof fn lemma_finite(&self)
        ensures
            self@.finite(),
    {
        vstd::seq_lib::seq_to_set_is_finite(self.items@);
    }

    /// The empty coverage.
    pub fn new() -> (r: Self)
        ensures
            r@ == Set::<Location>::empty(),
    {
        let r = Coverage { items: Vec::new() };
        assert(r.items@.to_set() =~= Set::<Location>::empty());
        r
    }

    /// The coverage that holds the given locations.
    pub fn from_slice(locations: &[Location]) -> (r: Self)
        ensures
            r@ == locations@.to_set(),
    {
        let mut r = Coverage::new();
        let mut i: usize = 0;
        assert(locations@.subrange(0, 0).to_set() =~= Set::<Location>::empty());
        while i < locations.len()
            invariant
                i <= locations@.len(),
                r@ == locations@.subrange(0, i as int).to_set(),
            decreases locations@.len() - i,
        {
            proof {
                let before = locations@.subrange(0, i as int);
                lemma_push_to_set(before, locations@[i as int]);
                assert(locations@.subrange(0, i as int + 1) =~= before.push(locations@[i as int]));
            }
            r.insert(locations[i]);
            i += 1;
        }
        assert(locations@.subrange(0, i as int) =~= locations@);
        r
    }

    /// Tells whether the location is covered.
    pub fn contains(&self, location: Location) -> (b: bool)
        ensures
            b == self@.contains(location),
    {
        let mut i: usize = 0;
        while i < self.items.len()
            invariant
                i <= self.items.len(),
                forall|j: int| 0 <= j < i ==> self.items@[j] != location,
            decreases self.items.len() - i,
        {
            if self.items[i] == location {
                assert(self.items@.contains(location));
                return true;
            }
            i += 1;
        }
        false
    }

    /// Adds a location; tells whether it was new.
    pub fn insert(&mut self, location: Location) -> (added: bool)
        ensures
            final(self)@ == old(self)@.insert(location),
            added == !old(self)@.contains(location),
    {
        proof {
            use_type_invariant(&*self);
        }
        if self.contains(location) {
            assert(self@ =~= self@.insert(location));
            false
        } else {
            let mut items = self.items();
            proof {
                lemma_push_no_duplicates(items@, location);
                lemma_push_to_set(items@, location);
            }
            items.push(location);
            self.items = items;
            true
        }
    }

    /// Number of locations covered.
    pub fn len(&self) -> (n: usize)
        ensures
            n == self@.len(),
            self@.finite(),
    {
        proof {
            use_type_invariant(self);
            self.items@.unique_seq_to_set();
            self.lemma_finite();
        }
        self.items.len()
    }

    /// Tells whether nothing is covered.
    pub fn is_empty(&self) -> (b: bool)
        ensures
            b == (self@ == Set::<Location>::empty()),
    {
        proof {
            if self.items@.len() > 0 {
                assert(self.items@.to_set().contains(self.items@[0]));
            } else {
                assert(self.items@.to_set() =~= Set::<Location>::empty());
            }
        }
        self.items.len() == 0
    }

    /// Adds every location of `other`.
    pub fn extend(&mut self, other: &Coverage)
        ensures
            final(self)@ == old(self)@.union(other@),
    {
        let mut i: usize = 0;
        assert(self@ =~= old(self)@.union(other.items@.subrange(0, 0).to_set()));
        while i < other.items.len()
            invariant
                i <= other.items.len(),
                self@ == old(self)@.union(other.items@.subrange(0, i as int).to_set()),
            decreases other.items.len() - i,
        {
            proof {
                let before = other.items@.subrange(0, i as int);
                let x = other.items@[i as int];
                lemma_push_to_set(before, x);
                assert(other.items@.subrange(0, i as int + 1) =~= before.push(x));
                assert(old(self)@.union(before.to_set()).insert(x) =~= old(self)@.union(
                    before.to_set().insert(x),
                ));
            }
            self.insert(other.items[i]);
            i += 1;
        }
        assert(other.items@.subrange(0, i as int) =~= other.items@);
    }

    /// Tells whether every location of `self` is in `other`.
    pub fn is_subset_of(&self, other: &Coverage) -> (b: bool)
        ensures
            b == self@.subset_of(other@),
    {
        let mut i: usize = 0;
        while i < self.items.len()
            invariant
                i <= self.items.len(),
                forall|j: int| 0 <= j < i ==> other@.contains(self.items@[j]),
            decreases self.items.len() - i,
        {
            if !other.contains(self.items[i]) {
                assert(self@.contains(self.items@[i as int]));
                return false;
            }
            i += 1;
        }
        assert forall|x: Location| self@.contains(x) implies other@.contains(x) by {
            let j = choose|j: int| 0 <= j < self.items@.len() && self.items@[j] == x;
            assert(other@.contains(self.items@[j]));
        }
        true
    }

    /// Tells whether the two coverages hold the same locations.
    pub fn same(&self, other: &Coverage) -> (b: bool)
        ensures
            b == (self@ == other@),
    {
        let b = self.is_subset_of(other) && other.is_subset_of(self);
        proof {
            if b {
                assert(self@ =~= other@);
            }
        }
        b
    }

    /// A copy of the recorded locations.
    fn items(&self) -> (r: Vec<Location>)
        ensures
            r@ == self.items@,
    {
        let mut r: Vec<Location> = Vec::new();
        let mut i: usize = 0;
        while i < self.items.len()
            invariant
                i <= self.items.len(),
                r@ == self.items@.subrange(0, i as int),
            decreases self.items.len() - i,
        {
            r.push(self.items[i]);
            assert(r@ =~= self.items@.subrange(0, i as int + 1));
            i += 1;
        }
        assert(r@ =~= self.items@);
        r
    }

    /// The locations, each once, in the order in which they were recorded.
    pub fn to_vec(&self) -> (r: Vec<Location>)
        ensures
            r@.to_set() == self@,
            r@.no_duplicates(),
    {
        proof {
            use_type_invariant(self);
        }
        self.items()
    }
}

/// A union is at least as large as its first part.
pub proof fn lemma_union_grows(a: Set<Location>, b: Set<Location>)
    requires
        a.finite(),
        b.finite(),
    ensures
        a.union(b).finite(),
        a.len() <= a.union(b).len(),
{
    vstd::set_lib::lemma_len_subset(a, a.union(b));
}

} // verus!
