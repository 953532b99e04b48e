//! Fuzzing inputs: sequences of bytes, compared byte by byte, that can be
//! read as UTF-8 text for display.

use vstd::prelude::*;
use vstd::string::*;
use vstd::utf8::{encode_utf8, valid_utf8};
use crate::text::string_from_utf8;

verus! {

/// No byte of `s` is zero.
pub open spec fn null_free(s: Seq<u8>) -> bool {
    forall|i: int| 0 <= i < s.len() ==> s[i] != 0
}

/// `s` without its zero bytes, the others in their order.
pub open spec fn without_nulls_spec(s: Seq<u8>) -> Seq<u8>
    decreases s.len(),
{
    if s.len() == 0 {
        s
    } else if s.last() == 0 {
        without_nulls_spec(s.drop_last())
    } else {
        without_nulls_spec(s.drop_last()).push(s.last())
    }
}

/// What is left without the zero bytes holds none and is no longer; an
/// input that holds none is left as it is.
pub proof fn lemma_without_nulls(s: Seq<u8>)
    ensures
        null_free(without_nulls_spec(s)),
        without_nulls_spec(s).len() <= s.len(),
        null_free(s) ==> without_nulls_spec(s) == s,
    decreases s.len(),
{
    if s.len() > 0 {
        lemma_without_nulls(s.drop_last());
        if null_free(s) {
            assert(null_free(s.drop_last()));
            assert(s.drop_last().push(s.last()) =~= s);
        }
    }
}

/// Copies a vector of bytes.
pub fn clone_bytes(v: &Vec<u8>) -> (r: Vec<u8>)
    ensures
        r@ == v@,
{
    let mut r: Vec<u8> = Vec::new();
    let mut i: usize = 0;
    while i < v.len()
        invariant
            i <= v.len(),
            r@ == v@.subrange(0, i as int),
        decreases v.len() - i,
    {
        r.push(v[i]);
        assert(r@ =~= v@.subrange(0, i as int + 1));
        i += 1;
    }
    assert(v@.subrange(0, i as int) =~= v@);
    r
}

/// Compares two vectors of bytes.
pub fn bytes_eq(a: &Vec<u8>, b: &Vec<u8>) -> (r: bool)
    ensures
        r == (a@ == b@),
{
    if a.len() != b.len() {
        return false;
    }
    let mut i: usize = 0;
    while i < a.len()
        invariant
            i <= a.len(),
            a.len() == b.len(),
            forall|j: int| 0 <= j < i ==> a@[j] == b@[j],
        decreases a.len() - i,
    {
        if a[i] != b[i] {
            return false;
        }
        i += 1;
    }
    assert(a@ =~= b@);
    true
}

/// Tells whether some byte is zero.
pub fn has_null(v: &Vec<u8>) -> (r: bool)
    ensures
        r == !null_free(v@),
{
    let mut i: usize = 0;
    while i < v.len()
        invariant
            i <= v.len(),
            forall|j: int| 0 <= j < i ==> v@[j] != 0,
        decreases v.len() - i,
    {
        if v[i] == 0 {
            return true;
        }
        i += 1;
    }
    false
}

/// An input for the program under test.
#[derive(Debug, PartialEq, Eq, PartialOrd, Ord, Hash)]
pub struct Input(pub Vec<u8>);

impl View for Input {
    type V = Seq<u8>;

    open spec fn view(&self) -> Seq<u8> {
        self.0@
    }
}

impl Clone for Input {
    fn clone(&self) -> (r: Self)
        ensures
            r@ == self@,
    {
        Input(clone_bytes(&self.0))
    }
}

impl Input {
    /// The input that holds the UTF-8 bytes of `s`.
    pub fn from_str(s: &str) -> (r: Self)
        ensures
            r@ == s.spec_bytes(),
    {
        Input(s.as_bytes_vec())
    }

    /// Number of bytes.
    pub fn len(&self) -> (n: usize)
        ensures
            n == self@.len(),
    {
        self.0.len()
    }

    /// Tells whether the input has no bytes.
    pub fn is_empty(&self) -> (b: bool)
        ensures
            b == (self@.len() == 0),
    {
        self.0.len() == 0
    }

    /// Tells whether the two inputs hold the same bytes.
    pub fn same(&self, other: &Input) -> (b: bool)
        ensures
            b == (self@ == other@),
    {
        bytes_eq(&self.0, &other.0)
    }

    /// Tells whether the input holds a zero byte, which cannot be passed
    /// to a program on its command line.
    pub fn contains_null(&self) -> (b: bool)
        ensures
            b == !null_free(self@),
    {
        has_null(&self.0)
    }

    /// A copy of the input without its zero bytes.
    pub fn without_nulls(&self) -> (r: Input)
        ensures
            r@ == without_nulls_spec(self@),
            null_free(r@),
            r@.len() <= self@.len(),
            null_free(self@) ==> r@ == self@,
    {
        let mut kept: Vec<u8> = Vec::new();
        let mut i: usize = 0;
        assert(self.0@.subrange(0, 0) =~= Seq::<u8>::empty());
        while i < self.0.len()
            invariant
                i <= self.0.len(),
                kept@ == without_nulls_spec(self.0@.subrange(0, i as int)),
            decreases self.0.len() - i,
        {
            let ghost next = self.0@.subrange(0, i as int + 1);
            assert(next.drop_last() =~= self.0@.subrange(0, i as int));
            assert(next.last() == self.0@[i as int]);
            if self.0[i] != 0 {
                kept.push(self.0[i]);
            }
            i += 1;
        }
        proof {
            assert(self.0@.subrange(0, i as int) =~= self.0@);
            lemma_without_nulls(self.0@);
        }
        Input(kept)
    }

    /// The input as text, where its bytes are well-formed UTF-8.
    pub fn to_text(&self) -> (r: Option<String>)
        ensures
            r.is_some() == valid_utf8(self@),
            r matches Some(s) ==> encode_utf8(s@) == self@,
    {
        string_from_utf8(clone_bytes(&self.0))
    }

    /// The input as text. The bytes have to be well-formed UTF-8.
    pub fn to_string(&self) -> (r: String)
        requires
            valid_utf8(self@),
        ensures
            encode_utf8(r@) == self@,
    {
        match self.to_text() {
            Some(s) => s,
            None => String::new(),
        }
    }
}

/// A sequence of bytes that a fuzzer produced.
#[derive(Debug, PartialEq, Eq, PartialOrd, Ord, Hash)]
pub struct Bytes(pub Vec<u8>);

impl View for Bytes {
    type V = Seq<u8>;

    open spec fn view(&self) -> Seq<u8> {
        self.0@
    }
}

impl Clone for Bytes {
    fn clone(&self) -> (r: Self)
        ensures
            r@ == self@,
    {
        Bytes(clone_bytes(&self.0))
    }
}

impl Bytes {
    /// The bytes of the UTF-8 encoding of `s`.
    pub fn from_str(s: &str) -> (r: Self)
        ensures
            r@ == s.spec_bytes(),
    {
        Bytes(s.as_bytes_vec())
    }

    /// The same bytes as an input.
    pub fn into_input(self) -> (r: Input)
        ensures
            r@ == self@,
    {
        Input(self.0)
    }

    /// The bytes of an input.
    pub fn from_input(input: Input) -> (r: Self)
        ensures
            r@ == input@,
    {
        Bytes(input.0)
    }

    /// The bytes as text, where they are well-formed UTF-8.
    pub fn to_text(&self) -> (r: Option<String>)
        ensures
            r.is_some() == valid_utf8(self@),
            r matches Some(s) ==> encode_utf8(s@) == self@,
    {
        string_from_utf8(clone_bytes(&self.0))
    }
}

} // verus!
