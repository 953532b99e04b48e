//! Byte-level mutation operators.
//!
//! Each operator is a function of the generator's state and the input: the
//! contracts give the mutated input and the state that follows exactly, and
//! with them the length of the result.

use vstd::prelude::*;
use crate::input::{null_free, Input};
use crate::rng::Rng;

verus! {

/// The byte with only the bit number `k` set.
pub open spec fn bit_mask(k: u64) -> u8 {
    1u8 << (k as u8)
}

/// The position that the next draw picks in a sequence of `len` places.
pub open spec fn drawn_position(rng: Rng, len: nat) -> int {
    (rng.output() % (len as u64)) as int
}

/// The printable ASCII character that the next draw picks: one from the
/// blank, `0x20`, to the tilde, `0x7E`.
pub open spec fn drawn_character(rng: Rng) -> u8 {
    rng.range_value(0x20, 0x7F) as u8
}

/// Result of inserting a random printable character at a random position:
/// the first draw picks the position among `len + 1`, the second the
/// character.
pub open spec fn insert_spec(rng: Rng, s: Seq<u8>) -> Seq<u8> {
    s.insert(drawn_position(rng, s.len() + 1), drawn_character(rng.step()))
}

/// Result of deleting the byte at a random position; an empty input stays
/// as it is.
pub open spec fn delete_spec(rng: Rng, s: Seq<u8>) -> Seq<u8> {
    if s.len() == 0 {
        s
    } else {
        s.remove(drawn_position(rng, s.len()))
    }
}

/// Result of flipping a random one of the lower seven bits of the byte at
/// a random position: the first draw picks the position, the second the
/// bit.
pub open spec fn flip_spec(rng: Rng, s: Seq<u8>) -> Seq<u8> {
    let pos = drawn_position(rng, s.len());
    s.update(pos, s[pos] ^ bit_mask(rng.step().output() % 7))
}

/// The bit that the safe flip uses: the drawn bit, unless flipping it
/// would leave a zero byte; then another bit, which a third draw picks
/// among the six others.
pub open spec fn safe_bit(rng: Rng, s: Seq<u8>) -> u64 {
    let pos = drawn_position(rng, s.len());
    let k = rng.step().output() % 7;
    if s[pos] ^ bit_mask(k) != 0 {
        k
    } else {
        ((k + 1 + rng.step().step().output() % 6) % 7) as u64
    }
}

/// Result of the safe flip: as `flip_spec`, with the bit of `safe_bit`.
pub open spec fn flip_nonnull_spec(rng: Rng, s: Seq<u8>) -> Seq<u8> {
    let pos = drawn_position(rng, s.len());
    s.update(pos, s[pos] ^ bit_mask(safe_bit(rng, s)))
}

/// Number of draws that the safe flip takes.
pub open spec fn flip_nonnull_draws(rng: Rng, s: Seq<u8>) -> nat {
    let pos = drawn_position(rng, s.len());
    let k = rng.step().output() % 7;
    if s[pos] ^ bit_mask(k) != 0 {
        2
    } else {
        3
    }
}

/// Result of one mutation: the first draw picks the operator (delete,
/// insert, flip a bit); flipping a bit of an empty input inserts instead.
pub open spec fn mutate_spec(rng: Rng, s: Seq<u8>) -> Seq<u8> {
    let op = rng.output() % 3;
    if op == 0 {
        delete_spec(rng.step(), s)
    } else if op == 1 || s.len() == 0 {
        insert_spec(rng.step(), s)
    } else {
        flip_spec(rng.step(), s)
    }
}

/// The generator after one mutation.
pub open spec fn mutate_rng(rng: Rng, s: Seq<u8>) -> Rng {
    let op = rng.output() % 3;
    if op == 0 {
        if s.len() == 0 {
            rng.step()
        } else {
            rng.advance(2)
        }
    } else {
        rng.advance(3)
    }
}

/// Result of one safe mutation: as `mutate_spec`, with the safe flip.
pub open spec fn mutate_nonnull_spec(rng: Rng, s: Seq<u8>) -> Seq<u8> {
    let op = rng.output() % 3;
    if op == 0 {
        delete_spec(rng.step(), s)
    } else if op == 1 || s.len() == 0 {
        insert_spec(rng.step(), s)
    } else {
        flip_nonnull_spec(rng.step(), s)
    }
}

/// The generator after one safe mutation.
pub open spec fn mutate_nonnull_rng(rng: Rng, s: Seq<u8>) -> Rng {
    let op = rng.output() % 3;
    if op == 0 {
        if s.len() == 0 {
            rng.step()
        } else {
            rng.advance(2)
        }
    } else if op == 1 || s.len() == 0 {
        rng.advance(3)
    } else {
        rng.advance(1 + flip_nonnull_draws(rng.step(), s))
    }
}

/// Result of `n` safe mutations, one after the other.
pub open spec fn mutate_nonnull_times(rng: Rng, s: Seq<u8>, n: nat) -> (Seq<u8>, Rng)
    decreases n,
{
    if n == 0 {
        (s, rng)
    } else {
        let (t, r) = mutate_nonnull_times(rng, s, (n - 1) as nat);
        (mutate_nonnull_spec(r, t), mutate_nonnull_rng(r, t))
    }
}

/// Result of `n` mutations, one after the other.
pub open spec fn mutate_times(rng: Rng, s: Seq<u8>, n: nat) -> (Seq<u8>, Rng)
    decreases n,
{
    if n == 0 {
        (s, rng)
    } else {
        let (t, r) = mutate_times(rng, s, (n - 1) as nat);
        (mutate_spec(r, t), mutate_rng(r, t))
    }
}

/// Two draws are a draw after a draw, three are a draw after two.
pub proof fn lemma_advance_small(rng: Rng)
    ensures
        rng.advance(0) == rng,
        rng.advance(1) == rng.step(),
        rng.advance(2) == rng.step().step(),
        rng.advance(3) == rng.step().step().step(),
        rng.step().advance(1) == rng.advance(2),
        rng.step().advance(2) == rng.advance(3),
        rng.step().advance(3) == rng.advance(4),
{
    assert(rng.advance(0) == rng);
    assert(rng.advance(1) == rng.advance(0).step());
    assert(rng.advance(2) == rng.advance(1).step());
    assert(rng.advance(3) == rng.advance(2).step());
    assert(rng.advance(4) == rng.advance(3).step());
    let r = rng.step();
    assert(r.advance(0) == r);
    assert(r.advance(1) == r.advance(0).step());
    assert(r.advance(2) == r.advance(1).step());
    assert(r.advance(3) == r.advance(2).step());
}

/// A byte that one flipped bit turns into zero is not turned into zero by
/// flipping another bit instead.
pub proof fn lemma_other_bit(b: u8, k: u8, m: u8)
    requires
        k < 8,
        m < 8,
        k != m,
        b ^ (1u8 << k) == 0,
    ensures
        b ^ (1u8 << m) != 0,
{
    assert(k < 8 && m < 8 && k != m && b ^ (1u8 << k) == 0 ==> b ^ (1u8 << m) != 0)
        by (bit_vector);
}

/// Inserts the byte `b` before the position `pos`.
pub fn insert_at(s: Input, pos: usize, b: u8) -> (r: Input)
    requires
        pos <= s@.len(),
    ensures
        r@ == s@.insert(pos as int, b),
        r@.len() == s@.len() + 1,
{
    let mut s = s;
    s.0.insert(pos, b);
    s
}

/// Deletes the byte at the position `pos`.
pub fn delete_at(s: Input, pos: usize) -> (r: Input)
    requires
        pos < s@.len(),
    ensures
        r@ == s@.remove(pos as int),
        r@.len() == s@.len() - 1,
{
    let mut s = s;
    s.0.remove(pos);
    s
}

/// Flips the bit number `bit` of the byte at the position `pos`.
pub fn flip_bit_at(s: Input, pos: usize, bit: u8) -> (r: Input)
    requires
        pos < s@.len(),
        bit < 8,
    ensures
        r@ == s@.update(pos as int, s@[pos as int] ^ (1u8 << bit)),
        r@.len() == s@.len(),
{
    let mut s = s;
    let b = s.0[pos];
    s.0.set(pos, b ^ (1u8 << bit));
    s
}

/// Inserts a random printable ASCII character at a random position: the
/// result is one byte longer, the new byte lies between `0x20` and `0x7E`,
/// and without it the result is the input again.
pub fn insert_random_character(rng: &mut Rng, s: Input) -> (r: Input)
    requires
        s@.len() < usize::MAX,
    ensures
        r@ == insert_spec(*old(rng), s@),
        r@.len() == s@.len() + 1,
        0 <= drawn_position(*old(rng), s@.len() + 1) <= s@.len(),
        0x20 <= r@[drawn_position(*old(rng), s@.len() + 1)] <= 0x7E,
        r@.remove(drawn_position(*old(rng), s@.len() + 1)) == s@,
        null_free(s@) ==> null_free(r@),
        *final(rng) == old(rng).advance(2),
{
    let ghost before = s@;
    let pos = rng.index(s.0.len() + 1);
    let chr = rng.range(0x20, 0x7F) as u8;
    let s = insert_at(s, pos, chr);
    proof {
        assert(s@.remove(pos as int) =~= before);
        lemma_advance_small(*old(rng));
        if null_free(before) {
            assert forall|i: int| 0 <= i < s@.len() implies s@[i] != 0 by {
                if i < pos {
                    assert(s@[i] == before[i]);
                } else if i > pos {
                    assert(s@[i] == before[i - 1]);
                }
            }
        }
    }
    s
}

/// Deletes the byte at a random position. An empty input is returned as
/// it is, without a draw.
pub fn delete_random_character(rng: &mut Rng, s: Input) -> (r: Input)
    ensures
        r@ == delete_spec(*old(rng), s@),
        s@.len() == 0 ==> r@.len() == 0 && *final(rng) == *old(rng),
        s@.len() > 0 ==> r@.len() == s@.len() - 1 && *final(rng) == old(rng).step(),
        null_free(s@) ==> null_free(r@),
{
    let mut s = s;
    if s.0.len() == 0 {
        s
    } else {
        let ghost before = s@;
        let pos = rng.index(s.0.len());
        let s = delete_at(s, pos);
        proof {
            if null_free(before) {
                assert forall|i: int| 0 <= i < s@.len() implies s@[i] != 0 by {
                    if i < pos {
                        assert(s@[i] == before[i]);
                    } else {
                        assert(s@[i] == before[i + 1]);
                    }
                }
            }
        }
        s
    }
}

/// Flips a random one of the lower seven bits of the byte at a random
/// position. The input must not be empty.
pub fn flip_random_bit(rng: &mut Rng, s: Input) -> (r: Input)
    requires
        s@.len() > 0,
    ensures
        r@ == flip_spec(*old(rng), s@),
        r@.len() == s@.len(),
        *final(rng) == old(rng).advance(2),
{
    let pos = rng.index(s.0.len());
    let k = rng.below(7);
    proof {
        lemma_advance_small(*old(rng));
    }
    flip_bit_at(s, pos, k as u8)
}

/// Flips a random one of the lower seven bits of the byte at a random
/// position, and never leaves a zero byte there: where the drawn bit would,
/// another bit is drawn in its place. The input must not be empty.
pub fn flip_random_bit_nonnull(rng: &mut Rng, s: Input) -> (r: Input)
    requires
        s@.len() > 0,
    ensures
        r@ == flip_nonnull_spec(*old(rng), s@),
        r@.len() == s@.len(),
        r@[drawn_position(*old(rng), s@.len())] != 0,
        null_free(s@) ==> null_free(r@),
        *final(rng) == old(rng).advance(flip_nonnull_draws(*old(rng), s@)),
{
    let mut s = s;
    let ghost before = s@;
    let pos = rng.index(s.0.len());
    let k = rng.below(7);
    let b = s.0[pos];
    let bit: u8 = 1u8 << (k as u8);
    proof {
        lemma_advance_small(*old(rng));
    }
    if b ^ bit != 0 {
        s.0.set(pos, b ^ bit);
    } else {
        let shift = rng.below(6);
        let m = (k + 1 + shift) % 7;
        let other: u8 = 1u8 << (m as u8);
        proof {
            lemma_other_bit(b, k as u8, m as u8);
        }
        s.0.set(pos, b ^ other);
    }
    proof {
        if null_free(before) {
            assert forall|i: int| 0 <= i < s@.len() implies s@[i] != 0 by {
                if i != pos {
                    assert(s@[i] == before[i]);
                }
            }
        }
    }
    s
}

/// Applies one mutation, chosen with the same weight among deleting a
/// byte, inserting a character and flipping a bit. A bit cannot be flipped
/// in an empty input: a character is inserted instead.
pub fn mutate(rng: &mut Rng, s: Input) -> (r: Input)
    requires
        s@.len() < usize::MAX,
    ensures
        r@ == mutate_spec(*old(rng), s@),
        *final(rng) == mutate_rng(*old(rng), s@),
        s@.len() - 1 <= r@.len() <= s@.len() + 1,
{
    proof {
        lemma_advance_small(*old(rng));
    }
    let op = rng.below(3);
    if op == 0 {
        delete_random_character(rng, s)
    } else if op == 1 || s.0.len() == 0 {
        insert_random_character(rng, s)
    } else {
        flip_random_bit(rng, s)
    }
}

/// Applies up to `trials` mutations, one after the other; with `nonnull`,
/// mutations that keep an input free of zero bytes. Stops early only when
/// the input has reached the greatest length that a vector can have. Each
/// mutation changes the length by one at most, so the result is at most
/// `trials` bytes longer or shorter than the input.
pub fn mutate_repeatedly(rng: &mut Rng, s: Input, trials: u64, nonnull: bool) -> (r: Input)
    ensures
        nonnull ==> exists|n: nat|
            n <= trials && (s@.len() + trials < usize::MAX ==> n == trials) && (r@, *final(rng))
                == #[trigger] mutate_nonnull_times(*old(rng), s@, n),
        !nonnull ==> exists|n: nat|
            n <= trials && (s@.len() + trials < usize::MAX ==> n == trials) && (r@, *final(rng))
                == #[trigger] mutate_times(*old(rng), s@, n),
        nonnull && null_free(s@) ==> null_free(r@),
        r@.len() <= s@.len() + trials,
        s@.len() <= r@.len() + trials,
{
    let mut candidate = s;
    let mut i: u64 = 0;
    while i < trials && candidate.0.len() < usize::MAX
        invariant
            i <= trials,
            candidate@.len() <= s@.len() + i,
            s@.len() <= candidate@.len() + i,
            nonnull && null_free(s@) ==> null_free(candidate@),
            (candidate@, *rng) == (if nonnull {
                mutate_nonnull_times(*old(rng), s@, i as nat)
            } else {
                mutate_times(*old(rng), s@, i as nat)
            }),
        decreases trials - i,
    {
        if nonnull {
            candidate = mutate_nonnull(rng, candidate);
        } else {
            candidate = mutate(rng, candidate);
        }
        i += 1;
    }
    proof {
        if nonnull {
            assert((candidate@, *rng) == mutate_nonnull_times(*old(rng), s@, i as nat));
        } else {
            assert((candidate@, *rng) == mutate_times(*old(rng), s@, i as nat));
        }
    }
    candidate
}

/// Applies one mutation that keeps an input free of zero bytes: as
/// `mutate`, with the safe flip.
pub fn mutate_nonnull(rng: &mut Rng, s: Input) -> (r: Input)
    requires
        s@.len() < usize::MAX,
    ensures
        r@ == mutate_nonnull_spec(*old(rng), s@),
        *final(rng) == mutate_nonnull_rng(*old(rng), s@),
        s@.len() - 1 <= r@.len() <= s@.len() + 1,
        null_free(s@) ==> null_free(r@),
{
    proof {
        lemma_advance_small(*old(rng));
    }
    let op = rng.below(3);
    if op == 0 {
        delete_random_character(rng, s)
    } else if op == 1 || s.0.len() == 0 {
        insert_random_character(rng, s)
    } else {
        let ghost mid = *rng;
        let r = flip_random_bit_nonnull(rng, s);
        proof {
            crate::rng::lemma_advance_add(*old(rng), 1, flip_nonnull_draws(mid, s@));
        }
        r
    }
}

} // verus!
