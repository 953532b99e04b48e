//! String helpers shared by the grammar modules: symbol naming conventions,
//! joining, padding and decimal numerals, each with its exact result stated
//! over sequences of characters.

use vstd::prelude::*;
use vstd::string::*;

verus! {

/// A symbol names a nonterminal when it starts with `<` and ends with `>`.
pub open spec fn is_nonterminal_spec(s: Seq<char>) -> bool {
    s.len() >= 1 && s[0] == '<' && s[s.len() - 1] == '>'
}

/// `s` without its leading `<` characters.
pub open spec fn strip_leading_spec(s: Seq<char>) -> Seq<char>
    decreases s.len(),
{
    if s.len() > 0 && s[0] == '<' {
        strip_leading_spec(s.subrange(1, s.len() as int))
    } else {
        s
    }
}

/// `s` without its trailing `>` characters.
pub open spec fn strip_trailing_spec(s: Seq<char>) -> Seq<char>
    decreases s.len(),
{
    if s.len() > 0 && s[s.len() - 1] == '>' {
        strip_trailing_spec(s.subrange(0, s.len() - 1))
    } else {
        s
    }
}

/// `s` without any leading `<` and, after that, without any trailing `>`.
pub open spec fn trim_angle_brackets_spec(s: Seq<char>) -> Seq<char> {
    strip_trailing_spec(strip_leading_spec(s))
}

/// `name` between angle brackets.
pub open spec fn bracketed_spec(name: Seq<char>) -> Seq<char> {
    seq!['<'] + name + seq!['>']
}

/// `text` between double quotes.
pub open spec fn quoted_spec(text: Seq<char>) -> Seq<char> {
    seq!['"'] + text + seq!['"']
}

/// The character of the decimal digit `d`.
pub open spec fn digit_char_spec(d: nat) -> char {
    ((48 + d) as u8) as char
}

/// The decimal numeral of `n`, without leading zeros.
pub open spec fn decimal_spec(n: nat) -> Seq<char>
    decreases n,
{
    if n < 10 {
        seq![digit_char_spec(n)]
    } else {
        decimal_spec(n / 10).push(digit_char_spec(n % 10))
    }
}

/// The parts in order, with `sep` between each two neighbours.
pub open spec fn join_spec(parts: Seq<Seq<char>>, sep: Seq<char>) -> Seq<char>
    decreases parts.len(),
{
    if parts.len() == 0 {
        Seq::empty()
    } else if parts.len() == 1 {
        parts[0]
    } else {
        join_spec(parts.drop_last(), sep) + sep + parts.last()
    }
}

/// The parts in order, with nothing between them.
pub open spec fn concat_spec(parts: Seq<Seq<char>>) -> Seq<char>
    decreases parts.len(),
{
    if parts.len() == 0 {
        Seq::empty()
    } else {
        concat_spec(parts.drop_last()) + parts.last()
    }
}

/// `n` spaces.
pub open spec fn spaces_spec(n: nat) -> Seq<char> {
    Seq::new(n, |i: int| ' ')
}

/// `s` followed by as many spaces as it takes to reach `width` characters.
pub open spec fn pad_right_spec(s: Seq<char>, width: nat) -> Seq<char> {
    if s.len() >= width {
        s
    } else {
        s + spaces_spec((width - s.len()) as nat)
    }
}

/// Appends one character. Wraps `String::push`, which adds the given
/// character to the end of the string.
#[verifier::external_body]
pub(crate) fn push_char(s: &mut String, c: char)
    ensures
        final(s)@ == old(s)@.push(c),
{
    s.push(c)
}

/// Reads bytes as UTF-8 text. Wraps `String::from_utf8`, which succeeds
/// exactly on well-formed UTF-8 and then yields the string whose UTF-8
/// bytes are the given ones.
#[verifier::external_body]
pub(crate) fn string_from_utf8(bytes: Vec<u8>) -> (r: Option<String>)
    ensures
        r.is_some() == vstd::utf8::valid_utf8(bytes@),
        r matches Some(s) ==> vstd::utf8::encode_utf8(s@) == bytes@,
{
    match String::from_utf8(bytes) {
        Ok(s) => Some(s),
        Err(_) => None,
    }
}

/// Compares two string slices character by character.
pub fn str_eq(a: &str, b: &str) -> (r: bool)
    ensures
        r == (a@ == b@),
{
    let x = String::from_str(a);
    let y = String::from_str(b);
    x == y
}

/// Tells whether a symbol names a nonterminal.
pub fn is_nonterminal(s: &str) -> (b: bool)
    ensures
        b == is_nonterminal_spec(s@),
{
    let n = s.unicode_len();
    if n == 0 {
        return false;
    }
    s.get_char(0) == '<' && s.get_char(n - 1) == '>'
}

/// Removes every leading `<` and then every trailing `>`.
pub fn trim_angle_brackets(s: &str) -> (r: &str)
    ensures
        r@ == trim_angle_brackets_spec(s@),
{
    let n = s.unicode_len();
    let mut from: usize = 0;
    assert(s@.subrange(0, n as int) =~= s@);
    while from < n && s.get_char(from) == '<'
        invariant
            from <= n == s@.len(),
            strip_leading_spec(s@) == strip_leading_spec(s@.subrange(from as int, n as int)),
        decreases n - from,
    {
        proof {
            let cur = s@.subrange(from as int, n as int);
            assert(cur[0] == s@[from as int]);
            assert(cur.subrange(1, cur.len() as int) =~= s@.subrange(from as int + 1, n as int));
        }
        from += 1;
    }
    let ghost mid = s@.subrange(from as int, n as int);
    proof {
        if from < n {
            assert(mid[0] == s@[from as int]);
        }
        assert(strip_leading_spec(s@) == mid);
    }
    let mut to: usize = n;
    while to > from && s.get_char(to - 1) == '>'
        invariant
            from <= to <= n == s@.len(),
            mid == s@.subrange(from as int, n as int),
            strip_trailing_spec(mid) == strip_trailing_spec(s@.subrange(from as int, to as int)),
        decreases to - from,
    {
        proof {
            let cur = s@.subrange(from as int, to as int);
            assert(cur[cur.len() - 1] == s@[to - 1]);
            assert(cur.subrange(0, cur.len() - 1) =~= s@.subrange(from as int, to - 1));
        }
        to -= 1;
    }
    proof {
        let cur = s@.subrange(from as int, to as int);
        if to > from {
            assert(cur[cur.len() - 1] == s@[to - 1]);
        }
        assert(strip_trailing_spec(mid) == cur);
    }
    s.substring_char(from, to)
}

/// Puts a name between angle brackets.
pub fn bracketed(name: &str) -> (r: String)
    ensures
        r@ == bracketed_spec(name@),
{
    let mut r = String::new();
    push_char(&mut r, '<');
    r.append(name);
    push_char(&mut r, '>');
    assert(r@ =~= bracketed_spec(name@));
    r
}

/// Puts a text between double quotes.
pub fn quoted(text: &str) -> (r: String)
    ensures
        r@ == quoted_spec(text@),
{
    let mut r = String::new();
    push_char(&mut r, '"');
    r.append(text);
    push_char(&mut r, '"');
    assert(r@ =~= quoted_spec(text@));
    r
}

/// Appends the decimal numeral of `n` to `out`.
pub fn push_decimal(out: &mut String, n: u64)
    ensures
        final(out)@ == old(out)@ + decimal_spec(n as nat),
    decreases n,
{
    if n >= 10 {
        push_decimal(out, n / 10);
    }
    let d = (n % 10) as u8;
    push_char(out, (48u8 + d) as char);
    assert(final(out)@ =~= old(out)@ + decimal_spec(n as nat));
}

/// The decimal numeral of `n`.
pub fn decimal(n: u64) -> (r: String)
    ensures
        r@ == decimal_spec(n as nat),
{
    let mut r = String::new();
    push_decimal(&mut r, n);
    assert(r@ =~= decimal_spec(n as nat));
    r
}

/// Joins the parts with a separator between each two neighbours.
pub fn join(parts: &Vec<String>, sep: &str) -> (r: String)
    ensures
        r@ == join_spec(parts.deep_view(), sep@),
{
    let mut r = String::new();
    let mut i: usize = 0;
    while i < parts.len()
        invariant
            i <= parts.len(),
            r@ == join_spec(parts.deep_view().subrange(0, i as int), sep@),
        decreases parts.len() - i,
    {
        let ghost before = parts.deep_view().subrange(0, i as int);
        let ghost after = parts.deep_view().subrange(0, i as int + 1);
        assert(after.drop_last() =~= before);
        assert(after.last() == parts[i as int]@);
        if i > 0 {
            r.append(sep);
        }
        r.append(parts[i].as_str());
        assert(r@ =~= join_spec(after, sep@));
        i += 1;
    }
    assert(parts.deep_view().subrange(0, i as int) =~= parts.deep_view());
    r
}

/// Concatenates the parts.
pub fn concat(parts: &Vec<String>) -> (r: String)
    ensures
        r@ == concat_spec(parts.deep_view()),
{
    let mut r = String::new();
    let mut i: usize = 0;
    while i < parts.len()
        invariant
            i <= parts.len(),
            r@ == concat_spec(parts.deep_view().subrange(0, i as int)),
        decreases parts.len() - i,
    {
        let ghost before = parts.deep_view().subrange(0, i as int);
        let ghost after = parts.deep_view().subrange(0, i as int + 1);
        assert(after.drop_last() =~= before);
        assert(after.last() == parts[i as int]@);
        r.append(parts[i].as_str());
        i += 1;
    }
    assert(parts.deep_view().subrange(0, i as int) =~= parts.deep_view());
    r
}

/// Pads `s` on the right with spaces up to `width` characters.
pub fn pad_right(s: &str, width: usize) -> (r: String)
    ensures
        r@ == pad_right_spec(s@, width as nat),
{
    let mut r = String::from_str(s);
    let n = s.unicode_len();
    let mut i: usize = n;
    assert(r@ =~= s@ + spaces_spec(0));
    while i < width
        invariant
            n == s@.len(),
            n <= i,
            n < width ==> i <= width,
            n >= width ==> i == n,
            r@ == s@ + spaces_spec((i - n) as nat),
        decreases width - i,
    {
        push_char(&mut r, ' ');
        i += 1;
        assert(r@ =~= s@ + spaces_spec((i - n) as nat));
    }
    proof {
        if n >= width {
            assert(r@ =~= s@);
        }
    }
    r
}

} // verus!
