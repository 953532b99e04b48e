//! Reading the line coverage that `gcov` reports.
//!
//! A report has one line of text per line of source code, of the form
//! `count:number:source`. A count that starts with `-` stands for a line
//! without code, one that starts with `#` for a line that was not executed;
//! any other count marks the line with the given number as covered.

use vstd::prelude::*;
use crate::coverage::{Coverage, Location};

verus! {

/// ASCII white space.
pub open spec fn is_space(b: u8) -> bool {
    b == 32 || (9 <= b && b <= 13)
}

/// The first position from `from` on where `s` holds `b`; the length of
/// `s` where there is none.
pub open spec fn first_index(s: Seq<u8>, from: int, b: u8) -> int
    decreases s.len() - from,
{
    if from < 0 || from >= s.len() {
        s.len() as int
    } else if s[from] == b {
        from
    } else {
        first_index(s, from + 1, b)
    }
}

/// `s` without leading white space.
pub open spec fn trim_start(s: Seq<u8>) -> Seq<u8>
    decreases s.len(),
{
    if s.len() > 0 && is_space(s[0]) {
        trim_start(s.subrange(1, s.len() as int))
    } else {
        s
    }
}

/// `s` without trailing white space.
pub open spec fn trim_end(s: Seq<u8>) -> Seq<u8>
    decreases s.len(),
{
    if s.len() > 0 && is_space(s[s.len() - 1]) {
        trim_end(s.subrange(0, s.len() - 1))
    } else {
        s
    }
}

/// `s` without leading and trailing white space.
pub open spec fn trimmed(s: Seq<u8>) -> Seq<u8> {
    trim_end(trim_start(s))
}

/// The number that the decimal digits `s` write, where `s` is made of one
/// or more digits and the number fits in a `usize`.
pub open spec fn decimal_value(s: Seq<u8>) -> Option<nat>
    decreases s.len(),
{
    if s.len() == 0 {
        None
    } else if !(48 <= s.last() && s.last() <= 57) {
        None
    } else if s.len() == 1 {
        Some((s.last() - 48) as nat)
    } else {
        match decimal_value(s.drop_last()) {
            None => None,
            Some(v) => if v * 10 + (s.last() - 48) <= usize::MAX {
                Some((v * 10 + (s.last() - 48)) as nat)
            } else {
                None
            },
        }
    }
}

/// What one line of a report says.
pub enum LineKind {
    /// The line has no second field, or the second field is no number.
    Malformed,
    /// The line was not executed, or holds no code.
    NotCovered,
    /// The line with this number was executed.
    Covered(nat),
}

/// The first field of a line: what stands before the first colon.
pub open spec fn count_field(line: Seq<u8>) -> Seq<u8> {
    trimmed(line.subrange(0, first_index(line, 0, 58)))
}

/// The second field of a line: what stands between the first colon and
/// the second, or the end of the line.
pub open spec fn number_field(line: Seq<u8>) -> Seq<u8> {
    let c1 = first_index(line, 0, 58);
    trimmed(line.subrange(c1 + 1, first_index(line, c1 + 1, 58)))
}

/// What the line says.
pub open spec fn line_kind(line: Seq<u8>) -> LineKind {
    if first_index(line, 0, 58) >= line.len() {
        LineKind::Malformed
    } else {
        match decimal_value(number_field(line)) {
            None => LineKind::Malformed,
            Some(n) => {
                let count = count_field(line);
                if count.len() > 0 && (count[0] == 45 || count[0] == 35) {
                    LineKind::NotCovered
                } else {
                    LineKind::Covered(n)
                }
            },
        }
    }
}

/// The end of the line that starts at `from`: the position of the next
/// line feed, or the end of the text.
pub open spec fn line_end(s: Seq<u8>, from: int) -> int {
    first_index(s, from, 10)
}

/// A line without the carriage return at its end, if it has one.
pub open spec fn strip_cr(line: Seq<u8>) -> Seq<u8> {
    if line.len() > 0 && line.last() == 13 {
        line.drop_last()
    } else {
        line
    }
}

/// The coverage that the lines of `s` from the position `from` on report,
/// added to `acc`; `None` where one of them is malformed.
pub open spec fn coverage_from(s: Seq<u8>, from: int, acc: Set<Location>) -> Option<Set<Location>>
    decreases s.len() + 1 - from,
{
    if from < 0 || from >= s.len() {
        Some(acc)
    } else {
        let end = line_end(s, from);
        let next = if from <= end && end <= s.len() {
            end + 1
        } else {
            from + 1
        };
        match line_kind(strip_cr(s.subrange(from, end))) {
            LineKind::Malformed => None,
            LineKind::NotCovered => coverage_from(s, next, acc),
            LineKind::Covered(n) => coverage_from(s, next, acc.insert(n as usize)),
        }
    }
}

/// The coverage that a report states.
pub open spec fn gcov_coverage(report: Seq<u8>) -> Option<Set<Location>> {
    coverage_from(report, 0, Set::empty())
}

/// The first position of a byte lies between the start and the end, and no
/// position before it holds the byte.
pub proof fn lemma_first_index(s: Seq<u8>, from: int, b: u8)
    requires
        0 <= from <= s.len(),
    ensures
        from <= first_index(s, from, b) <= s.len(),
        first_index(s, from, b) < s.len() ==> s[first_index(s, from, b)] == b,
        forall|i: int| from <= i < first_index(s, from, b) ==> s[i] != b,
    decreases s.len() - from,
{
    if from < s.len() && s[from] != b {
        lemma_first_index(s, from + 1, b);
    }
}

/// Finds the first position in `[from, to)` where `s` holds `b`; `to`
/// where there is none.
pub fn find_byte(s: &[u8], from: usize, to: usize, b: u8) -> (r: usize)
    requires
        from <= to <= s@.len(),
    ensures
        from <= r <= to,
        r < to ==> s@[r as int] == b,
        forall|i: int| from <= i < r ==> s@[i] != b,
        r == first_index(s@.subrange(0, to as int), from as int, b),
{
    let ghost prefix = s@.subrange(0, to as int);
    let mut i = from;
    while i < to && s[i] != b
        invariant
            from <= i <= to <= s@.len(),
            prefix == s@.subrange(0, to as int),
            forall|j: int| from <= j < i ==> s@[j] != b,
            first_index(prefix, from as int, b) == first_index(prefix, i as int, b),
        decreases to - i,
    {
        assert(prefix[i as int] == s@[i as int]);
        i += 1;
    }
    proof {
        if i < to {
            assert(prefix[i as int] == s@[i as int]);
        }
    }
    i
}

/// Finds the bounds of `s[from..to]` without its leading and trailing
/// white space.
pub fn trim_bounds(s: &[u8], from: usize, to: usize) -> (r: (usize, usize))
    requires
        from <= to <= s@.len(),
    ensures
        from <= r.0 <= r.1 <= to,
        s@.subrange(r.0 as int, r.1 as int) == trimmed(s@.subrange(from as int, to as int)),
{
    let mut a = from;
    while a < to && (s[a] == 32 || (9 <= s[a] && s[a] <= 13))
        invariant
            from <= a <= to <= s@.len(),
            trim_start(s@.subrange(from as int, to as int)) == trim_start(
                s@.subrange(a as int, to as int),
            ),
        decreases to - a,
    {
        proof {
            let cur = s@.subrange(a as int, to as int);
            assert(cur[0] == s@[a as int]);
            assert(cur.subrange(1, cur.len() as int) =~= s@.subrange(a as int + 1, to as int));
        }
        a += 1;
    }
    let ghost mid = s@.subrange(a as int, to as int);
    proof {
        if a < to {
            assert(mid[0] == s@[a as int]);
        }
        assert(trim_start(s@.subrange(from as int, to as int)) == mid);
    }
    let mut b = to;
    while b > a && (s[b - 1] == 32 || (9 <= s[b - 1] && s[b - 1] <= 13))
        invariant
            a <= b <= to <= s@.len(),
            mid == s@.subrange(a as int, to as int),
            trim_end(mid) == trim_end(s@.subrange(a as int, b as int)),
        decreases b - a,
    {
        proof {
            let cur = s@.subrange(a as int, b as int);
            assert(cur[cur.len() - 1] == s@[b - 1]);
            assert(cur.subrange(0, cur.len() - 1) =~= s@.subrange(a as int, b - 1));
        }
        b -= 1;
    }
    proof {
        let cur = s@.subrange(a as int, b as int);
        if b > a {
            assert(cur[cur.len() - 1] == s@[b - 1]);
        }
        assert(trim_end(mid) == cur);
    }
    (a, b)
}

/// Reads `s[from..to]` as a decimal number.
pub fn parse_decimal(s: &[u8], from: usize, to: usize) -> (r: Option<usize>)
    requires
        from <= to <= s@.len(),
    ensures
        r matches Some(v) ==> decimal_value(s@.subrange(from as int, to as int)) == Some(v as nat),
        r is None ==> decimal_value(s@.subrange(from as int, to as int)) is None,
{
    if from == to {
        return None;
    }
    let mut value: usize = 0;
    let mut i = from;
    while i < to
        invariant
            from <= i <= to <= s@.len(),
            from < to,
            i > from ==> decimal_value(s@.subrange(from as int, i as int)) == Some(value as nat),
            i == from ==> value == 0,
        decreases to - i,
    {
        let ghost before = s@.subrange(from as int, i as int);
        let ghost after = s@.subrange(from as int, i as int + 1);
        proof {
            assert(after.drop_last() =~= before);
            assert(after.last() == s@[i as int]);
        }
        let d = s[i];
        if !(48 <= d && d <= 57) {
            proof {
                assert(decimal_value(after) is None);
                assert(s@.subrange(from as int, to as int).subrange(0, (i - from + 1) as int)
                    =~= after);
                lemma_decimal_prefix(s@.subrange(from as int, to as int), (i - from + 1) as int);
            }
            return None;
        }
        let digit = (d - 48) as usize;
        let next = match value.checked_mul(10) {
            None => None,
            Some(v) => v.checked_add(digit),
        };
        match next {
            None => {
                proof {
                    assert(i > from);
                    assert(decimal_value(after) is None);
                    assert(s@.subrange(from as int, to as int).subrange(0, (i - from + 1) as int)
                        =~= after);
                    lemma_decimal_prefix(s@.subrange(from as int, to as int), (i - from + 1) as int);
                }
                return None;
            },
            Some(v) => {
                value = v;
                assert(decimal_value(after) == Some(value as nat));
            },
        }
        i += 1;
    }
    assert(s@.subrange(from as int, i as int) =~= s@.subrange(from as int, to as int));
    Some(value)
}

/// Where a prefix of `s` writes no number, `s` writes none.
pub proof fn lemma_decimal_prefix(s: Seq<u8>, k: int)
    requires
        0 < k <= s.len(),
        decimal_value(s.subrange(0, k)) is None,
    ensures
        decimal_value(s) is None,
    decreases s.len() - k,
{
    if k < s.len() {
        assert(s.subrange(0, k + 1).drop_last() =~= s.subrange(0, k));
        lemma_decimal_prefix(s, k + 1);
    } else {
        assert(s.subrange(0, k) =~= s);
    }
}

/// What a line of a report says, with the number of a covered line as a
/// location.
pub enum Line {
    Malformed,
    NotCovered,
    Covered(Location),
}

/// Reads the line `report[from..stop]`.
pub fn parse_line(report: &[u8], from: usize, stop: usize) -> (r: Line)
    requires
        from <= stop <= report@.len(),
    ensures
        match line_kind(report@.subrange(from as int, stop as int)) {
            LineKind::Malformed => r is Malformed,
            LineKind::NotCovered => r is NotCovered,
            LineKind::Covered(n) => r == Line::Covered(n as usize) && n <= usize::MAX,
        },
{
    let ghost line = report@.subrange(from as int, stop as int);
    let c1 = find_byte(report, from, stop, 58);
    proof {
        lemma_line_index(report@, from as int, stop as int, from as int, 58);
    }
    if c1 >= stop {
        return Line::Malformed;
    }
    let c2 = find_byte(report, c1 + 1, stop, 58);
    proof {
        lemma_line_index(report@, from as int, stop as int, c1 as int + 1, 58);
    }
    let (a0, b0) = trim_bounds(report, from, c1);
    let (a1, b1) = trim_bounds(report, c1 + 1, c2);
    proof {
        assert(line.subrange(0, c1 - from) =~= report@.subrange(from as int, c1 as int));
        assert(line.subrange(c1 + 1 - from, c2 - from) =~= report@.subrange(
            c1 as int + 1,
            c2 as int,
        ));
    }
    match parse_decimal(report, a1, b1) {
        None => Line::Malformed,
        Some(number) => {
            let skipped = a0 < b0 && (report[a0] == 45 || report[a0] == 35);
            proof {
                let count = count_field(line);
                assert(count == report@.subrange(a0 as int, b0 as int));
                if a0 < b0 {
                    assert(count[0] == report@[a0 as int]);
                }
            }
            if skipped {
                Line::NotCovered
            } else {
                Line::Covered(number)
            }
        },
    }
}

/// Reads the coverage that a `gcov` report states. Returns `None` where a
/// line of the report has no second field or no number in it.
pub fn parse_gcov(report: &[u8]) -> (r: Option<Coverage>)
    ensures
        r is Some == gcov_coverage(report@) is Some,
        r matches Some(c) ==> Some(c@) == gcov_coverage(report@),
{
    let n = report.len();
    let mut coverage = Coverage::new();
    let mut from: usize = 0;
    while from < n
        invariant
            n == report@.len(),
            from <= n,
            gcov_coverage(report@) == coverage_from(report@, from as int, coverage@),
        decreases n - from,
    {
        assert(report@.subrange(0, n as int) =~= report@);
        let end = find_byte(report, from, n, 10);
        proof {
            lemma_first_index(report@, from as int, 10);
        }
        let stop = if end > from && report[end - 1] == 13 {
            end - 1
        } else {
            end
        };
        proof {
            let raw = report@.subrange(from as int, end as int);
            if end > from {
                assert(raw.last() == report@[end - 1]);
            }
            assert(strip_cr(raw) =~= report@.subrange(from as int, stop as int));
        }
        let ghost acc = coverage@;
        let ghost start = from as int;
        let ghost kind = line_kind(report@.subrange(from as int, stop as int));
        proof {
            assert(line_end(report@, start) == end);
            assert(kind == line_kind(strip_cr(report@.subrange(start, end as int))));
        }
        match parse_line(report, from, stop) {
            Line::Malformed => {
                assert(coverage_from(report@, start, acc) is None);
                return None;
            },
            Line::NotCovered => {
                assert(coverage_from(report@, start, acc) == coverage_from(
                    report@,
                    end as int + 1,
                    acc,
                ));
            },
            Line::Covered(number) => {
                coverage.insert(number);
                assert(coverage_from(report@, start, acc) == coverage_from(
                    report@,
                    end as int + 1,
                    coverage@,
                ));
            },
        }
        if end < n {
            from = end + 1;
        } else {
            assert(coverage_from(report@, n as int + 1, coverage@) == Some(coverage@));
            assert(coverage_from(report@, n as int, coverage@) == Some(coverage@));
            from = n;
        }
    }
    Some(coverage)
}

/// Positions within a line and within the text it is taken from
/// correspond.
pub proof fn lemma_line_index(s: Seq<u8>, from: int, stop: int, start: int, b: u8)
    requires
        0 <= from <= start <= stop <= s.len(),
    ensures
        first_index(s.subrange(from, stop), start - from, b) == first_index(
            s.subrange(0, stop),
            start,
            b,
        ) - from,
    decreases stop - start,
{
    let line = s.subrange(from, stop);
    let prefix = s.subrange(0, stop);
    if start < stop {
        assert(line[start - from] == prefix[start]);
        if line[start - from] != b {
            lemma_line_index(s, from, stop, start + 1, b);
        }
    }
}

} // verus!
