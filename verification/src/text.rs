//! Shared text machinery: character access, line splitting and decimal
//! integer parsing, with exact specifications of the grammar each
//! function accepts.

use vstd::prelude::*;

verus! {

/// The views of a sequence of character vectors.
pub open spec fn lines_view(v: Seq<Vec<char>>) -> Seq<Seq<char>> {
    v.map_values(|x: Vec<char>| x@)
}

pub proof fn lemma_lines_view_push(v: Seq<Vec<char>>, x: Vec<char>)
    ensures
        lines_view(v.push(x)) == lines_view(v).push(x@),
{
    assert(lines_view(v.push(x)) =~= lines_view(v).push(x@));
}

/// Relies on str::chars: yields exactly the characters that make up the
/// string, in order.
#[verifier::external_body]
pub(crate) fn chars_of(s: &str) -> (r: Vec<char>)
    ensures
        r@ == s@,
{
    s.chars().collect()
}

/// Index of the first occurrence of `c` in `s`, or `s.len()` if absent.
pub open spec fn find_char(s: Seq<char>, c: char) -> int
    decreases s.len(),
{
    if s.len() == 0 {
        0
    } else if s[0] == c {
        0
    } else {
        1 + find_char(s.skip(1), c)
    }
}

pub proof fn lemma_find_char(s: Seq<char>, c: char)
    ensures
        0 <= find_char(s, c) <= s.len(),
        find_char(s, c) < s.len() ==> s[find_char(s, c)] == c,
        forall|j: int| 0 <= j < find_char(s, c) ==> s[j] != c,
        find_char(s, c) == s.len() ==> !s.contains(c),
    decreases s.len(),
{
    if s.len() == 0 {
    } else if s[0] == c {
    } else {
        lemma_find_char(s.skip(1), c);
        let f = find_char(s, c);
        assert forall|j: int| 0 <= j < f implies s[j] != c by {
            if j > 0 {
                assert(s.skip(1)[j - 1] == s[j]);
            }
        }
        if f == s.len() && s.contains(c) {
            let w = choose|w: int| 0 <= w < s.len() && s[w] == c;
            assert(s[w] != c);
        }
    }
}

/// The first occurrence determines `find_char`: if `c` does not occur
/// before `i`, and occurs at `i` (or not at all when `i == s.len()`),
/// then `find_char` returns `i`.
pub proof fn lemma_find_char_eq(s: Seq<char>, c: char, i: int)
    requires
        0 <= i <= s.len(),
        i < s.len() ==> s[i] == c,
        forall|j: int| 0 <= j < i ==> s[j] != c,
    ensures
        find_char(s, c) == i,
{
    lemma_find_char(s, c);
    let f = find_char(s, c);
    if f < i {
        assert(s[f] == c);
    } else if f > i {
        assert(i < s.len());
        assert(s[i] != c);
    }
}

/// Scan `s[a..b]` for `c`; the result is the position of the first
/// occurrence, or `b` if there is none.
pub fn find_from(s: &Vec<char>, a: usize, b: usize, c: char) -> (r: usize)
    requires
        a <= b,
        b <= s.len(),
    ensures
        a <= r <= b,
        r as int - a as int == find_char(s@.subrange(a as int, b as int), c),
{
    let mut j = a;
    while j < b
        invariant
            a <= j <= b,
            b <= s.len(),
            forall|k: int| a <= k < j ==> s@[k] != c,
        decreases b - j,
    {
        if s[j] == c {
            proof {
                assert forall|k: int| 0 <= k < j - a implies s@.subrange(
                    a as int,
                    b as int,
                )[k] != c by {
                    assert(s@.subrange(a as int, b as int)[k] == s@[a + k]);
                }
                lemma_find_char_eq(s@.subrange(a as int, b as int), c, j as int - a as int);
            }
            return j;
        }
        j += 1;
    }
    proof {
        assert forall|k: int| 0 <= k < b - a implies s@.subrange(a as int, b as int)[k] != c by {
            assert(s@.subrange(a as int, b as int)[k] == s@[a + k]);
        }
        lemma_find_char_eq(s@.subrange(a as int, b as int), c, b as int - a as int);
    }
    b
}

/// A copy of `s[a..b]`.
pub fn copy_range(s: &Vec<char>, a: usize, b: usize) -> (r: Vec<char>)
    requires
        a <= b,
        b <= s.len(),
    ensures
        r@ == s@.subrange(a as int, b as int),
{
    let mut r: Vec<char> = Vec::new();
    let mut j = a;
    while j < b
        invariant
            a <= j <= b,
            b <= s.len(),
            r@ == s@.subrange(a as int, j as int),
        decreases b - j,
    {
        r.push(s[j]);
        proof {
            assert(r@ =~= s@.subrange(a as int, j as int + 1));
        }
        j += 1;
    }
    r
}

/// Whether `c` occurs in `s[a..b]`.
pub fn range_contains(s: &Vec<char>, a: usize, b: usize, c: char) -> (r: bool)
    requires
        a <= b,
        b <= s.len(),
    ensures
        r == s@.subrange(a as int, b as int).contains(c),
{
    let j = find_from(s, a, b, c);
    proof {
        lemma_find_char(s@.subrange(a as int, b as int), c);
        if j < b {
            assert(s@.subrange(a as int, b as int)[j - a] == c);
        }
    }
    j < b
}

/// Drop a single trailing carriage return, as line splitting does for
/// lines that end in a carriage return plus line feed.
pub open spec fn strip_cr(line: Seq<char>) -> Seq<char> {
    if line.len() > 0 && line[line.len() - 1] == '\r' {
        line.drop_last()
    } else {
        line
    }
}

/// The lines of `s`: split at each line feed, dropping a carriage
/// return that immediately precedes one; a trailing line feed does not
/// open a final empty line.
pub open spec fn split_lines_spec(s: Seq<char>) -> Seq<Seq<char>>
    decreases s.len() via split_lines_spec_dec
{
    if s.len() == 0 {
        Seq::empty()
    } else {
        let i = find_char(s, '\n');
        if i == s.len() {
            seq![s]
        } else {
            seq![strip_cr(s.take(i))] + split_lines_spec(s.skip(i + 1))
        }
    }
}

#[via_fn]
proof fn split_lines_spec_dec(s: Seq<char>) {
    lemma_find_char(s, '\n');
}

pub fn split_lines(s: &Vec<char>) -> (r: Vec<Vec<char>>)
    ensures
        lines_view(r@) == split_lines_spec(s@),
{
    let mut r: Vec<Vec<char>> = Vec::new();
    let mut pos: usize = 0;
    proof {
        assert(s@.skip(0) =~= s@);
        assert(lines_view(r@) + split_lines_spec(s@) =~= split_lines_spec(s@));
    }
    while pos < s.len()
        invariant
            pos <= s.len(),
            split_lines_spec(s@) == lines_view(r@) + split_lines_spec(s@.skip(pos as int)),
        decreases s.len() - pos,
    {
        let ghost rest = s@.skip(pos as int);
        let j = find_from(s, pos, s.len(), '\n');
        proof {
            assert(rest =~= s@.subrange(pos as int, s@.len() as int));
            assert(find_char(rest, '\n') == j - pos);
        }
        if j == s.len() {
            let line = copy_range(s, pos, j);
            proof {
                assert(split_lines_spec(rest) == seq![rest]);
                assert(line@ =~= rest);
                lemma_lines_view_push(r@, line);
                assert(lines_view(r@).push(line@) =~= lines_view(r@) + seq![rest]);
                assert(split_lines_spec(s@.skip(s@.len() as int)) =~= Seq::<Seq<char>>::empty());
                assert((lines_view(r@) + seq![rest]) + Seq::<Seq<char>>::empty() =~= lines_view(
                    r@,
                ) + seq![rest]);
            }
            r.push(line);
            pos = s.len();
        } else {
            let end = if j > pos && s[j - 1] == '\r' {
                j - 1
            } else {
                j
            };
            let line = copy_range(s, pos, end);
            proof {
                let i = j as int - pos;
                assert(rest.take(i) =~= s@.subrange(pos as int, j as int));
                assert(rest.skip(i + 1) =~= s@.skip(j as int + 1));
                if j > pos && s@[j - 1] == '\r' {
                    assert(rest.take(i)[i - 1] == '\r');
                    assert(strip_cr(rest.take(i)) =~= s@.subrange(pos as int, j as int - 1));
                } else {
                    if i > 0 {
                        assert(rest.take(i)[i - 1] == s@[j - 1]);
                    }
                    assert(strip_cr(rest.take(i)) =~= s@.subrange(pos as int, j as int));
                }
                assert(line@ == strip_cr(rest.take(i)));
                assert(split_lines_spec(rest) == seq![line@] + split_lines_spec(
                    s@.skip(j as int + 1),
                ));
                lemma_lines_view_push(r@, line);
                assert((lines_view(r@) + (seq![line@] + split_lines_spec(s@.skip(j as int + 1))))
                    =~= (lines_view(r@).push(line@) + split_lines_spec(s@.skip(j as int + 1))));
            }
            r.push(line);
            pos = j + 1;
        }
    }
    proof {
        assert(s@.skip(pos as int) =~= Seq::<char>::empty());
        assert(split_lines_spec(s@) =~= lines_view(r@));
    }
    r
}

/// Whether `c` is a decimal digit.
pub open spec fn is_digit(c: char) -> bool {
    '0' <= c && c <= '9'
}

pub open spec fn digit_val(c: char) -> int {
    c as int - '0' as int
}

pub open spec fn all_digits(s: Seq<char>) -> bool {
    forall|i: int| 0 <= i < s.len() ==> is_digit(s[i])
}

/// The value of a string of decimal digits.
pub open spec fn digits_val(s: Seq<char>) -> int
    decreases s.len(),
{
    if s.len() == 0 {
        0
    } else {
        digits_val(s.drop_last()) * 10 + digit_val(s.last())
    }
}

/// The value of a non-empty all-digit string, and `None` otherwise.
pub open spec fn dec_digits_value(s: Seq<char>) -> Option<int> {
    if s.len() > 0 && all_digits(s) {
        Some(digits_val(s))
    } else {
        None
    }
}

/// The value of an unsigned decimal literal: an optional leading plus
/// sign followed by one or more digits.
pub open spec fn unsigned_value(s: Seq<char>) -> Option<int> {
    if s.len() > 0 && s[0] == '+' {
        dec_digits_value(s.skip(1))
    } else {
        dec_digits_value(s)
    }
}

/// The value of a signed decimal literal: an optional leading plus or
/// minus sign followed by one or more digits.
pub open spec fn signed_value(s: Seq<char>) -> Option<int> {
    if s.len() > 0 && s[0] == '-' {
        match dec_digits_value(s.skip(1)) {
            Some(v) => Some(-v),
            None => None,
        }
    } else {
        unsigned_value(s)
    }
}

pub proof fn lemma_digits_val_nonneg(s: Seq<char>)
    requires
        all_digits(s),
    ensures
        digits_val(s) >= 0,
    decreases s.len(),
{
    if s.len() > 0 {
        assert(all_digits(s.drop_last())) by {
            assert(forall|i: int| 0 <= i < s.len() - 1 ==> s.drop_last()[i] == s[i]);
        }
        lemma_digits_val_nonneg(s.drop_last());
    }
}

/// Parse `s[a..b]` as a plain run of decimal digits. `None` means the
/// range is empty, holds a non-digit, or encodes a value above
/// `u64::MAX`.
fn parse_digits(s: &Vec<char>, a: usize, b: usize) -> (r: Option<u64>)
    requires
        a <= b,
        b <= s.len(),
    ensures
        match r {
            Some(v) => dec_digits_value(s@.subrange(a as int, b as int)) == Some(v as int),
            None => dec_digits_value(s@.subrange(a as int, b as int)) is None || (
            dec_digits_value(s@.subrange(a as int, b as int)) matches Some(n) && n > u64::MAX),
        },
{
    let ghost whole = s@.subrange(a as int, b as int);
    if a == b {
        return None;
    }
    let mut acc: u128 = 0;
    let mut j = a;
    while j < b
        invariant
            a <= j <= b,
            b <= s.len(),
            whole == s@.subrange(a as int, b as int),
            all_digits(s@.subrange(a as int, j as int)),
            digits_val(s@.subrange(a as int, j as int)) <= u64::MAX ==> acc == digits_val(
                s@.subrange(a as int, j as int),
            ),
            digits_val(s@.subrange(a as int, j as int)) > u64::MAX ==> u64::MAX < acc,
            acc <= u64::MAX as u128 * 10 + 9,
        decreases b - j,
    {
        let ghost pre = s@.subrange(a as int, j as int);
        let c = s[j];
        if !('0' <= c && c <= '9') {
            proof {
                assert(whole[j - a] == c);
                assert(!all_digits(whole));
            }
            return None;
        }
        let d = (c as u32 - '0' as u32) as u128;
        proof {
            let pre2 = s@.subrange(a as int, j as int + 1);
            assert(pre2.drop_last() =~= pre);
            assert(pre2.last() == c);
            assert(digits_val(pre2) == digits_val(pre) * 10 + digit_val(c));
            assert(all_digits(pre2));
            lemma_digits_val_nonneg(pre);
            if digits_val(pre) > u64::MAX {
                assert(digits_val(pre) * 10 >= digits_val(pre));
                assert(digits_val(pre2) > u64::MAX);
            }
        }
        if acc <= u64::MAX as u128 {
            acc = acc * 10 + d;
        }
        j += 1;
    }
    proof {
        assert(s@.subrange(a as int, j as int) == whole);
        lemma_digits_val_nonneg(whole);
    }
    if acc <= u64::MAX as u128 {
        Some(acc as u64)
    } else {
        None
    }
}

/// The value of a signed decimal literal when it fits in an `i32`.
pub open spec fn i32_value(s: Seq<char>) -> Option<int> {
    match signed_value(s) {
        Some(n) => if i32::MIN <= n <= i32::MAX {
            Some(n)
        } else {
            None
        },
        None => None,
    }
}

/// The value of an unsigned decimal literal when it fits in a `usize`.
pub open spec fn usize_value(s: Seq<char>) -> Option<int> {
    match unsigned_value(s) {
        Some(n) => if n <= usize::MAX {
            Some(n)
        } else {
            None
        },
        None => None,
    }
}

/// Parse `s[a..b]` as a signed decimal literal that fits in an `i32`.
pub fn parse_i32_range(s: &Vec<char>, a: usize, b: usize) -> (r: Option<i32>)
    requires
        a <= b,
        b <= s.len(),
    ensures
        match r {
            Some(v) => signed_value(s@.subrange(a as int, b as int)) == Some(v as int),
            None => signed_value(s@.subrange(a as int, b as int)) is None || (signed_value(
                s@.subrange(a as int, b as int),
            ) matches Some(n) && !(i32::MIN <= n <= i32::MAX)),
        },
{
    let ghost whole = s@.subrange(a as int, b as int);
    if a == b {
        return None;
    }
    let c0 = s[a];
    let neg = c0 == '-';
    let da = if c0 == '-' || c0 == '+' {
        a + 1
    } else {
        a
    };
    proof {
        assert(whole[0] == c0);
        if da > a {
            assert(whole.skip(1) =~= s@.subrange(da as int, b as int));
        }
    }
    match parse_digits(s, da, b) {
        None => None,
        Some(m) => {
            if neg {
                if m <= 0x8000_0000u64 {
                    let v = -(m as i64);
                    Some(v as i32)
                } else {
                    None
                }
            } else {
                if m <= 0x7FFF_FFFFu64 {
                    Some(m as i32)
                } else {
                    None
                }
            }
        },
    }
}

/// Parse `s[a..b]` as an unsigned decimal literal that fits in a
/// `usize`.
pub fn parse_usize_range(s: &Vec<char>, a: usize, b: usize) -> (r: Option<usize>)
    requires
        a <= b,
        b <= s.len(),
    ensures
        match r {
            Some(v) => unsigned_value(s@.subrange(a as int, b as int)) == Some(v as int),
            None => unsigned_value(s@.subrange(a as int, b as int)) is None || (unsigned_value(
                s@.subrange(a as int, b as int),
            ) matches Some(n) && n > usize::MAX),
        },
{
    let ghost whole = s@.subrange(a as int, b as int);
    if a == b {
        return None;
    }
    let c0 = s[a];
    let da = if c0 == '+' {
        a + 1
    } else {
        a
    };
    proof {
        assert(whole[0] == c0);
        if da > a {
            assert(whole.skip(1) =~= s@.subrange(da as int, b as int));
        }
    }
    match parse_digits(s, da, b) {
        None => None,
        Some(m) => {
            if m <= usize::MAX as u64 {
                Some(m as usize)
            } else {
                None
            }
        },
    }
}

} // verus!
