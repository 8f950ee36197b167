//! Reading text that a person typed: numbers, surrounding blanks, a separator, a substring, lines.
//!
//! Each function here behaves as the `str` method of the same name does, stated as a spec
//! function and proved.

use vstd::prelude::*;
use crate::text::{code_point, chars_of, from_chars, push_char, push_str};

verus! {

// ------------------------------------------------------------------- blanks

/// Unicode `White_Space`, which is what `str::trim` removes.
pub open spec fn spec_white(c: char) -> bool {
    let u = c as u32;
    (0x9 <= u && u <= 0xd) || u == 0x20 || u == 0x85 || u == 0xa0 || u == 0x1680
        || (0x2000 <= u && u <= 0x200a) || u == 0x2028 || u == 0x2029 || u == 0x202f
        || u == 0x205f || u == 0x3000
}

pub fn is_white(c: char) -> (r: bool)
    ensures
        r == spec_white(c),
{
    let u = code_point(c);
    (0x9 <= u && u <= 0xd) || u == 0x20 || u == 0x85 || u == 0xa0 || u == 0x1680
        || (0x2000 <= u && u <= 0x200a) || u == 0x2028 || u == 0x2029 || u == 0x202f
        || u == 0x205f || u == 0x3000
}

pub open spec fn spec_trim_start(s: Seq<char>) -> Seq<char>
    decreases s.len(),
{
    if s.len() > 0 && spec_white(s[0]) {
        spec_trim_start(s.drop_first())
    } else {
        s
    }
}

pub open spec fn spec_trim_end(s: Seq<char>) -> Seq<char>
    decreases s.len(),
{
    if s.len() > 0 && spec_white(s.last()) {
        spec_trim_end(s.drop_last())
    } else {
        s
    }
}

/// `s` without the blanks at either end (`str::trim`).
pub open spec fn spec_trim(s: Seq<char>) -> Seq<char> {
    spec_trim_end(spec_trim_start(s))
}

/// The characters of `v` from `a` up to `b`, as a string.
fn piece(v: &Vec<char>, a: usize, b: usize) -> (s: String)
    requires
        a <= b <= v@.len(),
    ensures
        s@ == v@.subrange(a as int, b as int),
{
    let mut s = String::new();
    let mut i: usize = a;
    while i < b
        invariant
            a <= i <= b <= v@.len(),
            s@ == v@.subrange(a as int, i as int),
        decreases b - i,
    {
        push_char(&mut s, v[i]);
        i = i + 1;
        assert(s@ =~= v@.subrange(a as int, i as int));
    }
    s
}

/// `s` without the blanks at either end.
pub fn trim(s: &str) -> (r: String)
    ensures
        r@ == spec_trim(s@),
{
    let v = chars_of(s);
    let n = v.len();
    let mut i: usize = 0;
    assert(v@.subrange(0, n as int) =~= v@);
    while i < n && is_white(v[i])
        invariant
            v@ == s@,
            n == v@.len(),
            i <= n,
            spec_trim_start(s@) == spec_trim_start(v@.subrange(i as int, n as int)),
        decreases n - i,
    {
        assert(v@.subrange(i as int, n as int).drop_first() =~= v@.subrange(i + 1, n as int));
        i = i + 1;
    }
    assert(spec_trim_start(v@.subrange(i as int, n as int)) == v@.subrange(i as int, n as int));
    let mut j: usize = n;
    while j > i && is_white(v[j - 1])
        invariant
            v@ == s@,
            n == v@.len(),
            i <= j <= n,
            spec_trim(s@) == spec_trim_end(v@.subrange(i as int, j as int)),
        decreases j,
    {
        assert(v@.subrange(i as int, j as int).drop_last() =~= v@.subrange(i as int, j - 1));
        j = j - 1;
    }
    piece(&v, i, j)
}

// ------------------------------------------------------------------- numbers

pub open spec fn is_digit(c: char) -> bool {
    '0' <= c && c <= '9'
}

pub open spec fn all_digits(s: Seq<char>) -> bool {
    forall|i: int| 0 <= i < s.len() ==> is_digit(#[trigger] s[i])
}

/// The number that the decimal digits `s` write.
pub open spec fn digits_value(s: Seq<char>) -> nat
    decreases s.len(),
{
    if s.len() == 0 {
        0
    } else {
        digits_value(s.drop_last()) * 10 + ((s.last() as int) - ('0' as int)) as nat
    }
}

/// What `str::parse::<u64>` gives: an optional `+`, then one or more decimal digits whose value
/// fits.
pub open spec fn spec_parse_u64(s: Seq<char>) -> Option<u64> {
    let d = if s.len() > 0 && s[0] == '+' { s.drop_first() } else { s };
    if d.len() > 0 && all_digits(d) && digits_value(d) <= u64::MAX {
        Some(digits_value(d) as u64)
    } else {
        None
    }
}

proof fn lemma_digits_grow(s: Seq<char>, i: int, j: int)
    requires
        0 <= i <= j <= s.len(),
        all_digits(s),
    ensures
        digits_value(s.subrange(0, i)) <= digits_value(s.subrange(0, j)),
    decreases j - i,
{
    if i < j {
        lemma_digits_grow(s, i, j - 1);
        assert(s.subrange(0, j).drop_last() =~= s.subrange(0, j - 1));
        assert(is_digit(s[j - 1]));
    }
}

/// A decimal number as `str::parse::<u64>` reads it.
pub fn parse_u64(s: &str) -> (r: Option<u64>)
    ensures
        r == spec_parse_u64(s@),
{
    let v = chars_of(s);
    let n = v.len();
    let start: usize = if n > 0 && v[0] == '+' { 1 } else { 0 };
    let ghost d = if s@.len() > 0 && s@[0] == '+' { s@.drop_first() } else { s@ };
    assert(d =~= v@.subrange(start as int, n as int));
    if start == n {
        assert(d.len() == 0);
        return None;
    }
    let mut i: usize = start;
    let mut acc: u64 = 0;
    while i < n
        invariant
            v@ == s@,
            n == v@.len(),
            start <= i <= n,
            d == (if s@.len() > 0 && s@[0] == '+' { s@.drop_first() } else { s@ }),
            d == v@.subrange(start as int, n as int),
            all_digits(d.subrange(0, i - start)),
            acc == digits_value(d.subrange(0, i - start)),
        decreases n - i,
    {
        let c = v[i];
        let k = i - start;
        assert(d[k as int] == c);
        if !('0' <= c && c <= '9') {
            assert(!all_digits(d));
            return None;
        }
        assert(d.subrange(0, k + 1).drop_last() =~= d.subrange(0, k as int));
        assert(d.subrange(0, k + 1).last() == c);
        let u = code_point(c) - code_point('0');
        assert(u == (c as int) - ('0' as int));
        let m = acc.checked_mul(10);
        match m {
            None => {
                proof {
                    if all_digits(d) {
                        lemma_digits_grow(d, k + 1, d.len() as int);
                        assert(d.subrange(0, d.len() as int) =~= d);
                    }
                }
                return None;
            },
            Some(m) => {
                let x = m.checked_add(u as u64);
                match x {
                    None => {
                        proof {
                            if all_digits(d) {
                                lemma_digits_grow(d, k + 1, d.len() as int);
                                assert(d.subrange(0, d.len() as int) =~= d);
                            }
                        }
                        return None;
                    },
                    Some(x) => {
                        acc = x;
                    },
                }
            },
        }
        i = i + 1;
        assert(all_digits(d.subrange(0, i - start)));
    }
    assert(d.subrange(0, d.len() as int) =~= d);
    Some(acc)
}

// ------------------------------------------------------- looking for a piece

/// The first position at or after `from` where `p` occurs in `s`, or -1.
pub open spec fn spec_find_sub(s: Seq<char>, p: Seq<char>, from: int) -> int
    decreases s.len() + 1 - from,
{
    if from < 0 || from + p.len() > s.len() {
        -1
    } else if s.subrange(from, from + p.len()) == p {
        from
    } else {
        spec_find_sub(s, p, from + 1)
    }
}

pub proof fn lemma_find_sub_bounds(s: Seq<char>, p: Seq<char>, from: int)
    requires
        0 <= from,
    ensures
        spec_find_sub(s, p, from) == -1 || (from <= spec_find_sub(s, p, from)
            && spec_find_sub(s, p, from) + p.len() <= s.len()
            && s.subrange(spec_find_sub(s, p, from), spec_find_sub(s, p, from) + p.len()) == p),
    decreases s.len() + 1 - from,
{
    if from + p.len() <= s.len() && s.subrange(from, from + p.len()) != p {
        lemma_find_sub_bounds(s, p, from + 1);
    }
}

/// Whether `v` holds `p` at `at`.
fn occurs_at(v: &Vec<char>, p: &Vec<char>, at: usize) -> (r: bool)
    requires
        at + p@.len() <= v@.len(),
    ensures
        r == (v@.subrange(at as int, at + p@.len()) == p@),
{
    let vl = v.len();
    let mut k: usize = 0;
    while k < p.len()
        invariant
            vl == v@.len(),
            at + p@.len() <= v@.len(),
            k <= p@.len(),
            forall|q: int| 0 <= q < k ==> v@[at + q] == p@[q],
        decreases p@.len() - k,
    {
        if v[at + k] != p[k] {
            assert(v@.subrange(at as int, at + p@.len())[k as int] != p@[k as int]);
            return false;
        }
        k = k + 1;
    }
    assert(v@.subrange(at as int, at + p@.len()) =~= p@);
    true
}

/// Where `p` first occurs in `v`, if it does.
fn find_sub(v: &Vec<char>, p: &Vec<char>) -> (r: Option<usize>)
    ensures
        r matches Some(k) ==> spec_find_sub(v@, p@, 0) == k,
        r is None ==> spec_find_sub(v@, p@, 0) == -1,
{
    if p.len() > v.len() {
        return None;
    }
    let last = v.len() - p.len();
    let mut at: usize = 0;
    while at <= last
        invariant
            p@.len() <= v@.len(),
            last == v@.len() - p@.len(),
            at <= last + 1,
            spec_find_sub(v@, p@, 0) == spec_find_sub(v@, p@, at as int),
        decreases v@.len() - at,
    {
        if occurs_at(v, p, at) {
            return Some(at);
        }
        if at == last {
            assert(spec_find_sub(v@, p@, at + 1) == -1);
            return None;
        }
        at = at + 1;
    }
    None
}

/// Whether `p` occurs in `s` (`str::contains`).
pub fn contains(s: &str, p: &str) -> (r: bool)
    ensures
        r == (spec_find_sub(s@, p@, 0) >= 0),
{
    let v = chars_of(s);
    let q = chars_of(p);
    match find_sub(&v, &q) {
        Some(_) => true,
        None => false,
    }
}

/// What `str::split_once` gives: the parts before and after the first occurrence of `p`.
pub open spec fn spec_split_once(s: Seq<char>, p: Seq<char>) -> Option<(Seq<char>, Seq<char>)> {
    let k = spec_find_sub(s, p, 0);
    if k >= 0 {
        Some((s.subrange(0, k), s.subrange(k + p.len(), s.len() as int)))
    } else {
        None
    }
}

/// The parts of `s` before and after the first occurrence of `p`, if it occurs.
pub fn split_once(s: &str, p: &str) -> (r: Option<(String, String)>)
    ensures
        r matches Some(x) ==> spec_split_once(s@, p@) == Some((x.0@, x.1@)),
        r is None ==> spec_split_once(s@, p@) is None,
{
    let v = chars_of(s);
    let q = chars_of(p);
    match find_sub(&v, &q) {
        Some(k) => {
            proof {
                lemma_find_sub_bounds(v@, q@, 0);
            }
            let n = v.len();
            assert(k + q@.len() <= n);
            let after = k + q.len();
            Some((piece(&v, 0, k), piece(&v, after, n)))
        },
        None => None,
    }
}

// -------------------------------------------------------------------- lines

/// The position of the first `c` in `s` at or after `from`, or -1.
pub open spec fn spec_find_char(s: Seq<char>, c: char, from: int) -> int
    decreases s.len() - from,
{
    if from < 0 || from >= s.len() {
        -1
    } else if s[from] == c {
        from
    } else {
        spec_find_char(s, c, from + 1)
    }
}

pub proof fn lemma_find_char_bounds(s: Seq<char>, c: char, from: int)
    requires
        0 <= from,
    ensures
        spec_find_char(s, c, from) == -1 || (from <= spec_find_char(s, c, from) < s.len()
            && s[spec_find_char(s, c, from)] == c),
        forall|k: int| from <= k < s.len() && (spec_find_char(s, c, from) == -1 || k < spec_find_char(s, c, from))
            ==> s[k] != c,
    decreases s.len() - from,
{
    if from < s.len() && s[from] != c {
        lemma_find_char_bounds(s, c, from + 1);
    }
}

/// A line without its terminator: a `\r` before the `\n` goes with it.
pub open spec fn strip_cr(line: Seq<char>) -> Seq<char> {
    if line.len() > 0 && line.last() == '\r' { line.drop_last() } else { line }
}

/// What `str::lines` gives: the text split at each `\n` or `\r\n`, with no empty last line after
/// a final line ending.
pub open spec fn spec_lines(s: Seq<char>) -> Seq<Seq<char>>
    decreases s.len(),
{
    if s.len() == 0 {
        Seq::empty()
    } else {
        let k = spec_find_char(s, '\n', 0);
        if k < 0 {
            seq![s]
        } else {
            proof {
                lemma_find_char_bounds(s, '\n', 0);
            }
            seq![strip_cr(s.subrange(0, k))] + spec_lines(s.subrange(k + 1, s.len() as int))
        }
    }
}

pub open spec fn strings_view(s: Seq<String>) -> Seq<Seq<char>> {
    Seq::new(s.len(), |i: int| s[i]@)
}

/// The lines of `s`, as `str::lines` reads them.
pub fn lines_of(s: &str) -> (r: Vec<String>)
    ensures
        strings_view(r@) == spec_lines(s@),
{
    let v = chars_of(s);
    let n = v.len();
    let mut r: Vec<String> = Vec::new();
    let mut a: usize = 0;
    assert(v@.subrange(0, n as int) =~= v@);
    while a < n
        invariant
            v@ == s@,
            n == v@.len(),
            a <= n,
            spec_lines(s@) == strings_view(r@) + spec_lines(v@.subrange(a as int, n as int)),
        decreases n - a,
    {
        let ghost rest = v@.subrange(a as int, n as int);
        let ghost a0 = a as int;
        let mut b: usize = a;
        while b < n && v[b] != '\n'
            invariant
                a <= b <= n,
                n == v@.len(),
                forall|k: int| a <= k < b ==> v@[k] != '\n',
            decreases n - b,
        {
            b = b + 1;
        }
        proof {
            lemma_find_char_bounds(rest, '\n', 0);
            let k = spec_find_char(rest, '\n', 0);
            if b < n {
                assert(rest[b - a] == '\n');
                if k != -1 {
                    assert(k >= b - a) by {
                        if k < b - a {
                            assert(rest[k] == v@[a + k]);
                        }
                    }
                }
                assert(k == b - a) by {
                    if k == -1 || k > b - a {
                        assert(rest[b - a] != '\n');
                    }
                }
            } else {
                assert(k == -1) by {
                    if k != -1 {
                        assert(rest[k] == v@[a + k]);
                    }
                }
            }
        }
        let mut e: usize = b;
        if e > a && v[e - 1] == '\r' && b < n {
            e = e - 1;
        }
        let line = piece(&v, a, e);
        let ghost before = r@;
        proof {
            if b < n {
                assert(line@ =~= strip_cr(rest.subrange(0, b - a)));
            } else {
                assert(line@ =~= rest);
            }
        }
        r.push(line);
        assert(strings_view(r@) =~= strings_view(before).push(line@));
        if b < n {
            a = b + 1;
            assert(rest.subrange(b - a0 + 1, rest.len() as int) =~= v@.subrange(a as int, n as int));
        } else {
            a = n;
        }
    }
    assert(v@.subrange(n as int, n as int) =~= Seq::<char>::empty());
    r
}

} // verus!
