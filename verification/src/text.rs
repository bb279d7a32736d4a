//! Text utilities over the character view of strings: conversion between a
//! string and its characters, decimal rendering, lexicographic order, and the
//! prefix / suffix / substring tests the string primitives answer.

use vstd::prelude::*;

verus! {

/// The characters of a string, in order.
#[verifier::external_body]
pub fn chars_of(text: &str) -> (v: Vec<char>)
    ensures
        v@ == text@,
{
    text.chars().collect()
}

/// The string made of the given characters, in order.
#[verifier::external_body]
pub fn string_of(chars: &[char]) -> (s: String)
    ensures
        s@ == chars@,
{
    chars.iter().collect()
}

/// The decimal digits of a natural number, most significant first, with no
/// leading zero (zero renders as `0`).
pub open spec fn decimal_chars(n: nat) -> Seq<char>
    decreases n,
{
    if n < 10 {
        seq![digit_char(n)]
    } else {
        decimal_chars(n / 10).push(digit_char(n % 10))
    }
}

/// The character of one decimal digit.
pub open spec fn digit_char(d: nat) -> char {
    if d == 0 {
        '0'
    } else if d == 1 {
        '1'
    } else if d == 2 {
        '2'
    } else if d == 3 {
        '3'
    } else if d == 4 {
        '4'
    } else if d == 5 {
        '5'
    } else if d == 6 {
        '6'
    } else if d == 7 {
        '7'
    } else if d == 8 {
        '8'
    } else {
        '9'
    }
}

/// A decimal rendering holds at least one digit, and at least two from ten on.
pub proof fn lemma_decimal_chars_len(n: nat)
    ensures
        decimal_chars(n).len() >= 1,
        n >= 10 ==> decimal_chars(n).len() >= 2,
    decreases n,
{
    if n >= 10 {
        lemma_decimal_chars_len(n / 10);
    }
}

/// Distinct numbers render differently.
pub proof fn lemma_decimal_chars_injective(a: nat, b: nat)
    requires
        decimal_chars(a) == decimal_chars(b),
    ensures
        a == b,
    decreases a,
{
    lemma_decimal_chars_len(a);
    lemma_decimal_chars_len(b);
    if a < 10 {
        if b >= 10 {
            assert(decimal_chars(a).len() == 1);
        }
        assert(decimal_chars(a)[0] == digit_char(a));
        assert(decimal_chars(b)[0] == digit_char(b));
    } else {
        if b < 10 {
            assert(decimal_chars(b).len() == 1);
        }
        let da = decimal_chars(a);
        let db = decimal_chars(b);
        assert(da == decimal_chars(a / 10).push(digit_char(a % 10)));
        assert(db == decimal_chars(b / 10).push(digit_char(b % 10)));
        assert(da.last() == digit_char(a % 10));
        assert(db.last() == digit_char(b % 10));
        assert(a % 10 == b % 10);
        assert(da.drop_last() =~= decimal_chars(a / 10));
        assert(db.drop_last() =~= decimal_chars(b / 10));
        lemma_decimal_chars_injective(a / 10, b / 10);
    }
}

/// The character of one decimal digit.
fn digit(d: u64) -> (c: char)
    requires
        d < 10,
    ensures
        c == digit_char(d as nat),
{
    if d == 0 {
        '0'
    } else if d == 1 {
        '1'
    } else if d == 2 {
        '2'
    } else if d == 3 {
        '3'
    } else if d == 4 {
        '4'
    } else if d == 5 {
        '5'
    } else if d == 6 {
        '6'
    } else if d == 7 {
        '7'
    } else if d == 8 {
        '8'
    } else {
        '9'
    }
}

/// The decimal rendering of `n`.
pub fn decimal(n: u64) -> (v: Vec<char>)
    ensures
        v@ == decimal_chars(n as nat),
    decreases n,
{
    if n < 10 {
        let mut v = Vec::new();
        v.push(digit(n));
        proof {
            assert(v@ =~= seq![digit_char(n as nat)]);
        }
        v
    } else {
        let mut v = decimal(n / 10);
        v.push(digit(n % 10));
        v
    }
}

/// Comparing `a` and `b` from position `k` on: they first differ at a
/// position where `a`'s character code is smaller, or `a` runs out first.
pub open spec fn lex_less_from(a: Seq<char>, b: Seq<char>, k: nat) -> bool
    decreases a.len() - k,
{
    if k >= a.len() {
        k < b.len()
    } else if k >= b.len() {
        false
    } else if a[k as int] != b[k as int] {
        (a[k as int] as u32) < (b[k as int] as u32)
    } else {
        lex_less_from(a, b, k + 1)
    }
}

/// `a` is lexicographically before `b`, by character code.
pub open spec fn lex_less(a: Seq<char>, b: Seq<char>) -> bool {
    lex_less_from(a, b, 0)
}

/// Lexicographic order is transitive.
pub proof fn lemma_lex_less_from_transitive(a: Seq<char>, b: Seq<char>, c: Seq<char>, k: nat)
    requires
        lex_less_from(a, b, k),
        lex_less_from(b, c, k),
    ensures
        lex_less_from(a, c, k),
    decreases a.len() - k,
{
    if k < a.len() && k < b.len() && k < c.len() && a[k as int] == b[k as int] && b[k as int]
        == c[k as int] {
        lemma_lex_less_from_transitive(a, b, c, k + 1);
    }
}

/// No sequence orders before itself.
pub proof fn lemma_lex_less_from_irreflexive(a: Seq<char>, k: nat)
    ensures
        !lex_less_from(a, a, k),
    decreases a.len() - k,
{
    if k < a.len() {
        lemma_lex_less_from_irreflexive(a, k + 1);
    }
}

/// Lexicographic order is total on different sequences that agree below
/// `k`.
pub proof fn lemma_lex_less_from_total(a: Seq<char>, b: Seq<char>, k: nat)
    requires
        a != b,
        k <= a.len(),
        k <= b.len(),
        forall|i: int| 0 <= i < k ==> a[i] == b[i],
    ensures
        lex_less_from(a, b, k) || lex_less_from(b, a, k),
    decreases a.len() - k,
{
    if k == a.len() && k == b.len() {
        assert(a =~= b);
    } else if k < a.len() && k < b.len() {
        if a[k as int] == b[k as int] {
            lemma_lex_less_from_total(a, b, k + 1);
        } else {
            let x = a[k as int];
            let y = b[k as int];
            vstd::utf8::char_u32_cast(x, x as u32);
            vstd::utf8::char_u32_cast(y, y as u32);
            assert((x as u32) != (y as u32));
        }
    }
}

/// Whether `a` is lexicographically before `b`.
pub fn chars_less(a: &Vec<char>, b: &Vec<char>) -> (r: bool)
    ensures
        r == lex_less(a@, b@),
{
    let mut k: usize = 0;
    while k < a.len() && k < b.len()
        invariant
            k <= a@.len(),
            k <= b@.len(),
            lex_less_from(a@, b@, k as nat) == lex_less(a@, b@),
        decreases a@.len() - k,
    {
        if a[k] != b[k] {
            return (a[k] as u32) < (b[k] as u32);
        }
        k = k + 1;
    }
    k == a.len() && k < b.len()
}

/// Whether the label `a` orders before the label `b`.
pub fn label_less(a: &str, b: &str) -> (r: bool)
    ensures
        r == lex_less(a@, b@),
{
    chars_less(&chars_of(a), &chars_of(b))
}

/// `needle` occurs in `haystack` starting at `at`.
pub open spec fn occurs_at(haystack: Seq<char>, needle: Seq<char>, at: int) -> bool {
    0 <= at && at + needle.len() <= haystack.len() && haystack.subrange(at, at + needle.len())
        == needle
}

/// Whether `needle` occurs in `haystack` at `at`.
fn matches_at(haystack: &Vec<char>, needle: &Vec<char>, at: usize) -> (r: bool)
    requires
        at + needle@.len() <= haystack@.len(),
    ensures
        r == occurs_at(haystack@, needle@, at as int),
{
    let mut i: usize = 0;
    proof {
        assert(haystack@.len() == haystack.len());
    }
    while i < needle.len()
        invariant
            haystack@.len() == haystack.len(),
            i <= needle@.len(),
            at + needle@.len() <= haystack@.len(),
            forall|j: int| 0 <= j < i ==> haystack@[at + j] == needle@[j],
        decreases needle@.len() - i,
    {
        if haystack[at + i] != needle[i] {
            proof {
                assert(haystack@.subrange(at as int, at + needle@.len())[i as int] != needle@[i as int]);
            }
            return false;
        }
        i = i + 1;
    }
    proof {
        assert(haystack@.subrange(at as int, at + needle@.len()) =~= needle@);
    }
    true
}

/// Whether `haystack` starts with `prefix`.
pub fn starts_with(haystack: &str, prefix: &str) -> (r: bool)
    ensures
        r == occurs_at(haystack@, prefix@, 0),
{
    let h = chars_of(haystack);
    let p = chars_of(prefix);
    if p.len() > h.len() {
        false
    } else {
        matches_at(&h, &p, 0)
    }
}

/// Whether `haystack` ends with `suffix`.
pub fn ends_with(haystack: &str, suffix: &str) -> (r: bool)
    ensures
        r == occurs_at(haystack@, suffix@, haystack@.len() - suffix@.len()),
{
    let h = chars_of(haystack);
    let s = chars_of(suffix);
    if s.len() > h.len() {
        false
    } else {
        matches_at(&h, &s, h.len() - s.len())
    }
}

/// Whether `needle` occurs anywhere in `haystack`.
pub fn contains(haystack: &str, needle: &str) -> (r: bool)
    ensures
        r == exists|at: int| occurs_at(haystack@, needle@, at),
{
    let h = chars_of(haystack);
    let n = chars_of(needle);
    if n.len() > h.len() {
        return false;
    }
    let last = h.len() - n.len();
    let mut at: usize = 0;
    loop
        invariant
            n@.len() <= h@.len(),
            last == h@.len() - n@.len(),
            at <= last,
            h@ == haystack@,
            n@ == needle@,
            forall|j: int| 0 <= j < at ==> !occurs_at(h@, n@, j),
        decreases last - at,
    {
        if matches_at(&h, &n, at) {
            proof {
                assert(occurs_at(haystack@, needle@, at as int));
            }
            return true;
        }
        if at == last {
            proof {
                assert forall|j: int| !occurs_at(haystack@, needle@, j) by {
                    if 0 <= j && j + needle@.len() <= haystack@.len() {
                        assert(j <= last);
                    }
                }
            }
            return false;
        }
        at = at + 1;
    }
}

} // verus!
