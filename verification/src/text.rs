//! Plain text helpers: characters, trimming, splitting, integer grammars.

use vstd::prelude::*;
use vstd::string::StrSliceExecFns;

use crate::arith::{digit_value, digits_value, is_digit, clone_chars};

verus! {

/// Relies on the standard library's `String::push`: appends one character.
pub assume_specification[ String::push ](s: &mut String, c: char)
    ensures
        final (s)@ == old(s)@.push(c),
;

/// The characters of a string slice, as a vector.
pub fn str_to_chars(s: &str) -> (r: Vec<char>)
    ensures
        r@ == s@,
{
    let n = s.unicode_len();
    let mut r: Vec<char> = Vec::new();
    for i in 0..n
        invariant
            n == s@.len(),
            r@ == s@.take(i as int),
    {
        r.push(s.get_char(i));
        assert(r@ =~= s@.take(i + 1));
    }
    assert(r@ =~= s@);
    r
}

/// A string holding exactly the given characters.
pub fn chars_to_string(v: &Vec<char>) -> (s: String)
    ensures
        s@ == v@,
{
    let mut s = String::new();
    let n = v.len();
    for i in 0..n
        invariant
            n == v@.len(),
            s@ == v@.take(i as int),
    {
        s.push(v[i]);
        assert(s@ =~= v@.take(i + 1));
    }
    assert(s@ =~= v@);
    s
}

/// Whether a character counts as whitespace for trimming, exactly the set
/// `char::is_whitespace` accepts.
pub open spec fn is_space(c: char) -> bool {
    c == ' ' || c == '\t' || c == '\n' || c == '\r' || c == '\u{b}' || c == '\u{c}'
        || c == '\u{85}' || c == '\u{a0}' || c == '\u{1680}'
        || ('\u{2000}' <= c && c <= '\u{200a}') || c == '\u{2028}' || c == '\u{2029}'
        || c == '\u{202f}' || c == '\u{205f}' || c == '\u{3000}'
}

pub fn is_space_char(c: char) -> (r: bool)
    ensures
        r == is_space(c),
{
    c == ' ' || c == '\t' || c == '\n' || c == '\r' || c == '\u{b}' || c == '\u{c}'
        || c == '\u{85}' || c == '\u{a0}' || c == '\u{1680}'
        || ('\u{2000}' <= c && c <= '\u{200a}') || c == '\u{2028}' || c == '\u{2029}'
        || c == '\u{202f}' || c == '\u{205f}' || c == '\u{3000}'
}

/// The number of leading whitespace characters.
pub open spec fn leading_spaces(s: Seq<char>) -> int
    decreases s.len(),
{
    if s.len() == 0 || !is_space(s[0]) {
        0
    } else {
        1 + leading_spaces(s.skip(1))
    }
}

/// The number of trailing whitespace characters.
pub open spec fn trailing_spaces(s: Seq<char>) -> int
    decreases s.len(),
{
    if s.len() == 0 || !is_space(s.last()) {
        0
    } else {
        1 + trailing_spaces(s.drop_last())
    }
}

/// A sequence with surrounding whitespace removed.
pub open spec fn spec_trim(s: Seq<char>) -> Seq<char> {
    if leading_spaces(s) == s.len() {
        Seq::<char>::empty()
    } else {
        s.subrange(leading_spaces(s), s.len() - trailing_spaces(s))
    }
}

/// `leading_spaces` is pinned by the first non-space character.
proof fn lemma_leading_spaces_exact(s: Seq<char>, k: int)
    requires
        0 <= k <= s.len(),
        forall|i: int| 0 <= i < k ==> is_space(s[i]),
        k < s.len() ==> !is_space(s[k]),
    ensures
        leading_spaces(s) == k,
    decreases k,
{
    if k > 0 {
        assert(is_space(s[0]));
        assert forall|i: int| 0 <= i < k - 1 implies is_space(s.skip(1)[i]) by {
            assert(s.skip(1)[i] == s[i + 1]);
        }
        assert(k - 1 < s.skip(1).len() ==> !is_space(s.skip(1)[k - 1]));
        lemma_leading_spaces_exact(s.skip(1), k - 1);
    }
}

/// `trailing_spaces` is pinned by the last non-space character.
proof fn lemma_trailing_spaces_exact(s: Seq<char>, t: int)
    requires
        0 <= t <= s.len(),
        forall|i: int| s.len() - t <= i < s.len() ==> is_space(s[i]),
        t < s.len() ==> !is_space(s[s.len() - t - 1]),
    ensures
        trailing_spaces(s) == t,
    decreases t,
{
    if t > 0 {
        assert(is_space(s.last()));
        let d = s.drop_last();
        assert forall|i: int| d.len() - (t - 1) <= i < d.len() implies is_space(d[i]) by {
            assert(d[i] == s[i]);
        }
        assert(t - 1 < d.len() ==> !is_space(d[d.len() - (t - 1) - 1]));
        lemma_trailing_spaces_exact(d, t - 1);
    }
}

/// The characters with surrounding whitespace removed.
pub fn trim_chars(v: &Vec<char>) -> (r: Vec<char>)
    ensures
        r@ == spec_trim(v@),
{
    let n = v.len();
    let mut start: usize = 0;
    while start < n && is_space_char(v[start])
        invariant
            n == v@.len(),
            0 <= start <= n,
            forall|i: int| 0 <= i < start ==> is_space(v@[i]),
        decreases n - start,
    {
        start = start + 1;
    }
    proof {
        lemma_leading_spaces_exact(v@, start as int);
    }
    if start == n {
        let r: Vec<char> = Vec::new();
        assert(r@ =~= spec_trim(v@));
        return r;
    }
    let mut end: usize = n;
    while end > start && is_space_char(v[end - 1])
        invariant
            start < n == v@.len(),
            start <= end <= n,
            forall|i: int| end <= i < n ==> is_space(v@[i]),
        decreases end,
    {
        end = end - 1;
    }
    proof {
        assert(!is_space(v@[start as int]));
        assert(end > start);
        lemma_trailing_spaces_exact(v@, (n - end) as int);
    }
    let mut r: Vec<char> = Vec::new();
    let mut i: usize = start;
    while i < end
        invariant
            start <= i <= end <= v@.len(),
            r@ == v@.subrange(start as int, i as int),
        decreases end - i,
    {
        r.push(v[i]);
        assert(r@ =~= v@.subrange(start as int, i + 1));
        i = i + 1;
    }
    proof {
        assert(r@ =~= spec_trim(v@));
    }
    r
}

/// The index of the first occurrence of `c`, or -1.
pub open spec fn first_index_of(s: Seq<char>, c: char) -> int
    decreases s.len(),
{
    if s.len() == 0 {
        -1
    } else if s[0] == c {
        0
    } else {
        let r = first_index_of(s.skip(1), c);
        if r < 0 {
            -1
        } else {
            r + 1
        }
    }
}

pub proof fn lemma_first_index_of(s: Seq<char>, c: char)
    ensures
        first_index_of(s, c) >= 0 ==> first_index_of(s, c) < s.len() && s[first_index_of(s, c)]
            == c && forall|i: int| 0 <= i < first_index_of(s, c) ==> s[i] != c,
        first_index_of(s, c) < 0 ==> forall|i: int| 0 <= i < s.len() ==> s[i] != c,
    decreases s.len(),
{
    if s.len() > 0 && s[0] != c {
        lemma_first_index_of(s.skip(1), c);
        let r = first_index_of(s.skip(1), c);
        if r >= 0 {
            assert forall|i: int| 0 <= i < r + 1 implies s[i] != c by {
                if i > 0 {
                    assert(s.skip(1)[i - 1] == s[i]);
                }
            }
        } else {
            assert forall|i: int| 0 <= i < s.len() implies s[i] != c by {
                if i > 0 {
                    assert(s.skip(1)[i - 1] == s[i]);
                }
            }
        }
    }
}

proof fn lemma_first_index_prefix(s: Seq<char>, c: char, k: int)
    requires
        0 <= k < s.len(),
        s[k] == c,
        forall|i: int| 0 <= i < k ==> s[i] != c,
    ensures
        first_index_of(s, c) == k,
    decreases k,
{
    if k > 0 {
        assert forall|i: int| 0 <= i < k - 1 implies s.skip(1)[i] != c by {
            assert(s.skip(1)[i] == s[i + 1]);
        }
        assert(s.skip(1)[k - 1] == s[k]);
        lemma_first_index_prefix(s.skip(1), c, k - 1);
    }
}

/// Finds the first occurrence of `c`.
pub fn find_char(v: &Vec<char>, c: char) -> (r: Option<usize>)
    ensures
        match r {
            Some(i) => i < v@.len() && v@[i as int] == c && first_index_of(v@, c) == i
                && forall|j: int| 0 <= j < i ==> v@[j] != c,
            None => first_index_of(v@, c) < 0 && forall|j: int| 0 <= j < v@.len() ==> v@[j] != c,
        },
{
    let n = v.len();
    for i in 0..n
        invariant
            n == v@.len(),
            forall|j: int| 0 <= j < i ==> v@[j] != c,
    {
        if v[i] == c {
            proof {
                lemma_first_index_prefix(v@, c, i as int);
            }
            return Some(i);
        }
    }
    proof {
        lemma_first_index_of(v@, c);
        if first_index_of(v@, c) >= 0 {
            assert(v@[first_index_of(v@, c)] == c);
        }
    }
    None
}

/// Whether `c` occurs in `s`.
pub open spec fn contains_char(s: Seq<char>, c: char) -> bool {
    exists|i: int| 0 <= i < s.len() && s[i] == c
}

/// Tests whether `c` occurs.
pub fn has_char(v: &Vec<char>, c: char) -> (r: bool)
    ensures
        r == contains_char(v@, c),
{
    match find_char(v, c) {
        Some(i) => {
            assert(contains_char(v@, c));
            true
        },
        None => {
            assert(!contains_char(v@, c));
            false
        },
    }
}

/// The pieces of `s` cut at every occurrence of `sep` (a sequence with no
/// separator is one piece; `k` separators give `k + 1` pieces).
pub open spec fn split_on(s: Seq<char>, sep: char) -> Seq<Seq<char>>
    decreases s.len(),
{
    let i = first_index_of(s, sep);
    if i < 0 || i >= s.len() {
        seq![s]
    } else {
        seq![s.take(i)] + split_on(s.skip(i + 1), sep)
    }
}

pub proof fn lemma_split_on_len(s: Seq<char>, sep: char)
    ensures
        split_on(s, sep).len() >= 1,
    decreases s.len(),
{
    let i = first_index_of(s, sep);
    if 0 <= i < s.len() {
        lemma_split_on_len(s.skip(i + 1), sep);
    }
}

/// A subrange copy of a character vector.
pub fn chars_range(v: &Vec<char>, from: usize, to: usize) -> (r: Vec<char>)
    requires
        from <= to <= v@.len(),
    ensures
        r@ == v@.subrange(from as int, to as int),
{
    let mut r: Vec<char> = Vec::new();
    let mut i: usize = from;
    while i < to
        invariant
            from <= i <= to <= v@.len(),
            r@ == v@.subrange(from as int, i as int),
        decreases to - i,
    {
        r.push(v[i]);
        assert(r@ =~= v@.subrange(from as int, i + 1));
        i = i + 1;
    }
    r
}

/// Splits at every occurrence of the separator.
pub fn split_char(v: &Vec<char>, sep: char) -> (r: Vec<Vec<char>>)
    ensures
        r.deep_view() == split_on(v@, sep),
        r.len() >= 1,
    decreases v@.len(),
{
    match find_char(v, sep) {
        None => {
            let mut r: Vec<Vec<char>> = Vec::new();
            r.push(clone_chars(v));
            proof {
                assert(r.deep_view() =~~= split_on(v@, sep));
            }
            r
        },
        Some(i) => {
            let n = v.len();
            assert(i < n);
            let head = chars_range(v, 0, i);
            let tail = chars_range(v, i + 1, n);
            assert(head@ =~= v@.take(i as int));
            assert(tail@ =~= v@.skip(i + 1));
            let mut rest = split_char(&tail, sep);
            let mut r: Vec<Vec<char>> = Vec::new();
            r.push(head);
            r.append(&mut rest);
            proof {
                assert(r.deep_view() =~~= split_on(v@, sep));
            }
            r
        },
    }
}

/// Whether every character is a decimal digit.
pub open spec fn all_digits(s: Seq<char>) -> bool {
    forall|i: int| 0 <= i < s.len() ==> is_digit(#[trigger] s[i])
}

/// The digit portion of an unsigned-integer literal: everything after an
/// optional leading `+`.
pub open spec fn uint_digits(s: Seq<char>) -> Seq<char> {
    if s.len() > 0 && s[0] == '+' {
        s.skip(1)
    } else {
        s
    }
}

/// The decimal-integer grammar the standard parser accepts for unsigned
/// integers: an optional `+`, then one or more digits (leading zeros
/// allowed), denoting a value within the given bound.
pub open spec fn spec_parse_uint(s: Seq<char>, max: nat) -> Option<nat> {
    let digits = uint_digits(s);
    if digits.len() >= 1 && all_digits(digits) && digits_value(digits) <= max {
        Some(digits_value(digits))
    } else {
        None
    }
}

/// Parses an unsigned decimal integer bounded by `max`, with the grammar of
/// the standard library: optional `+` sign, digits, no other characters.
pub fn parse_uint(v: &Vec<char>, max: u64) -> (r: Option<u64>)
    requires
        max <= 0xffff_ffff,
    ensures
        match r {
            Some(n) => spec_parse_uint(v@, max as nat) == Some(n as nat) && n <= max,
            None => spec_parse_uint(v@, max as nat) is None,
        },
{
    let start: usize = if v.len() > 0 && v[0] == '+' {
        1
    } else {
        0
    };
    let ghost digits = uint_digits(v@);
    assert(digits.len() == v@.len() - start);
    assert(forall|j: int| 0 <= j < digits.len() ==> digits[j] == v@[j + start]);
    if v.len() == start {
        return None;
    }
    let mut acc: u64 = 0;
    let mut i: usize = start;
    while i < v.len()
        invariant
            max <= 0xffff_ffff,
            start <= i <= v@.len(),
            start < v@.len(),
            digits == uint_digits(v@),
            v@.len() > 0 && v@[0] == '+' ==> start == 1,
            !(v@.len() > 0 && v@[0] == '+') ==> start == 0,
            digits.len() == v@.len() - start,
            forall|j: int| 0 <= j < digits.len() ==> digits[j] == v@[j + start],
            forall|j: int| 0 <= j < i - start ==> is_digit(digits[j]),
            acc == digits_value(digits.take((i - start) as int)),
            acc <= max,
        decreases v@.len() - i,
    {
        let c = v[i];
        proof {
            assert(digits[i - start] == v@[i as int]);
        }
        if !('0' <= c && c <= '9') {
            proof {
                assert(0 <= i - start < digits.len() && !is_digit(digits[i - start]));
                assert(!all_digits(digits));
                assert(spec_parse_uint(v@, max as nat) is None);
            }
            return None;
        }
        let d: u64 = (c as u32 as u64) - 48;
        proof {
            assert(c as u32 >= 48 && c as u32 <= 57);
            assert(d == digit_value(c));
            let p = digits.take((i + 1 - start) as int);
            assert(p.drop_last() =~= digits.take((i - start) as int));
            assert(p.last() == digits[i - start]);
            assert(digits_value(p) == 10 * acc + d);
        }
        if acc > max / 10 || (acc == max / 10 && d > max % 10) {
            proof {
                assert(10 * acc + d > max);
                if all_digits(digits) {
                    lemma_digits_value_grows(digits, (i + 1 - start) as int);
                    assert(digits_value(digits) > max);
                }
                assert(spec_parse_uint(v@, max as nat) is None);
            }
            return None;
        }
        assert(10 * acc + d <= max);
        acc = 10 * acc + d;
        i = i + 1;
    }
    proof {
        assert(digits.take(digits.len() as int) =~= digits);
    }
    Some(acc)
}

/// The value of a digit sequence is at least the value of any prefix.
proof fn lemma_digits_value_grows(s: Seq<char>, k: int)
    requires
        0 <= k <= s.len(),
    ensures
        digits_value(s) >= digits_value(s.take(k)),
    decreases s.len(),
{
    if k < s.len() {
        lemma_digits_value_grows(s.drop_last(), k);
        assert(s.drop_last().take(k) =~= s.take(k));
        assert(digits_value(s) == 10 * digits_value(s.drop_last()) + digit_value(s.last()));
    } else {
        assert(s.take(k) =~= s);
    }
}

/// Whether two character sequences are equal.
pub fn chars_eq(a: &Vec<char>, b: &Vec<char>) -> (r: bool)
    ensures
        r == (a@ == b@),
{
    if a.len() != b.len() {
        assert(a@.len() != b@.len());
        return false;
    }
    let n = a.len();
    for i in 0..n
        invariant
            n == a@.len() == b@.len(),
            forall|j: int| 0 <= j < i ==> a@[j] == b@[j],
    {
        if a[i] != b[i] {
            return false;
        }
    }
    proof {
        assert(a@ =~= b@);
    }
    true
}

/// Whether the characters equal a string literal's characters.
pub fn chars_eq_str(a: &Vec<char>, s: &str) -> (r: bool)
    ensures
        r == (a@ == s@),
{
    let b = str_to_chars(s);
    chars_eq(a, &b)
}


/// Whether `s` begins with `p`.
pub open spec fn starts_with(s: Seq<char>, p: Seq<char>) -> bool {
    s.len() >= p.len() && s.take(p.len() as int) == p
}

/// Tests a prefix.
pub fn has_prefix(v: &Vec<char>, p: &Vec<char>) -> (r: bool)
    ensures
        r == starts_with(v@, p@),
{
    if v.len() < p.len() {
        return false;
    }
    let n = p.len();
    for i in 0..n
        invariant
            n == p@.len() <= v@.len(),
            forall|j: int| 0 <= j < i ==> v@[j] == p@[j],
    {
        if v[i] != p[i] {
            proof {
                assert(v@.take(p@.len() as int)[i as int] != p@[i as int]);
            }
            return false;
        }
    }
    proof {
        assert(v@.take(p@.len() as int) =~= p@);
    }
    true
}

/// Every occurrence of `from` replaced by `to`, leftmost first, without
/// overlap: the replacement semantics of the standard library.
pub open spec fn spec_replace(s: Seq<char>, from: Seq<char>, to: Seq<char>) -> Seq<char>
    decreases s.len(),
        when from.len() >= 1
{
    if s.len() < from.len() {
        s
    } else if s.take(from.len() as int) == from {
        to + spec_replace(s.skip(from.len() as int), from, to)
    } else {
        seq![s[0]] + spec_replace(s.skip(1), from, to)
    }
}

/// Replaces every occurrence, leftmost first.
pub fn replace_all(s: &Vec<char>, from: &Vec<char>, to: &Vec<char>) -> (r: Vec<char>)
    requires
        from@.len() >= 1,
    ensures
        r@ == spec_replace(s@, from@, to@),
    decreases s@.len(),
{
    if s.len() < from.len() {
        return clone_chars(s);
    }
    let head = chars_range(s, 0, from.len());
    if chars_eq(&head, from) {
        proof {
            assert(head@ =~= s@.take(from@.len() as int));
        }
        let tail = chars_range(s, from.len(), s.len());
        proof {
            assert(tail@ =~= s@.skip(from@.len() as int));
        }
        let mut r = clone_chars(to);
        let mut rest = replace_all(&tail, from, to);
        r.append(&mut rest);
        proof {
            assert(r@ =~= spec_replace(s@, from@, to@));
        }
        r
    } else {
        proof {
            assert(head@ =~= s@.take(from@.len() as int));
        }
        let tail = chars_range(s, 1, s.len());
        proof {
            assert(tail@ =~= s@.skip(1));
        }
        let mut r: Vec<char> = Vec::new();
        r.push(s[0]);
        let mut rest = replace_all(&tail, from, to);
        r.append(&mut rest);
        proof {
            assert(r@ =~= spec_replace(s@, from@, to@));
        }
        r
    }
}

/// The length of the leading run of non-whitespace characters.
pub open spec fn token_end(s: Seq<char>) -> int
    decreases s.len(),
{
    if s.len() == 0 || is_space(s[0]) {
        0
    } else {
        1 + token_end(s.skip(1))
    }
}

pub proof fn lemma_token_end(s: Seq<char>)
    ensures
        0 <= token_end(s) <= s.len(),
        s.len() > 0 && !is_space(s[0]) ==> token_end(s) >= 1,
    decreases s.len(),
{
    if s.len() > 0 && !is_space(s[0]) {
        lemma_token_end(s.skip(1));
    }
}

/// The whitespace-separated tokens of a sequence, in order, none empty.
pub open spec fn spec_tokens(s: Seq<char>) -> Seq<Seq<char>>
    decreases s.len(),
    via spec_tokens_dec
{
    if s.len() == 0 {
        Seq::<Seq<char>>::empty()
    } else if is_space(s[0]) {
        spec_tokens(s.skip(1))
    } else {
        seq![s.take(token_end(s))] + spec_tokens(s.skip(token_end(s)))
    }
}

#[via_fn]
proof fn spec_tokens_dec(s: Seq<char>) {
    lemma_token_end(s);
}

/// The end of the token starting at `i`.
fn token_end_from(v: &Vec<char>, i: usize) -> (r: usize)
    requires
        i <= v@.len(),
    ensures
        r - i == token_end(v@.skip(i as int)),
        i <= r <= v@.len(),
    decreases v@.len() - i,
{
    if i == v.len() || is_space_char(v[i]) {
        proof {
            if i < v@.len() {
                assert(v@.skip(i as int)[0] == v@[i as int]);
            }
        }
        i
    } else {
        proof {
            assert(v@.skip(i as int)[0] == v@[i as int]);
            assert(v@.skip(i as int).skip(1) =~= v@.skip(i + 1));
        }
        token_end_from(v, i + 1)
    }
}

/// Splits into whitespace-separated tokens.
pub fn tokenize(v: &Vec<char>) -> (r: Vec<Vec<char>>)
    ensures
        r.deep_view() == spec_tokens(v@),
{
    let mut r: Vec<Vec<char>> = Vec::new();
    tokenize_from(v, 0, &mut r);
    proof {
        assert(v@.skip(0) =~= v@);
    }
    r
}

fn tokenize_from(v: &Vec<char>, i: usize, out: &mut Vec<Vec<char>>)
    requires
        i <= v@.len(),
    ensures
        final (out).deep_view() == old(out).deep_view() + spec_tokens(v@.skip(i as int)),
    decreases v@.len() - i,
{
    if i == v.len() {
        proof {
            assert(v@.skip(i as int) =~= Seq::<char>::empty());
            assert(out.deep_view() =~~= old(out).deep_view() + spec_tokens(v@.skip(i as int)));
        }
        return ;
    }
    proof {
        assert(v@.skip(i as int)[0] == v@[i as int]);
    }
    if is_space_char(v[i]) {
        proof {
            assert(v@.skip(i as int).skip(1) =~= v@.skip(i + 1));
        }
        tokenize_from(v, i + 1, out);
        return ;
    }
    let e = token_end_from(v, i);
    proof {
        lemma_token_end(v@.skip(i as int));
        assert(e > i);
    }
    let tok = chars_range(v, i, e);
    proof {
        assert(tok@ =~= v@.skip(i as int).take(token_end(v@.skip(i as int))));
        assert(v@.skip(i as int).skip(token_end(v@.skip(i as int))) =~= v@.skip(e as int));
    }
    let ghost before = out.deep_view();
    out.push(tok);
    proof {
        assert(out.deep_view() =~~= before.push(tok@));
    }
    tokenize_from(v, e, out);
    proof {
        assert(out.deep_view() =~~= before + spec_tokens(v@.skip(i as int)));
    }
}


/// Whether `sub` occurs as a contiguous part of `s`.
pub open spec fn contains_seq(s: Seq<char>, sub: Seq<char>) -> bool {
    exists|i: int|
        0 <= i <= s.len() - sub.len() && #[trigger] s.subrange(i, i + sub.len()) == sub
}

/// Finds a substring.
pub fn has_sub(v: &Vec<char>, sub: &Vec<char>) -> (r: bool)
    requires
        sub@.len() >= 1,
    ensures
        r == contains_seq(v@, sub@),
{
    if sub.len() > v.len() {
        proof {
            assert(!contains_seq(v@, sub@));
        }
        return false;
    }
    let last = v.len() - sub.len();
    let mut i: usize = 0;
    while i <= last
        invariant
            1 <= sub@.len() <= v@.len(),
            v@.len() <= usize::MAX,
            last == v@.len() - sub@.len(),
            0 <= i <= last + 1,
            forall|k: int| 0 <= k < i ==> #[trigger] v@.subrange(k, k + sub@.len()) != sub@,
        decreases last + 1 - i,
    {
        let window = chars_range(v, i, i + sub.len());
        if chars_eq(&window, sub) {
            proof {
                assert(v@.subrange(i as int, i + sub@.len()) == sub@);
            }
            return true;
        }
        i = i + 1;
    }
    proof {
        assert(!contains_seq(v@, sub@));
    }
    false
}

} // verus!
