//! Character-level text helpers shared by the parsers: conversion between
//! `str` and `Vec<char>`, Unicode whitespace, trimming and line splitting as
//! `str::lines` does it.

use vstd::prelude::*;

verus! {

/// `String::push` appends one character.
pub assume_specification[ String::push ](s: &mut String, ch: char)
    ensures
        final(s)@ == old(s)@.push(ch),
;

/// The characters of `s`, in order.
pub fn chars_of(s: &str) -> (v: Vec<char>)
    ensures
        v@ == s@,
{
    let mut v: Vec<char> = Vec::new();
    for c in it: s.chars()
        invariant
            v@ == it.seq().subrange(0, it.index() as int),
            it.seq() == s@,
    {
        v.push(c);
        proof {
            assert(v@ =~= it.seq().subrange(0, it.index() + 1));
        }
    }
    v
}

/// A `String` holding exactly the characters of `v`.
pub fn string_from(v: &[char]) -> (s: String)
    ensures
        s@ == v@,
{
    let mut s = String::new();
    let mut i: usize = 0;
    while i < v.len()
        invariant
            i <= v.len(),
            s@ == v@.subrange(0, i as int),
        decreases v.len() - i,
    {
        s.push(v[i]);
        proof {
            assert(s@ =~= v@.subrange(0, i + 1));
        }
        i = i + 1;
    }
    proof {
        assert(v@.subrange(0, v.len() as int) =~= v@);
    }
    s
}


/// Unicode `White_Space`, the property `char::is_whitespace` tests.
pub open spec fn is_ws(c: char) -> bool {
    let u = c as u32;
    (0x09 <= u <= 0x0D) || u == 0x20 || u == 0x85 || u == 0xA0 || u == 0x1680
        || (0x2000 <= u <= 0x200A) || u == 0x2028 || u == 0x2029 || u == 0x202F
        || u == 0x205F || u == 0x3000
}

/// Whether `c` is Unicode whitespace.
pub fn char_is_ws(c: char) -> (b: bool)
    ensures
        b == is_ws(c),
{
    let u = c as u32;
    (0x09 <= u && u <= 0x0D) || u == 0x20 || u == 0x85 || u == 0xA0 || u == 0x1680
        || (0x2000 <= u && u <= 0x200A) || u == 0x2028 || u == 0x2029 || u == 0x202F
        || u == 0x205F || u == 0x3000
}

/// Number of leading whitespace characters.
pub open spec fn ws_prefix(s: Seq<char>) -> nat
    decreases s.len(),
{
    if s.len() > 0 && is_ws(s[0]) {
        1 + ws_prefix(s.drop_first())
    } else {
        0
    }
}

/// Number of trailing whitespace characters.
pub open spec fn ws_suffix(s: Seq<char>) -> nat
    decreases s.len(),
{
    if s.len() > 0 && is_ws(s.last()) {
        1 + ws_suffix(s.drop_last())
    } else {
        0
    }
}

/// `s` without leading whitespace (`str::trim_start`).
pub open spec fn trim_start(s: Seq<char>) -> Seq<char> {
    s.skip(ws_prefix(s) as int)
}

/// `s` without trailing whitespace (`str::trim_end`).
pub open spec fn trim_end(s: Seq<char>) -> Seq<char> {
    s.take(s.len() - ws_suffix(s))
}

/// `s` without leading or trailing whitespace (`str::trim`).
pub open spec fn trim(s: Seq<char>) -> Seq<char> {
    trim_end(trim_start(s))
}

pub proof fn lemma_ws_prefix_bound(s: Seq<char>)
    ensures
        ws_prefix(s) <= s.len(),
        forall|j: int| 0 <= j < ws_prefix(s) ==> is_ws(#[trigger] s[j]),
        ws_prefix(s) < s.len() ==> !is_ws(s[ws_prefix(s) as int]),
    decreases s.len(),
{
    if s.len() > 0 && is_ws(s[0]) {
        lemma_ws_prefix_bound(s.drop_first());
        assert forall|j: int| 0 <= j < ws_prefix(s) implies is_ws(#[trigger] s[j]) by {
            if j > 0 {
                assert(s[j] == s.drop_first()[j - 1]);
            }
        }
    }
}

pub proof fn lemma_ws_suffix_bound(s: Seq<char>)
    ensures
        ws_suffix(s) <= s.len(),
        forall|j: int| s.len() - ws_suffix(s) <= j < s.len() ==> is_ws(#[trigger] s[j]),
        ws_suffix(s) < s.len() ==> !is_ws(s[s.len() - ws_suffix(s) - 1]),
    decreases s.len(),
{
    if s.len() > 0 && is_ws(s.last()) {
        lemma_ws_suffix_bound(s.drop_last());
        assert forall|j: int| s.len() - ws_suffix(s) <= j < s.len() implies is_ws(#[trigger] s[j]) by {
            if j < s.len() - 1 {
                assert(s[j] == s.drop_last()[j]);
            }
        }
    }
}

/// Index of the first non-whitespace character of `s[lo..hi]` (or `hi`).
pub fn skip_ws(s: &[char], lo: usize, hi: usize) -> (k: usize)
    requires
        lo <= hi <= s@.len(),
    ensures
        k == lo + ws_prefix(s@.subrange(lo as int, hi as int)),
        lo <= k <= hi,
{
    let mut k = lo;
    while k < hi && char_is_ws(s[k])
        invariant
            lo <= k <= hi <= s@.len(),
            ws_prefix(s@.subrange(lo as int, hi as int)) == (k - lo) + ws_prefix(
                s@.subrange(k as int, hi as int),
            ),
        decreases hi - k,
    {
        assert(s@.subrange(k as int, hi as int).drop_first() =~= s@.subrange(k + 1, hi as int));
        k = k + 1;
    }
    proof {
        lemma_ws_prefix_bound(s@.subrange(lo as int, hi as int));
    }
    k
}

/// Index one past the last non-whitespace character of `s[lo..hi]` (or `lo`).
pub fn skip_ws_back(s: &[char], lo: usize, hi: usize) -> (k: usize)
    requires
        lo <= hi <= s@.len(),
    ensures
        k == hi - ws_suffix(s@.subrange(lo as int, hi as int)),
        lo <= k <= hi,
{
    let mut k = hi;
    while k > lo && char_is_ws(s[k - 1])
        invariant
            lo <= k <= hi <= s@.len(),
            ws_suffix(s@.subrange(lo as int, hi as int)) == (hi - k) + ws_suffix(
                s@.subrange(lo as int, k as int),
            ),
        decreases k - lo,
    {
        assert(s@.subrange(lo as int, k as int).drop_last() =~= s@.subrange(lo as int, k - 1));
        k = k - 1;
    }
    proof {
        lemma_ws_suffix_bound(s@.subrange(lo as int, hi as int));
    }
    k
}

/// Bounds `(a, b)` of `trim(s[lo..hi])` inside `s`.
pub fn trim_bounds(s: &[char], lo: usize, hi: usize) -> (r: (usize, usize))
    requires
        lo <= hi <= s@.len(),
    ensures
        lo <= r.0 <= r.1 <= hi,
        s@.subrange(r.0 as int, r.1 as int) == trim(s@.subrange(lo as int, hi as int)),
{
    let a = skip_ws(s, lo, hi);
    let b = skip_ws_back(s, a, hi);
    proof {
        let t = s@.subrange(lo as int, hi as int);
        assert(trim_start(t) =~= s@.subrange(a as int, hi as int));
        assert(trim(t) =~= s@.subrange(a as int, b as int));
    }
    (a, b)
}

/// Index of the first `c` in `s`, or `s.len()` when there is none.
pub open spec fn find_char(s: Seq<char>, c: char) -> nat
    decreases s.len(),
{
    if s.len() == 0 {
        0
    } else if s[0] == c {
        0
    } else {
        1 + find_char(s.drop_first(), c)
    }
}

pub proof fn lemma_find_char(s: Seq<char>, c: char)
    ensures
        find_char(s, c) <= s.len(),
        forall|j: int| 0 <= j < find_char(s, c) ==> #[trigger] s[j] != c,
        find_char(s, c) < s.len() ==> s[find_char(s, c) as int] == c,
    decreases s.len(),
{
    if s.len() > 0 && s[0] != c {
        lemma_find_char(s.drop_first(), c);
        assert forall|j: int| 0 <= j < find_char(s, c) implies #[trigger] s[j] != c by {
            if j > 0 {
                assert(s[j] == s.drop_first()[j - 1]);
            }
        }
    }
}

/// A line as `str::lines` yields it: one trailing `'\r'` is dropped.
pub open spec fn strip_cr(line: Seq<char>) -> Seq<char> {
    if line.len() > 0 && line.last() == '\r' {
        line.drop_last()
    } else {
        line
    }
}

/// The first line of `s` (without its line ending) and the text after it.
/// Only called on non-empty `s`; the final line ending is optional.
pub open spec fn next_line(s: Seq<char>) -> (Seq<char>, Seq<char>) {
    let k = find_char(s, '\n') as int;
    if k < s.len() {
        (strip_cr(s.take(k)), s.skip(k + 1))
    } else {
        (s, Seq::empty())
    }
}

/// Finds the line starting at `pos`: returns `(line_end, next_start)` where
/// `s[pos..line_end]` is the line as `str::lines` yields it and `next_start`
/// is where the remaining text starts.
pub fn line_at(s: &[char], pos: usize) -> (r: (usize, usize))
    requires
        pos < s@.len(),
    ensures
        pos <= r.0 <= s@.len(),
        pos < r.1 <= s@.len(),
        s@.subrange(pos as int, r.0 as int) == next_line(s@.skip(pos as int)).0,
        s@.skip(r.1 as int) == next_line(s@.skip(pos as int)).1,
{
    let mut k = pos;
    while k < s.len() && s[k] != '\n'
        invariant
            pos <= k <= s@.len(),
            find_char(s@.skip(pos as int), '\n') == (k - pos) + find_char(s@.skip(k as int), '\n'),
        decreases s.len() - k,
    {
        assert(s@.skip(k as int).drop_first() =~= s@.skip(k + 1));
        k = k + 1;
    }
    proof {
        lemma_find_char(s@.skip(pos as int), '\n');
        if k < s.len() {
            assert(s@.skip(k as int)[0] == '\n');
        }
    }
    let ghost rest = s@.skip(pos as int);
    if k < s.len() {
        let mut end = k;
        if end > pos && s[end - 1] == '\r' {
            end = end - 1;
        }
        proof {
            assert(rest.take((k - pos) as int) =~= s@.subrange(pos as int, k as int));
            assert(rest.skip((k - pos) + 1) =~= s@.skip(k + 1));
            assert(s@.subrange(pos as int, end as int) =~= strip_cr(s@.subrange(pos as int, k as int)));
        }
        (end, k + 1)
    } else {
        proof {
            assert(rest =~= s@.subrange(pos as int, k as int));
            assert(s@.skip(k as int) =~= Seq::<char>::empty());
        }
        (k, k)
    }
}

/// ASCII hexadecimal digit.
pub open spec fn is_hex_digit(c: char) -> bool {
    ('0' <= c <= '9') || ('a' <= c <= 'f') || ('A' <= c <= 'F')
}

/// Value of an ASCII hexadecimal digit.
pub open spec fn hex_val(c: char) -> nat {
    if '0' <= c <= '9' {
        (c as nat - '0' as nat) as nat
    } else if 'a' <= c <= 'f' {
        (c as nat - 'a' as nat + 10) as nat
    } else {
        (c as nat - 'A' as nat + 10) as nat
    }
}

/// Value of a hexadecimal digit, if `c` is one.
pub fn hex_digit(c: char) -> (r: Option<u8>)
    ensures
        r is Some <==> is_hex_digit(c),
        r matches Some(v) ==> v == hex_val(c) && v < 16,
{
    if '0' <= c && c <= '9' {
        Some(((c as u32) - ('0' as u32)) as u8)
    } else if 'a' <= c && c <= 'f' {
        Some(((c as u32) - ('a' as u32) + 10) as u8)
    } else if 'A' <= c && c <= 'F' {
        Some(((c as u32) - ('A' as u32) + 10) as u8)
    } else {
        None
    }
}

/// Number of bytes of the UTF-8 encoding of `c`.
pub open spec fn utf8_width(c: char) -> nat {
    if (c as u32) < 0x80 {
        1
    } else if (c as u32) < 0x800 {
        2
    } else if (c as u32) < 0x1_0000 {
        3
    } else {
        4
    }
}

/// Number of bytes of the UTF-8 encoding of `s` (`str::len`).
pub open spec fn utf8_len(s: Seq<char>) -> nat
    decreases s.len(),
{
    if s.len() == 0 {
        0
    } else {
        utf8_len(s.drop_last()) + utf8_width(s.last())
    }
}

/// Every character of `s` is ASCII.
pub open spec fn all_ascii(s: Seq<char>) -> bool {
    forall|i: int| 0 <= i < s.len() ==> (#[trigger] s[i] as u32) < 0x80
}

pub proof fn lemma_ascii_utf8_len(s: Seq<char>)
    requires
        all_ascii(s),
    ensures
        utf8_len(s) == s.len(),
    decreases s.len(),
{
    if s.len() > 0 {
        assert(all_ascii(s.drop_last())) by {
            assert forall|i: int| 0 <= i < s.drop_last().len() implies (#[trigger] s.drop_last()[i] as u32) < 0x80 by {
                assert(s.drop_last()[i] == s[i]);
            }
        }
        lemma_ascii_utf8_len(s.drop_last());
    }
}

/// Facts about `s[lo..hi]` that the byte-level checks need: whether it is
/// ASCII, its UTF-8 length capped at `cap`, and the parity of that length.
pub fn utf8_shape(s: &[char], lo: usize, hi: usize, cap: usize) -> (r: (bool, usize, bool))
    requires
        lo <= hi <= s@.len(),
        cap < 0x1000,
    ensures
        r.0 == all_ascii(s@.subrange(lo as int, hi as int)),
        r.1 == (if utf8_len(s@.subrange(lo as int, hi as int)) < cap {
            utf8_len(s@.subrange(lo as int, hi as int))
        } else {
            cap as nat
        }),
        r.2 == (utf8_len(s@.subrange(lo as int, hi as int)) % 2 == 1),
{
    let mut ascii = true;
    let mut capped: usize = 0;
    let mut odd = false;
    let mut k = lo;
    while k < hi
        invariant
            lo <= k <= hi <= s@.len(),
            cap < 0x1000,
            ascii == all_ascii(s@.subrange(lo as int, k as int)),
            capped == (if utf8_len(s@.subrange(lo as int, k as int)) < cap {
                utf8_len(s@.subrange(lo as int, k as int))
            } else {
                cap as nat
            }),
            odd == (utf8_len(s@.subrange(lo as int, k as int)) % 2 == 1),
        decreases hi - k,
    {
        let c = s[k];
        let u = c as u32;
        let w: usize = if u < 0x80 {
            1
        } else if u < 0x800 {
            2
        } else if u < 0x1_0000 {
            3
        } else {
            4
        };
        proof {
            let p = s@.subrange(lo as int, k as int);
            let q = s@.subrange(lo as int, k + 1);
            assert(q.drop_last() =~= p);
            assert(q.last() == c);
            if ascii && u < 0x80 {
                assert forall|i: int| 0 <= i < q.len() implies (#[trigger] q[i] as u32) < 0x80 by {
                    if i < p.len() {
                        assert(q[i] == p[i]);
                    }
                }
            }
            if !(u < 0x80) {
                assert(!((q[q.len() - 1] as u32) < 0x80));
            }
            if !ascii {
                let i = choose|i: int| 0 <= i < p.len() && !((p[i] as u32) < 0x80);
                assert(q[i] == p[i]);
            }
        }
        ascii = ascii && u < 0x80;
        capped = if capped + w < cap { capped + w } else { cap };
        odd = if w % 2 == 1 { !odd } else { odd };
        k = k + 1;
    }
    (ascii, capped, odd)
}

/// Number of leading non-whitespace characters.
pub open spec fn word_len(s: Seq<char>) -> nat
    decreases s.len(),
{
    if s.len() > 0 && !is_ws(s[0]) {
        1 + word_len(s.drop_first())
    } else {
        0
    }
}

pub proof fn lemma_word_len(s: Seq<char>)
    ensures
        word_len(s) <= s.len(),
        forall|j: int| 0 <= j < word_len(s) ==> !is_ws(#[trigger] s[j]),
        word_len(s) < s.len() ==> is_ws(s[word_len(s) as int]),
    decreases s.len(),
{
    if s.len() > 0 && !is_ws(s[0]) {
        lemma_word_len(s.drop_first());
        assert forall|j: int| 0 <= j < word_len(s) implies !is_ws(#[trigger] s[j]) by {
            if j > 0 {
                assert(s[j] == s.drop_first()[j - 1]);
            }
        }
    }
}

/// Index one past the end of the word starting at `lo` in `s[..hi]`.
pub fn skip_word(s: &[char], lo: usize, hi: usize) -> (k: usize)
    requires
        lo <= hi <= s@.len(),
    ensures
        k == lo + word_len(s@.subrange(lo as int, hi as int)),
        lo <= k <= hi,
{
    let mut k = lo;
    while k < hi && !char_is_ws(s[k])
        invariant
            lo <= k <= hi <= s@.len(),
            word_len(s@.subrange(lo as int, hi as int)) == (k - lo) + word_len(
                s@.subrange(k as int, hi as int),
            ),
        decreases hi - k,
    {
        assert(s@.subrange(k as int, hi as int).drop_first() =~= s@.subrange(k + 1, hi as int));
        k = k + 1;
    }
    proof {
        lemma_word_len(s@.subrange(lo as int, hi as int));
    }
    k
}

/// Value of a string of hexadecimal digits.
pub open spec fn hex_number(d: Seq<char>) -> nat
    decreases d.len(),
{
    if d.len() == 0 {
        0
    } else {
        16 * hex_number(d.drop_last()) + hex_val(d.last())
    }
}

/// Every character of `d` is a hexadecimal digit.
pub open spec fn all_hex(d: Seq<char>) -> bool {
    forall|i: int| 0 <= i < d.len() ==> is_hex_digit(#[trigger] d[i])
}

/// `u32::from_str_radix(s, 16)`: an optional `'+'`, then at least one hex
/// digit, with a value below 2^32.
pub open spec fn parse_hex_u32(s: Seq<char>) -> Option<u32> {
    let d = if s.len() > 0 && s[0] == '+' { s.drop_first() } else { s };
    if d.len() > 0 && all_hex(d) && hex_number(d) < 0x1_0000_0000 {
        Some(hex_number(d) as u32)
    } else {
        None
    }
}

pub proof fn lemma_hex_number_grows(d: Seq<char>, i: int)
    requires
        0 <= i <= d.len(),
    ensures
        hex_number(d.take(i)) <= hex_number(d),
    decreases d.len() - i,
{
    if i < d.len() {
        lemma_hex_number_grows(d, i + 1);
        assert(d.take(i + 1).drop_last() =~= d.take(i));
    } else {
        assert(d.take(i) =~= d);
    }
}

/// Parses `s[lo..hi]` as `u32::from_str_radix(.., 16)` does.
pub fn hex_u32(s: &[char], lo: usize, hi: usize) -> (r: Option<u32>)
    requires
        lo <= hi <= s@.len(),
    ensures
        r == parse_hex_u32(s@.subrange(lo as int, hi as int)),
{
    let ghost t = s@.subrange(lo as int, hi as int);
    let mut start = lo;
    if lo < hi && s[lo] == '+' {
        start = lo + 1;
    }
    let ghost d = s@.subrange(start as int, hi as int);
    proof {
        if lo < hi && s@[lo as int] == '+' {
            assert(t.drop_first() =~= d);
        } else {
            assert(t =~= d);
        }
    }
    if start == hi {
        return None;
    }
    let mut acc: u64 = 0;
    let mut k = start;
    while k < hi
        invariant
            start <= k <= hi <= s@.len(),
            d == s@.subrange(start as int, hi as int),
            t == s@.subrange(lo as int, hi as int),
            d == (if t.len() > 0 && t[0] == '+' { t.drop_first() } else { t }),
            acc < 0x1_0000_0000,
            acc == hex_number(d.take(k - start)),
            all_hex(d.take(k - start)),
        decreases hi - k,
    {
        let ghost i = (k - start) as int;
        proof {
            assert(d.take(i + 1).drop_last() =~= d.take(i));
            assert(d.take(i + 1).last() == s@[k as int]);
        }
        match hex_digit(s[k]) {
            None => {
                proof {
                    assert(!is_hex_digit(d[i]));
                }
                return None;
            },
            Some(v) => {
                acc = acc * 16 + v as u64;
                proof {
                    assert(acc == hex_number(d.take(i + 1)));
                    assert forall|j: int| 0 <= j < i + 1 implies is_hex_digit(#[trigger] d.take(i + 1)[j]) by {
                        if j < i {
                            assert(d.take(i + 1)[j] == d.take(i)[j]);
                        }
                    }
                }
                if acc >= 0x1_0000_0000 {
                    proof {
                        lemma_hex_number_grows(d, i + 1);
                    }
                    return None;
                }
            },
        }
        k = k + 1;
    }
    proof {
        assert(d.take(d.len() as int) =~= d);
    }
    Some(acc as u32)
}

/// `c` with ASCII upper-case letters mapped to lower case.
pub open spec fn lower_char(c: char) -> char {
    if 'A' <= c <= 'Z' {
        ((c as u32) + 32) as char
    } else {
        c
    }
}

/// `str::to_ascii_lowercase`.
pub open spec fn to_ascii_lowercase(s: Seq<char>) -> Seq<char> {
    s.map_values(|c: char| lower_char(c))
}

/// ASCII lower case of one character.
pub fn lower(c: char) -> (r: char)
    ensures
        r == lower_char(c),
{
    if 'A' <= c && c <= 'Z' {
        ((c as u8) + 32) as char
    } else {
        c
    }
}

/// ASCII lower case of a character sequence.
pub fn ascii_lower(s: &[char]) -> (r: Vec<char>)
    ensures
        r@ == to_ascii_lowercase(s@),
{
    let mut r: Vec<char> = Vec::new();
    let mut i: usize = 0;
    while i < s.len()
        invariant
            i <= s@.len(),
            r@ == to_ascii_lowercase(s@.subrange(0, i as int)),
        decreases s.len() - i,
    {
        r.push(lower(s[i]));
        proof {
            assert(r@ =~= to_ascii_lowercase(s@.subrange(0, i + 1)));
        }
        i = i + 1;
    }
    proof {
        assert(s@.subrange(0, s@.len() as int) =~= s@);
    }
    r
}

/// `p` occurs in `s` (`str::contains`).
pub open spec fn has_sub(s: Seq<char>, p: Seq<char>) -> bool {
    exists|i: int| 0 <= i && i + p.len() <= s.len() && #[trigger] s.subrange(i, i + p.len()) == p
}

/// `s` starts with `p`.
pub open spec fn starts_with(s: Seq<char>, p: Seq<char>) -> bool {
    p.len() <= s.len() && s.take(p.len() as int) == p
}

/// `s` ends with `p`.
pub open spec fn ends_with(s: Seq<char>, p: Seq<char>) -> bool {
    p.len() <= s.len() && s.skip(s.len() - p.len()) == p
}

/// Whether `s[at..]` starts with `p`.
pub fn matches_at(s: &[char], at: usize, p: &[char]) -> (b: bool)
    requires
        at <= s@.len(),
    ensures
        b == (at + p@.len() <= s@.len() && s@.subrange(at as int, at + p@.len()) == p@),
{
    let n = s.len();
    if p.len() > n - at {
        return false;
    }
    let mut j: usize = 0;
    while j < p.len()
        invariant
            j <= p@.len(),
            n == s@.len(),
            at + p@.len() <= n,
            forall|k: int| 0 <= k < j ==> s@[at + k] == p@[k],
        decreases p.len() - j,
    {
        if s[at + j] != p[j] {
            proof {
                assert(s@.subrange(at as int, at + p@.len())[j as int] != p@[j as int]);
            }
            return false;
        }
        j = j + 1;
    }
    proof {
        assert(s@.subrange(at as int, at + p@.len()) =~= p@);
    }
    true
}

/// Whether `p` occurs in `s`.
pub fn contains_chars(s: &[char], p: &[char]) -> (b: bool)
    ensures
        b == has_sub(s@, p@),
{
    if p.len() > s.len() {
        return false;
    }
    if p.len() == 0 {
        proof {
            assert(s@.subrange(0int, 0int + p@.len()) =~= p@);
        }
        return true;
    }
    let limit = s.len() - p.len();
    let mut i: usize = 0;
    while i <= limit
        invariant
            p@.len() <= s@.len(),
            p@.len() > 0,
            limit == s@.len() - p@.len(),
            limit < usize::MAX,
            i <= limit + 1,
            forall|k: int| 0 <= k < i ==> #[trigger] s@.subrange(k, k + p@.len()) != p@,
        decreases limit + 1 - i,
    {
        if matches_at(s, i, p) {
            return true;
        }
        i = i + 1;
    }
    false
}

/// Whether `s` starts with `p`.
pub fn starts_with_chars(s: &[char], p: &[char]) -> (b: bool)
    ensures
        b == starts_with(s@, p@),
{
    let r = matches_at(s, 0, p);
    proof {
        if p@.len() <= s@.len() {
            assert(s@.subrange(0, p@.len() as int) =~= s@.take(p@.len() as int));
        }
    }
    r
}

/// Whether `s` ends with `p`.
pub fn ends_with_chars(s: &[char], p: &[char]) -> (b: bool)
    ensures
        b == ends_with(s@, p@),
{
    if p.len() > s.len() {
        return false;
    }
    let r = matches_at(s, s.len() - p.len(), p);
    proof {
        assert(s@.subrange(s@.len() - p@.len(), s@.len() as int) =~= s@.skip(s@.len() - p@.len()));
    }
    r
}

/// The decimal digit character for `d < 10`.
pub open spec fn digit_char(d: nat) -> char {
    ('0' as nat + d) as char
}

/// Decimal notation of `n` (no sign, no leading zeros).
pub open spec fn dec(n: nat) -> Seq<char>
    decreases n,
{
    if n < 10 {
        seq![digit_char(n)]
    } else {
        dec(n / 10).push(digit_char(n % 10))
    }
}

/// Appends the decimal notation of `n`.
pub fn push_decimal(out: &mut Vec<char>, n: u64)
    ensures
        final(out)@ == old(out)@ + dec(n as nat),
    decreases n,
{
    if n >= 10 {
        push_decimal(out, n / 10);
    }
    let d = (n % 10) as u8;
    out.push(((48u8 + d) as char));
    proof {
        assert(final(out)@ =~= old(out)@ + dec(n as nat));
    }
}

/// Appends the decimal notation of `n`.
pub fn push_decimal_wide(out: &mut Vec<char>, n: u128)
    ensures
        final(out)@ == old(out)@ + dec(n as nat),
    decreases n,
{
    if n >= 10 {
        push_decimal_wide(out, n / 10);
    }
    let d = (n % 10) as u8;
    out.push(((48u8 + d) as char));
    proof {
        assert(final(out)@ =~= old(out)@ + dec(n as nat));
    }
}

/// ASCII decimal digit.
pub open spec fn is_dec_digit(c: char) -> bool {
    '0' <= c <= '9'
}

/// Value of a string of decimal digits.
pub open spec fn dec_number(d: Seq<char>) -> nat
    decreases d.len(),
{
    if d.len() == 0 {
        0
    } else {
        (10 * dec_number(d.drop_last()) + (d.last() as nat - '0' as nat)) as nat
    }
}

/// Every character of `d` is a decimal digit.
pub open spec fn all_dec(d: Seq<char>) -> bool {
    forall|i: int| 0 <= i < d.len() ==> is_dec_digit(#[trigger] d[i])
}

/// `str::parse::<usize>()`: an optional `'+'`, then at least one decimal
/// digit, with a value that fits in `usize`.
pub open spec fn parse_usize(s: Seq<char>) -> Option<usize> {
    let d = if s.len() > 0 && s[0] == '+' { s.drop_first() } else { s };
    if d.len() > 0 && all_dec(d) && dec_number(d) <= usize::MAX {
        Some(dec_number(d) as usize)
    } else {
        None
    }
}

pub proof fn lemma_dec_number_grows(d: Seq<char>, i: int)
    requires
        0 <= i <= d.len(),
        all_dec(d),
    ensures
        dec_number(d.take(i)) <= dec_number(d),
    decreases d.len() - i,
{
    if i < d.len() {
        lemma_dec_number_grows(d, i + 1);
        assert(d.take(i + 1).drop_last() =~= d.take(i));
        assert(is_dec_digit(d[i]));
    } else {
        assert(d.take(i) =~= d);
    }
}

/// Parses `s[lo..hi]` as `str::parse::<usize>()` does.
pub fn dec_usize(s: &[char], lo: usize, hi: usize) -> (r: Option<usize>)
    requires
        lo <= hi <= s@.len(),
    ensures
        r == parse_usize(s@.subrange(lo as int, hi as int)),
{
    let ghost t = s@.subrange(lo as int, hi as int);
    let mut start = lo;
    if lo < hi && s[lo] == '+' {
        start = lo + 1;
    }
    let ghost d = s@.subrange(start as int, hi as int);
    proof {
        if lo < hi && s@[lo as int] == '+' {
            assert(t.drop_first() =~= d);
        } else {
            assert(t =~= d);
        }
    }
    if start == hi {
        return None;
    }
    let mut acc: u128 = 0;
    let mut k = start;
    while k < hi
        invariant
            start <= k <= hi <= s@.len(),
            d == s@.subrange(start as int, hi as int),
            t == s@.subrange(lo as int, hi as int),
            d == (if t.len() > 0 && t[0] == '+' { t.drop_first() } else { t }),
            acc <= usize::MAX,
            acc == dec_number(d.take(k - start)),
            all_dec(d.take(k - start)),
        decreases hi - k,
    {
        let ghost i = (k - start) as int;
        proof {
            assert(d.take(i + 1).drop_last() =~= d.take(i));
            assert(d.take(i + 1).last() == s@[k as int]);
        }
        let c = s[k];
        if !('0' <= c && c <= '9') {
            proof {
                assert(!is_dec_digit(d[i]));
            }
            return None;
        }
        acc = acc * 10 + ((c as u32) - 48) as u128;
        proof {
            assert(acc == dec_number(d.take(i + 1)));
            assert forall|j: int| 0 <= j < i + 1 implies is_dec_digit(#[trigger] d.take(i + 1)[j]) by {
                if j < i {
                    assert(d.take(i + 1)[j] == d.take(i)[j]);
                }
            }
        }
        if acc > usize::MAX as u128 {
            proof {
                if all_dec(d) {
                    lemma_dec_number_grows(d, i + 1);
                }
            }
            return None;
        }
        k = k + 1;
    }
    proof {
        assert(d.take(d.len() as int) =~= d);
    }
    Some(acc as usize)
}

/// Characters of `s[lo..hi]` as a new vector.
pub fn sub_chars(s: &[char], lo: usize, hi: usize) -> (v: Vec<char>)
    requires
        lo <= hi <= s@.len(),
    ensures
        v@ == s@.subrange(lo as int, hi as int),
{
    let mut v: Vec<char> = Vec::new();
    let mut j = lo;
    while j < hi
        invariant
            lo <= j <= hi <= s@.len(),
            v@ == s@.subrange(lo as int, j as int),
        decreases hi - j,
    {
        v.push(s[j]);
        proof {
            assert(v@ =~= s@.subrange(lo as int, j + 1));
        }
        j = j + 1;
    }
    v
}

/// Appends the characters of `src`.
pub fn append_chars(dst: &mut Vec<char>, src: &[char])
    ensures
        final(dst)@ == old(dst)@ + src@,
{
    let mut i: usize = 0;
    while i < src.len()
        invariant
            i <= src@.len(),
            dst@ == old(dst)@ + src@.subrange(0, i as int),
        decreases src.len() - i,
    {
        dst.push(src[i]);
        proof {
            assert(dst@ =~= old(dst)@ + src@.subrange(0, i + 1));
        }
        i = i + 1;
    }
    proof {
        assert(src@.subrange(0, src@.len() as int) =~= src@);
    }
}

/// Appends the characters of `src`.
pub fn append_str(dst: &mut Vec<char>, src: &str)
    ensures
        final(dst)@ == old(dst)@ + src@,
{
    let v = chars_of(src);
    append_chars(dst, v.as_slice());
}

pub proof fn lemma_trim_idempotent(t: Seq<char>)
    ensures
        trim(trim(t)) == trim(t),
{
    let a = trim_start(t);
    lemma_ws_prefix_bound(t);
    lemma_ws_suffix_bound(a);
    let u = trim(t);
    lemma_ws_prefix_bound(u);
    lemma_ws_suffix_bound(u);
    if u.len() > 0 {
        assert(u[0] == a[0]);
        assert(!is_ws(u[0]));
        assert(ws_prefix(u) == 0);
        assert(u.last() == a[a.len() - ws_suffix(a) - 1]);
        assert(ws_suffix(u) == 0);
    }
    assert(trim_start(u) =~= u);
    assert(trim_end(u) =~= u);
}

} // verus!
