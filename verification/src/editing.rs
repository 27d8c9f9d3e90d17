//! Text logic of the code editor: lines and their byte offsets, cursor
//! line and column, moving by line, UTF-16 offsets, bracket matching, word
//! selection, auto-indent and the completions worth showing.
use vstd::prelude::*;
use crate::text::{append_chars, chars_of, find_char, lemma_find_char, string_from, utf8_len, utf8_width, is_ws};
use crate::fontpack::chars_eq;

verus! {

proof fn lemma_utf8_len_push(s: Seq<char>, c: char)
    ensures
        utf8_len(s.push(c)) == utf8_len(s) + utf8_width(c),
{
    assert(s.push(c).drop_last() =~= s);
}

pub(crate) proof fn lemma_utf8_len_take(s: Seq<char>, k: int)
    requires
        0 <= k < s.len(),
    ensures
        utf8_len(s.take(k + 1)) == utf8_len(s.take(k)) + utf8_width(s[k]),
{
    assert(s.take(k + 1) =~= s.take(k).push(s[k]));
    lemma_utf8_len_push(s.take(k), s[k]);
}

pub(crate) proof fn lemma_utf8_len_concat(a: Seq<char>, b: Seq<char>)
    ensures
        utf8_len(a + b) == utf8_len(a) + utf8_len(b),
    decreases b.len(),
{
    if b.len() == 0 {
        assert(a + b =~= a);
    } else {
        lemma_utf8_len_concat(a, b.drop_last());
        assert((a + b).drop_last() =~= a + b.drop_last());
    }
}

pub(crate) proof fn lemma_utf8_len_mono(s: Seq<char>, i: int, j: int)
    requires
        0 <= i <= j <= s.len(),
    ensures
        utf8_len(s.take(i)) + (j - i) <= utf8_len(s.take(j)),
    decreases j - i,
{
    if i < j {
        lemma_utf8_len_mono(s, i, j - 1);
        lemma_utf8_len_take(s, j - 1);
    }
}

/// UTF-8 width of a character, as `char::len_utf8` gives it.
pub(crate) fn char_len_utf8(c: char) -> (n: usize)
    ensures
        n == utf8_width(c),
{
    let u = c as u32;
    if u < 0x80 {
        1
    } else if u < 0x800 {
        2
    } else if u < 0x1_0000 {
        3
    } else {
        4
    }
}

/// UTF-16 width of a character (`char::len_utf16`).
pub open spec fn utf16_width(c: char) -> nat {
    if (c as u32) < 0x1_0000 {
        1
    } else {
        2
    }
}

fn char_len_utf16(c: char) -> (n: usize)
    ensures
        n == utf16_width(c),
{
    if (c as u32) < 0x1_0000 {
        1
    } else {
        2
    }
}

// ─── lines ──────────────────────────────────────────────────────────────

/// The lines of `s` (split at `\n`; a trailing `\n` ends with an empty
/// line), each with the byte offset where it starts, counting from `base`.
pub open spec fn lines_from(s: Seq<char>, base: nat) -> Seq<(nat, Seq<char>)>
    decreases s.len(),
{
    let k = find_char(s, '\n');
    if k >= s.len() {
        seq![(base, s)]
    } else {
        seq![(base, s.take(k as int))] + lines_from(s.skip(k + 1int), base + utf8_len(s.take(k as int)) + 1)
    }
}

pub open spec fn lines_view(v: Seq<(usize, String)>) -> Seq<(nat, Seq<char>)> {
    v.map_values(|x: (usize, String)| (x.0 as nat, x.1@))
}

/// The lines of a source with the byte offset each starts at.
#[verifier::spinoff_prover]
pub fn source_lines(text: &str) -> (r: Vec<(usize, String)>)
    requires
        utf8_len(text@) < usize::MAX,
    ensures
        lines_view(r@) == lines_from(text@, 0),
{
    let v = chars_of(text);
    let mut out: Vec<(usize, String)> = Vec::new();
    let mut line: Vec<char> = Vec::new();
    let mut start: usize = 0;
    let mut bytes: usize = 0;
    let mut i: usize = 0;
    let ghost s = v@;
    proof {
        assert(s.skip(0) =~= s);
        assert(lines_view(out@) + lines_from(s.skip(0), 0) =~= lines_from(s, 0));
    }
    let ghost mut ls: int = 0;
    while i < v.len()
        invariant
            s == v@,
            s == text@,
            utf8_len(s) < usize::MAX,
            0 <= ls <= i <= s.len(),
            line@ == s.subrange(ls, i as int),
            forall|j: int| ls <= j < i ==> s[j] != '\n',
            start == utf8_len(s.take(ls)),
            bytes == utf8_len(s.take(i as int)),
            lines_view(out@) + lines_from(s.skip(ls), start as nat) == lines_from(s, 0),
        decreases v.len() - i,
    {
        let c = v[i];
        proof {
            lemma_utf8_len_take(s, i as int);
            lemma_utf8_len_mono(s, i + 1, s.len() as int);
            assert(s.take(s.len() as int) =~= s);
        }
        let w = char_len_utf8(c);
        if c == '\n' {
            proof {
                let rest = s.skip(ls);
                let k = (i - ls) as int;
                lemma_find_char(rest, '\n');
                assert(find_char(rest, '\n') == k) by {
                    if find_char(rest, '\n') < k {
                        assert(rest[find_char(rest, '\n') as int] == s[ls + find_char(rest, '\n')]);
                    }
                    assert(rest[k] == '\n');
                }
                assert(rest.take(k) =~= line@);
                assert(rest.skip(k + 1) =~= s.skip(i + 1));
                assert(s.take(i as int) =~= s.take(ls) + line@);
                lemma_utf8_len_concat(s.take(ls), line@);
            }
            let ghost before = lines_view(out@);
            out.push((start, string_from(line.as_slice())));
            proof {
                assert(lines_view(out@) =~= before.push((start as nat, line@)));
                assert(lines_view(out@) + lines_from(s.skip(i + 1), (bytes + 1) as nat) =~= before + lines_from(
                    s.skip(ls),
                    start as nat,
                ));
                ls = i + 1;
            }
            line = Vec::new();
            start = bytes + 1;
        } else {
            line.push(c);
            proof {
                assert(line@ =~= s.subrange(ls, i + 1));
            }
        }
        bytes = bytes + w;
        i = i + 1;
    }
    proof {
        let rest = s.skip(ls);
        lemma_find_char(rest, '\n');
        assert(find_char(rest, '\n') >= rest.len()) by {
            if find_char(rest, '\n') < rest.len() {
                assert(rest[find_char(rest, '\n') as int] == s[ls + find_char(rest, '\n')]);
            }
        }
        assert(rest =~= line@);
    }
    let ghost before = lines_view(out@);
    out.push((start, string_from(line.as_slice())));
    proof {
        assert(lines_view(out@) =~= before.push((start as nat, line@)));
        assert(lines_view(out@) =~= before + lines_from(s.skip(ls), start as nat));
    }
    out
}

/// `b` is where a character of `s` starts, or the end of `s`, in bytes.
pub open spec fn char_boundary(s: Seq<char>, b: nat) -> bool {
    exists|k: int| 0 <= k <= s.len() && utf8_len(#[trigger] s.take(k)) == b
}

/// Number of `\n` in `s`.
pub open spec fn newlines(s: Seq<char>) -> nat
    decreases s.len(),
{
    if s.len() == 0 {
        0
    } else {
        newlines(s.drop_last()) + if s.last() == '\n' { 1nat } else { 0nat }
    }
}

/// Number of characters after the last `\n` of `s` (all of them when
/// there is none).
pub open spec fn tail_chars(s: Seq<char>) -> nat
    decreases s.len(),
{
    if s.len() == 0 {
        0
    } else if s.last() == '\n' {
        0
    } else {
        tail_chars(s.drop_last()) + 1
    }
}

/// The characters of `s` in its first `b` bytes (`b` on a boundary).
pub open spec fn prefix_at(s: Seq<char>, b: nat) -> Seq<char> {
    s.take(choose|k: int| 0 <= k <= s.len() && utf8_len(#[trigger] s.take(k)) == b)
}

pub(crate) proof fn lemma_prefix_unique(s: Seq<char>, k1: int, k2: int)
    requires
        0 <= k1 <= s.len(),
        0 <= k2 <= s.len(),
        utf8_len(s.take(k1)) == utf8_len(s.take(k2)),
    ensures
        k1 == k2,
{
    if k1 < k2 {
        lemma_utf8_len_mono(s, k1, k2);
    } else if k2 < k1 {
        lemma_utf8_len_mono(s, k2, k1);
    }
}

/// The line (counting `\n` before it) and column (characters since the
/// line start) of the byte offset `offset`, clamped to the text.
pub open spec fn line_col(s: Seq<char>, offset: nat) -> (nat, nat) {
    let b = if offset < utf8_len(s) { offset } else { utf8_len(s) };
    let p = prefix_at(s, b);
    (newlines(p), tail_chars(p))
}

/// The line and column of a byte offset (see [`line_col`]); the offset is
/// a character boundary or past the end.
pub fn line_col_at(text: &str, offset: usize) -> (r: (usize, usize))
    requires
        utf8_len(text@) < usize::MAX,
        offset >= utf8_len(text@) || char_boundary(text@, offset as nat),
    ensures
        r.0 == line_col(text@, offset as nat).0,
        r.1 == line_col(text@, offset as nat).1,
{
    let v = chars_of(text);
    let ghost s = v@;
    let mut bytes: usize = 0;
    let mut line: usize = 0;
    let mut col: usize = 0;
    let mut i: usize = 0;
    proof {
        assert(s.take(0) =~= Seq::<char>::empty());
        assert(s.take(s.len() as int) =~= s);
    }
    let ghost target: nat = if (offset as nat) < utf8_len(s) { offset as nat } else { utf8_len(s) };
    let ghost kt: int = choose|k: int| 0 <= k <= s.len() && utf8_len(#[trigger] s.take(k)) == target;
    proof {
        if (offset as nat) >= utf8_len(s) {
            assert(utf8_len(s.take(s.len() as int)) == target);
        }
        assert(0 <= kt <= s.len() && utf8_len(s.take(kt)) == target);
        if (offset as nat) >= utf8_len(s) {
            lemma_prefix_unique(s, kt, s.len() as int);
        }
    }
    while i < v.len() && bytes < offset
        invariant
            s == v@,
            s == text@,
            i <= s.len(),
            i <= kt,
            0 <= kt <= s.len(),
            utf8_len(s.take(kt)) == target,
            target == (if (offset as nat) < utf8_len(s) { offset as nat } else { utf8_len(s) }),
            bytes == utf8_len(s.take(i as int)),
            line == newlines(s.take(i as int)),
            col == tail_chars(s.take(i as int)),
            line <= i,
            col <= i,
            utf8_len(s) < usize::MAX,
            (offset as nat) >= utf8_len(s) ==> kt == s.len(),
        decreases v.len() - i,
    {
        proof {
            lemma_utf8_len_take(s, i as int);
            assert(s.take(i + 1).drop_last() =~= s.take(i as int));
            if i as int == kt {
                assert(bytes == target);
                assert(false);
            }
            lemma_utf8_len_mono(s, i + 1, s.len() as int);
            assert(s.take(s.len() as int) =~= s);
        }
        let c = v[i];
        if c == '\n' {
            line = line + 1;
            col = 0;
        } else {
            col = col + 1;
        }
        bytes = bytes + char_len_utf8(c);
        i = i + 1;
        proof {
            if (i as int) > kt {
                lemma_utf8_len_mono(s, kt, i as int);
            }
        }
    }
    proof {
        if (i as int) < kt {
            lemma_utf8_len_mono(s, i as int, kt);
            if i < s.len() {
                assert(bytes >= offset);
                assert(false);
            }
        }
        assert(i as int == kt);
        lemma_prefix_unique(s, i as int, choose|k: int| 0 <= k <= s.len() && utf8_len(#[trigger] s.take(k)) == target);
    }
    (line, col)
}

// ─── moving by line and UTF-16 offsets ─────────────────────────────────

/// The byte offset of column `col` (in characters, clamped to the line) on
/// line `line`, or the end of the text past its last line.
pub open spec fn offset_at_spec(s: Seq<char>, line: nat, col: nat) -> nat {
    let ls = lines_from(s, 0);
    if line < ls.len() {
        let l = ls[line as int].1;
        ls[line as int].0 + utf8_len(l.take(if col < l.len() { col as int } else { l.len() as int }))
    } else {
        utf8_len(s)
    }
}

/// The byte offset of a line and column (see [`offset_at_spec`]).
pub fn offset_at(text: &str, line: usize, col: usize) -> (r: usize)
    requires
        utf8_len(text@) < usize::MAX,
    ensures
        r == offset_at_spec(text@, line as nat, col as nat),
{
    let lines = source_lines(text);
    if line < lines.len() {
        let l = chars_of(lines[line].1.as_str());
        let ghost lv = l@;
        let mut idx: usize = 0;
        let mut c: usize = 0;
        proof {
            assert(lv.take(0) =~= Seq::<char>::empty());
            lemma_line_bytes(text@, line as int);
            assert(lines_view(lines@)[line as int] == (lines@[line as int].0 as nat, lines@[line as int].1@));
        }
        while c < l.len() && c < col
            invariant
                lv == l@,
                c <= lv.len(),
                c <= col,
                utf8_len(text@) < usize::MAX,
                lines_view(lines@)[line as int].0 + utf8_len(lv) <= utf8_len(text@),
                idx == utf8_len(lv.take(c as int)),
            decreases l.len() - c,
        {
            proof {
                lemma_utf8_len_take(lv, c as int);
                lemma_utf8_len_mono(lv, c + 1, lv.len() as int);
                assert(lv.take(lv.len() as int) =~= lv);
            }
            idx = idx + char_len_utf8(l[c]);
            c = c + 1;
        }
        proof {
            lemma_utf8_len_mono(lv, c as int, lv.len() as int);
            assert(lv.take(lv.len() as int) =~= lv);
            assert(lines_view(lines@)[line as int] == (lines@[line as int].0 as nat, lines@[line as int].1@));
        }
        lines[line].0 + idx
    } else {
        let v = chars_of(text);
        let mut n: usize = 0;
        let mut i: usize = 0;
        proof {
            assert(v@.take(0) =~= Seq::<char>::empty());
        }
        while i < v.len()
            invariant
                v@ == text@,
                i <= v@.len(),
                n == utf8_len(v@.take(i as int)),
                utf8_len(text@) < usize::MAX,
            decreases v.len() - i,
        {
            proof {
                lemma_utf8_len_take(v@, i as int);
                lemma_utf8_len_mono(v@, i + 1, v@.len() as int);
                assert(v@.take(v@.len() as int) =~= v@);
            }
            n = n + char_len_utf8(v[i]);
            i = i + 1;
        }
        proof {
            assert(v@.take(i as int) =~= v@);
        }
        n
    }
}

proof fn lemma_lines_from_bound(s: Seq<char>, base: nat, j: int)
    requires
        0 <= j < lines_from(s, base).len(),
    ensures
        lines_from(s, base)[j].0 + utf8_len(lines_from(s, base)[j].1) <= base + utf8_len(s),
    decreases s.len(),
{
    let k = find_char(s, '\n');
    lemma_find_char(s, '\n');
    if k < s.len() {
        let first = s.take(k as int);
        let rest = s.skip(k + 1int);
        assert(s =~= first + seq!['\n'] + rest);
        lemma_utf8_len_concat(first + seq!['\n'], rest);
        lemma_utf8_len_concat(first, seq!['\n']);
        assert(seq!['\n'].drop_last() =~= Seq::<char>::empty());
        if j > 0 {
            lemma_lines_from_bound(rest, base + utf8_len(first) + 1, j - 1);
        }
    }
}

proof fn lemma_line_bytes(s: Seq<char>, line: int)
    requires
        0 <= line < lines_from(s, 0).len(),
    ensures
        lines_from(s, 0)[line].0 + utf8_len(lines_from(s, 0)[line].1) <= utf8_len(s),
{
    lemma_lines_from_bound(s, 0, line);
}

proof fn lemma_newlines_concat(a: Seq<char>, b: Seq<char>)
    ensures
        newlines(a + b) == newlines(a) + newlines(b),
    decreases b.len(),
{
    if b.len() == 0 {
        assert(a + b =~= a);
    } else {
        lemma_newlines_concat(a, b.drop_last());
        assert((a + b).drop_last() =~= a + b.drop_last());
    }
}

proof fn lemma_tail_after_newline(a: Seq<char>, b: Seq<char>)
    requires
        a.len() > 0,
        a.last() == '\n',
    ensures
        tail_chars(a + b) == tail_chars(b),
    decreases b.len(),
{
    if b.len() == 0 {
        assert(a + b =~= a);
    } else {
        lemma_tail_after_newline(a, b.drop_last());
        assert((a + b).drop_last() =~= a + b.drop_last());
    }
}

proof fn lemma_no_newline(s: Seq<char>)
    requires
        forall|i: int| 0 <= i < s.len() ==> s[i] != '\n',
    ensures
        newlines(s) == 0,
        tail_chars(s) == s.len(),
    decreases s.len(),
{
    if s.len() > 0 {
        lemma_no_newline(s.drop_last());
    }
}

/// Line `j`, column `c` of the lines counted from `base` is reached by
/// some prefix of `s`, whose byte length is that position's offset and
/// which holds `j` line breaks and `c` characters after the last one.
proof fn lemma_position_prefix(s: Seq<char>, base: nat, j: int, c: int) -> (kk: int)
    requires
        0 <= j < lines_from(s, base).len(),
        0 <= c <= lines_from(s, base)[j].1.len(),
    ensures
        0 <= kk <= s.len(),
        base + utf8_len(s.take(kk)) == lines_from(s, base)[j].0 + utf8_len(lines_from(s, base)[j].1.take(c)),
        newlines(s.take(kk)) == j,
        tail_chars(s.take(kk)) == c,
    decreases s.len(),
{
    let k: int = find_char(s, '\n') as int;
    lemma_find_char(s, '\n');
    if j == 0 {
        assert(c <= k);
        assert(s.take(c) =~= lines_from(s, base)[0].1.take(c));
        lemma_no_newline(s.take(c));
        c
    } else {
        assert(k < s.len());
        let first = s.take(k + 1);
        let rest = s.skip(k + 1);
        let b2 = base + utf8_len(s.take(k)) + 1;
        assert(lines_from(s, base)[j] == lines_from(rest, b2)[j - 1]);
        let k2 = lemma_position_prefix(rest, b2, j - 1, c);
        assert(s.take(k + 1 + k2) =~= first + rest.take(k2));
        lemma_newlines_concat(first, rest.take(k2));
        lemma_tail_after_newline(first, rest.take(k2));
        lemma_utf8_len_concat(first, rest.take(k2));
        assert(first.drop_last() =~= s.take(k));
        lemma_no_newline(s.take(k));
        k + 1 + k2
    }
}

/// Every prefix of `s` ends at a position of the lines counted from
/// `base`: the line is the number of its line breaks, the column the
/// number of characters after the last one.
proof fn lemma_prefix_position(s: Seq<char>, base: nat, kk: int)
    requires
        0 <= kk <= s.len(),
    ensures
        newlines(s.take(kk)) < lines_from(s, base).len(),
        tail_chars(s.take(kk)) <= lines_from(s, base)[newlines(s.take(kk)) as int].1.len(),
        lines_from(s, base)[newlines(s.take(kk)) as int].0 + utf8_len(
            lines_from(s, base)[newlines(s.take(kk)) as int].1.take(tail_chars(s.take(kk)) as int),
        ) == base + utf8_len(s.take(kk)),
    decreases s.len(),
{
    let k: int = find_char(s, '\n') as int;
    lemma_find_char(s, '\n');
    if kk <= k {
        assert forall|i: int| 0 <= i < s.take(kk).len() implies s.take(kk)[i] != '\n' by {
            assert(s.take(kk)[i] == s[i]);
        }
        lemma_no_newline(s.take(kk));
        assert(s.take(kk) =~= lines_from(s, base)[0].1.take(kk));
    } else {
        let first = s.take(k + 1);
        let rest = s.skip(k + 1);
        let b2 = base + utf8_len(s.take(k)) + 1;
        let k2 = kk - k - 1;
        assert(s.take(kk) =~= first + rest.take(k2));
        lemma_newlines_concat(first, rest.take(k2));
        lemma_tail_after_newline(first, rest.take(k2));
        lemma_utf8_len_concat(first, rest.take(k2));
        assert(first.drop_last() =~= s.take(k));
        lemma_no_newline(s.take(k));
        lemma_prefix_position(rest, b2, k2);
        let j = newlines(s.take(kk)) as int;
        assert(lines_from(s, base)[j] == lines_from(rest, b2)[j - 1]);
    }
}

/// The line and column of the offset that [`offset_at_spec`] gives for a
/// position inside the text are that position again.
pub proof fn law_offset_then_line_col(s: Seq<char>, line: nat, col: nat)
    requires
        line < lines_from(s, 0).len(),
        col <= lines_from(s, 0)[line as int].1.len(),
    ensures
        line_col(s, offset_at_spec(s, line, col)) == (line, col),
{
    let kk = lemma_position_prefix(s, 0, line as int, col as int);
    lemma_utf8_len_mono(s, kk, s.len() as int);
    assert(s.take(s.len() as int) =~= s);
    let b = utf8_len(s.take(kk));
    assert(offset_at_spec(s, line, col) == b);
    let chosen = choose|k: int| 0 <= k <= s.len() && utf8_len(#[trigger] s.take(k)) == b;
    lemma_prefix_unique(s, kk, chosen);
}

/// The offset that [`offset_at_spec`] gives for the line and column of a
/// character boundary is that boundary again.
pub proof fn law_line_col_then_offset(s: Seq<char>, offset: nat)
    requires
        char_boundary(s, offset),
    ensures
        offset_at_spec(s, line_col(s, offset).0, line_col(s, offset).1) == offset,
{
    let kk = choose|k: int| 0 <= k <= s.len() && utf8_len(#[trigger] s.take(k)) == offset;
    lemma_utf8_len_mono(s, kk, s.len() as int);
    assert(s.take(s.len() as int) =~= s);
    lemma_prefix_position(s, 0, kk);
}

/// The UTF-8 offset of UTF-16 offset `off`: characters are taken while
/// fewer than `off` UTF-16 units have been counted.
pub open spec fn from_utf16(s: Seq<char>, off: int) -> nat
    decreases s.len(),
{
    if s.len() == 0 || off <= 0 {
        0
    } else {
        utf8_width(s[0]) + from_utf16(s.drop_first(), off - utf16_width(s[0]))
    }
}

/// The UTF-16 offset of UTF-8 offset `off`: characters are taken while
/// fewer than `off` bytes have been counted.
pub open spec fn to_utf16(s: Seq<char>, off: int) -> nat
    decreases s.len(),
{
    if s.len() == 0 || off <= 0 {
        0
    } else {
        utf16_width(s[0]) + to_utf16(s.drop_first(), off - utf8_width(s[0]))
    }
}

proof fn lemma_from_utf16_bound(s: Seq<char>, off: int)
    ensures
        from_utf16(s, off) <= utf8_len(s),
    decreases s.len(),
{
    if s.len() > 0 && off > 0 {
        lemma_from_utf16_bound(s.drop_first(), off - utf16_width(s[0]));
        assert(s =~= seq![s[0]] + s.drop_first());
        lemma_utf8_len_concat(seq![s[0]], s.drop_first());
        assert(seq![s[0]].drop_last() =~= Seq::<char>::empty());
    }
}

proof fn lemma_to_utf16_bound(s: Seq<char>, off: int)
    ensures
        to_utf16(s, off) <= utf8_len(s),
    decreases s.len(),
{
    if s.len() > 0 && off > 0 {
        lemma_to_utf16_bound(s.drop_first(), off - utf8_width(s[0]));
        assert(s =~= seq![s[0]] + s.drop_first());
        lemma_utf8_len_concat(seq![s[0]], s.drop_first());
        assert(seq![s[0]].drop_last() =~= Seq::<char>::empty());
    }
}

/// Converting a byte offset on a character boundary to UTF-16 and back
/// gives the offset again (so selections survive the round trip through
/// the platform's UTF-16 text input).
pub proof fn law_utf16_round_trip(s: Seq<char>, k: int)
    requires
        0 <= k <= s.len(),
    ensures
        from_utf16(s, to_utf16(s, utf8_len(s.take(k)) as int) as int) == utf8_len(s.take(k)),
    decreases k,
{
    if k == 0 {
        assert(s.take(0) =~= Seq::<char>::empty());
    } else {
        let rest = s.drop_first();
        law_utf16_round_trip(rest, k - 1);
        assert(s.take(k) =~= seq![s[0]] + rest.take(k - 1));
        lemma_utf8_len_concat(seq![s[0]], rest.take(k - 1));
        assert(seq![s[0]].drop_last() =~= Seq::<char>::empty());
        assert(utf8_len(seq![s[0]].drop_last()) == 0);
        assert(utf8_len(seq![s[0]]) == utf8_width(s[0]));
    }
}

/// The byte offset of a UTF-16 offset (see [`from_utf16`]).
pub fn offset_from_utf16(text: &str, offset: usize) -> (r: usize)
    requires
        utf8_len(text@) < usize::MAX,
    ensures
        r == from_utf16(text@, offset as int),
{
    let v = chars_of(text);
    let ghost s = v@;
    let mut utf8_offset: usize = 0;
    let mut utf16_count: usize = 0;
    let mut i: usize = 0;
    proof {
        assert(s.skip(0) =~= s);
    }
    while i < v.len() && utf16_count < offset
        invariant
            s == v@,
            s == text@,
            i <= s.len(),
            utf16_count <= offset,
            utf8_offset + from_utf16(s.skip(i as int), offset - utf16_count) == from_utf16(s, offset as int),
            utf8_offset == utf8_len(s.take(i as int)),
            utf16_count <= utf8_offset,
            utf8_len(s) < usize::MAX,
        decreases v.len() - i,
    {
        let c = v[i];
        proof {
            assert(s.skip(i as int).drop_first() =~= s.skip(i + 1));
            assert(s.skip(i as int)[0] == c);
            lemma_utf8_len_take(s, i as int);
            lemma_utf8_len_mono(s, i + 1, s.len() as int);
            assert(s.take(s.len() as int) =~= s);
        }
        utf16_count = utf16_count + char_len_utf16(c);
        utf8_offset = utf8_offset + char_len_utf8(c);
        i = i + 1;
        if utf16_count > offset {
            proof {
                assert(from_utf16(s.skip(i as int), offset - utf16_count) == 0);
            }
            return utf8_offset;
        }
    }
    utf8_offset
}

/// The UTF-16 offset of a byte offset (see [`to_utf16`]).
pub fn offset_to_utf16(text: &str, offset: usize) -> (r: usize)
    requires
        utf8_len(text@) < usize::MAX,
    ensures
        r == to_utf16(text@, offset as int),
{
    let v = chars_of(text);
    let ghost s = v@;
    let mut utf16_offset: usize = 0;
    let mut utf8_count: usize = 0;
    let mut i: usize = 0;
    proof {
        assert(s.skip(0) =~= s);
    }
    while i < v.len() && utf8_count < offset
        invariant
            s == v@,
            s == text@,
            i <= s.len(),
            utf8_count <= offset,
            utf8_count == utf8_len(s.take(i as int)),
            utf16_offset + to_utf16(s.skip(i as int), offset - utf8_count) == to_utf16(s, offset as int),
            utf16_offset <= utf8_count,
            utf8_len(s) < usize::MAX,
        decreases v.len() - i,
    {
        let c = v[i];
        proof {
            assert(s.skip(i as int).drop_first() =~= s.skip(i + 1));
            assert(s.skip(i as int)[0] == c);
            lemma_utf8_len_take(s, i as int);
            lemma_utf8_len_mono(s, i + 1, s.len() as int);
            assert(s.take(s.len() as int) =~= s);
        }
        utf8_count = utf8_count + char_len_utf8(c);
        utf16_offset = utf16_offset + char_len_utf16(c);
        i = i + 1;
        if utf8_count > offset {
            proof {
                assert(to_utf16(s.skip(i as int), offset - utf8_count) == 0);
            }
            return utf16_offset;
        }
    }
    utf16_offset
}

// ─── cursor movement by line ───────────────────────────────────────────

/// Where Up moves the cursor from byte `offset`: the same column of the
/// line above (clamped to its length), or the start of the text on the
/// first line.
pub open spec fn cursor_up(s: Seq<char>, offset: nat) -> nat {
    let (line, col) = line_col(s, offset);
    if line == 0 {
        0
    } else {
        offset_at_spec(s, (line - 1) as nat, col)
    }
}

/// Where Down moves the cursor: the same column of the line below, or the
/// end of the text on the last line.
pub open spec fn cursor_down(s: Seq<char>, offset: nat) -> nat {
    let (line, col) = line_col(s, offset);
    if line + 1 >= lines_from(s, 0).len() {
        utf8_len(s)
    } else {
        offset_at_spec(s, line + 1, col)
    }
}

/// Where Home moves the cursor: the start of its line.
pub open spec fn cursor_home(s: Seq<char>, offset: nat) -> nat {
    offset_at_spec(s, line_col(s, offset).0, 0)
}

/// Where End moves the cursor: the end of its line.
pub open spec fn cursor_end(s: Seq<char>, offset: nat) -> nat {
    let line = line_col(s, offset).0;
    let ls = lines_from(s, 0);
    offset_at_spec(s, line, if line < ls.len() { ls[line as int].1.len() } else { 0 })
}

/// The cursor after Up (see [`cursor_up`]).
pub fn move_up(text: &str, offset: usize) -> (r: usize)
    requires
        utf8_len(text@) < usize::MAX,
        offset >= utf8_len(text@) || char_boundary(text@, offset as nat),
    ensures
        r == cursor_up(text@, offset as nat),
{
    let (line, col) = line_col_at(text, offset);
    if line == 0 {
        0
    } else {
        offset_at(text, line - 1, col)
    }
}

/// The cursor after Down (see [`cursor_down`]).
pub fn move_down(text: &str, offset: usize) -> (r: usize)
    requires
        utf8_len(text@) < usize::MAX,
        offset >= utf8_len(text@) || char_boundary(text@, offset as nat),
    ensures
        r == cursor_down(text@, offset as nat),
{
    let (line, col) = line_col_at(text, offset);
    let lines = source_lines(text);
    proof {
        assert(lines_view(lines@).len() == lines@.len());
    }
    if line >= lines.len() || line + 1 >= lines.len() {
        byte_len(text)
    } else {
        offset_at(text, line + 1, col)
    }
}

/// The cursor after Home (see [`cursor_home`]).
pub fn move_home(text: &str, offset: usize) -> (r: usize)
    requires
        utf8_len(text@) < usize::MAX,
        offset >= utf8_len(text@) || char_boundary(text@, offset as nat),
    ensures
        r == cursor_home(text@, offset as nat),
{
    let (line, _) = line_col_at(text, offset);
    offset_at(text, line, 0)
}

/// The cursor after End (see [`cursor_end`]).
pub fn move_end(text: &str, offset: usize) -> (r: usize)
    requires
        utf8_len(text@) < usize::MAX,
        offset >= utf8_len(text@) || char_boundary(text@, offset as nat),
    ensures
        r == cursor_end(text@, offset as nat),
{
    let (line, _) = line_col_at(text, offset);
    let lines = source_lines(text);
    let count = if line < lines.len() {
        let l = chars_of(lines[line].1.as_str());
        proof {
            assert(lines_view(lines@)[line as int] == (lines@[line as int].0 as nat, lines@[line as int].1@));
        }
        l.len()
    } else {
        0
    };
    offset_at(text, line, count)
}

// ─── brackets, words, pairs ─────────────────────────────────────────────

/// Scanning forward from `i` with `depth` unclosed `open`s: the position
/// of the `close` that closes the first one.
pub open spec fn scan_forward(b: Seq<u8>, open: u8, close: u8, i: int, depth: int) -> Option<int>
    decreases b.len() - i,
{
    if i < 0 || i >= b.len() {
        None
    } else if b[i] == open {
        scan_forward(b, open, close, i + 1, depth + 1)
    } else if b[i] == close {
        if depth - 1 == 0 {
            Some(i)
        } else {
            scan_forward(b, open, close, i + 1, depth - 1)
        }
    } else {
        scan_forward(b, open, close, i + 1, depth)
    }
}

/// Scanning backward from `i` with `depth` unopened `close`s: the position
/// of the `open` that opens the first one.
pub open spec fn scan_backward(b: Seq<u8>, open: u8, close: u8, i: int, depth: int) -> Option<int>
    decreases i + 1,
{
    if i < 0 || i >= b.len() {
        None
    } else if b[i] == close {
        scan_backward(b, open, close, i - 1, depth + 1)
    } else if b[i] == open {
        if depth - 1 == 0 {
            Some(i)
        } else {
            scan_backward(b, open, close, i - 1, depth - 1)
        }
    } else {
        scan_backward(b, open, close, i - 1, depth)
    }
}

/// How many bytes of `b[lo..hi]` are `c`.
pub open spec fn count_in(b: Seq<u8>, c: u8, lo: int, hi: int) -> int
    decreases hi - lo,
{
    if lo >= hi {
        0
    } else {
        (if b[lo] == c { 1int } else { 0int }) + count_in(b, c, lo + 1, hi)
    }
}

/// Closers minus openers in `b[k..=p]`.
pub open spec fn excess(b: Seq<u8>, open: u8, close: u8, k: int, p: int) -> int {
    count_in(b, close, k, p + 1) - count_in(b, open, k, p + 1)
}

proof fn lemma_scan_backward_balanced(b: Seq<u8>, open: u8, close: u8, p: int, i: int, depth: int)
    requires
        0 <= p < b.len(),
        b[p] == close,
        open != close,
        -1 <= i <= p,
        depth == excess(b, open, close, i + 1, p),
        forall|k: int| i < k <= p ==> #[trigger] excess(b, open, close, k, p) >= 1,
    ensures
        match scan_backward(b, open, close, i, depth) {
            Some(o) => 0 <= o <= i && b[o] == open && excess(b, open, close, o, p) == 0 && forall|k: int|
                o < k <= p ==> #[trigger] excess(b, open, close, k, p) >= 1,
            None => forall|k: int| 0 <= k <= p ==> #[trigger] excess(b, open, close, k, p) >= 1,
        },
    decreases i + 1,
{
    if i >= 0 {
        assert(excess(b, open, close, i, p) == depth + (if b[i] == close { 1int } else { 0int }) - (if b[i] == open {
            1int
        } else {
            0int
        }));
        if i < p {
            assert(excess(b, open, close, i + 1, p) >= 1);
        }
        if b[i] == close {
            lemma_scan_backward_balanced(b, open, close, p, i - 1, depth + 1);
        } else if b[i] == open {
            if depth - 1 != 0 {
                lemma_scan_backward_balanced(b, open, close, p, i - 1, depth - 1);
            }
        } else {
            lemma_scan_backward_balanced(b, open, close, p, i - 1, depth);
        }
    }
}

/// Matching a closing bracket at `p` backward finds the nearest opening
/// bracket `o` that balances it: `b[o..=p]` holds as many openers as
/// closers, while every shorter tail `b[k..=p]` (`o < k`) holds more
/// closers, so nested pairs are skipped. There is no match exactly when
/// every tail `b[k..=p]` holds more closers than openers.
pub proof fn law_backward_match_balanced(b: Seq<u8>, open: u8, close: u8, p: int)
    requires
        0 <= p < b.len(),
        b[p] == close,
        open != close,
    ensures
        match scan_backward(b, open, close, p, 0) {
            Some(o) => 0 <= o < p && b[o] == open && count_in(b, open, o, p + 1) == count_in(b, close, o, p + 1)
                && forall|k: int| o < k <= p ==> #[trigger] count_in(b, close, k, p + 1) > count_in(b, open, k, p + 1),
            None => forall|k: int| 0 <= k <= p ==> #[trigger] count_in(b, close, k, p + 1) > count_in(b, open, k, p + 1),
        },
{
    assert(excess(b, open, close, p + 1, p) == 0);
    lemma_scan_backward_balanced(b, open, close, p, p, 0);
    match scan_backward(b, open, close, p, 0) {
        Some(o) => {
            assert(o != p);
            assert forall|k: int| o < k <= p implies #[trigger] count_in(b, close, k, p + 1) > count_in(b, open, k, p + 1) by {
                assert(excess(b, open, close, k, p) >= 1);
            }
        },
        None => {
            assert forall|k: int| 0 <= k <= p implies #[trigger] count_in(b, close, k, p + 1) > count_in(b, open, k, p + 1) by {
                assert(excess(b, open, close, k, p) >= 1);
            }
        },
    }
}

proof fn lemma_count_in_extend(b: Seq<u8>, c: u8, lo: int, hi: int)
    requires
        lo <= hi,
    ensures
        count_in(b, c, lo, hi + 1) == count_in(b, c, lo, hi) + (if b[hi] == c { 1int } else { 0int }),
    decreases hi - lo,
{
    if lo < hi {
        lemma_count_in_extend(b, c, lo + 1, hi);
    } else {
        assert(count_in(b, c, lo + 1, hi + 1) == 0);
    }
}

/// Openers minus closers in `b[q..=k]`.
pub open spec fn surplus(b: Seq<u8>, open: u8, close: u8, q: int, k: int) -> int {
    count_in(b, open, q, k + 1) - count_in(b, close, q, k + 1)
}

proof fn lemma_scan_forward_balanced(b: Seq<u8>, open: u8, close: u8, q: int, i: int, depth: int)
    requires
        0 <= q < b.len(),
        b[q] == open,
        open != close,
        q <= i <= b.len(),
        depth == surplus(b, open, close, q, i - 1),
        forall|k: int| q <= k < i ==> #[trigger] surplus(b, open, close, q, k) >= 1,
    ensures
        match scan_forward(b, open, close, i, depth) {
            Some(c) => i <= c < b.len() && b[c] == close && surplus(b, open, close, q, c) == 0 && forall|k: int|
                q <= k < c ==> #[trigger] surplus(b, open, close, q, k) >= 1,
            None => forall|k: int| q <= k < b.len() ==> #[trigger] surplus(b, open, close, q, k) >= 1,
        },
    decreases b.len() - i,
{
    if i < b.len() {
        lemma_count_in_extend(b, open, q, i);
        lemma_count_in_extend(b, close, q, i);
        assert(surplus(b, open, close, q, i) == depth + (if b[i] == open { 1int } else { 0int }) - (if b[i] == close {
            1int
        } else {
            0int
        }));
        if i > q {
            assert(surplus(b, open, close, q, i - 1) >= 1);
        }
        if b[i] == open {
            lemma_scan_forward_balanced(b, open, close, q, i + 1, depth + 1);
        } else if b[i] == close {
            if depth - 1 != 0 {
                lemma_scan_forward_balanced(b, open, close, q, i + 1, depth - 1);
            }
        } else {
            lemma_scan_forward_balanced(b, open, close, q, i + 1, depth);
        }
    }
}

/// Matching an opening bracket at `q` forward finds the nearest closing
/// bracket `c` that balances it: `b[q..=c]` holds as many openers as
/// closers, while every shorter head `b[q..=k]` (`k < c`) holds more
/// openers, so nested pairs are skipped. There is no match exactly when
/// every head `b[q..=k]` holds more openers than closers.
pub proof fn law_forward_match_balanced(b: Seq<u8>, open: u8, close: u8, q: int)
    requires
        0 <= q < b.len(),
        b[q] == open,
        open != close,
    ensures
        match scan_forward(b, open, close, q, 0) {
            Some(c) => q < c < b.len() && b[c] == close && count_in(b, open, q, c + 1) == count_in(b, close, q, c + 1)
                && forall|k: int| q <= k < c ==> #[trigger] count_in(b, open, q, k + 1) > count_in(b, close, q, k + 1),
            None => forall|k: int| q <= k < b.len() ==> #[trigger] count_in(b, open, q, k + 1) > count_in(b, close, q, k + 1),
        },
{
    assert(surplus(b, open, close, q, q - 1) == 0);
    lemma_scan_forward_balanced(b, open, close, q, q, 0);
    match scan_forward(b, open, close, q, 0) {
        Some(c) => {
            assert(c != q);
            assert forall|k: int| q <= k < c implies #[trigger] count_in(b, open, q, k + 1) > count_in(b, close, q, k + 1) by {
                assert(surplus(b, open, close, q, k) >= 1);
            }
        },
        None => {
            assert forall|k: int| q <= k < b.len() implies #[trigger] count_in(b, open, q, k + 1) > count_in(b, close, q, k + 1) by {
                assert(surplus(b, open, close, q, k) >= 1);
            }
        },
    }
}

/// The partner of a bracket byte: `(`/`)`, `[`/`]`, `{`/`}`.
pub open spec fn bracket_partner(o: u8, c: u8) -> bool {
    (o == 0x28 && c == 0x29) || (o == 0x5B && c == 0x5D) || (o == 0x7B && c == 0x7D)
}

/// A pair found from the bracket at `pos` is an opener and its own kind of
/// closer with `pos` one of them, and between them (both included) the two
/// brackets of that kind balance; brackets of other kinds do not count.
/// From a closer, every tail after the opener holds more closers; from an
/// opener, every head before the closer holds more openers.
pub proof fn law_bracket_pair_balanced(b: Seq<u8>, pos: int)
    ensures
        pair_from(b, pos) matches Some((o, c)) ==> {
            &&& 0 <= o < c < b.len()
            &&& (o == pos || c == pos)
            &&& bracket_partner(b[o], b[c])
            &&& count_in(b, b[o], o, c + 1) == count_in(b, b[c], o, c + 1)
            &&& c == pos ==> forall|k: int| o < k <= c ==> #[trigger] count_in(b, b[c], k, c + 1) > count_in(b, b[o], k, c + 1)
            &&& o == pos ==> forall|k: int| o <= k < c ==> #[trigger] count_in(b, b[o], o, k + 1) > count_in(b, b[c], o, k + 1)
        },
{
    if 0 <= pos < b.len() {
        let ch = b[pos];
        if ch == 0x28 || ch == 0x5B || ch == 0x7B {
            let close: u8 = if ch == 0x28 { 0x29 } else if ch == 0x5B { 0x5D } else { 0x7D };
            law_forward_match_balanced(b, ch, close, pos);
        } else if ch == 0x29 || ch == 0x5D || ch == 0x7D {
            let open: u8 = if ch == 0x29 { 0x28 } else if ch == 0x5D { 0x5B } else { 0x7B };
            law_backward_match_balanced(b, open, ch, pos);
        }
    }
}

/// The bracket pair that the bracket at `pos` belongs to, if it is one and
/// its partner is found.
pub open spec fn pair_from(b: Seq<u8>, pos: int) -> Option<(int, int)> {
    if pos < 0 || pos >= b.len() {
        None
    } else {
        let c = b[pos];
        if c == 0x28 || c == 0x5B || c == 0x7B {
            let close: u8 = if c == 0x28 { 0x29 } else if c == 0x5B { 0x5D } else { 0x7D };
            match scan_forward(b, c, close, pos, 0) {
                Some(i) => Some((pos, i)),
                None => None,
            }
        } else if c == 0x29 || c == 0x5D || c == 0x7D {
            let open: u8 = if c == 0x29 { 0x28 } else if c == 0x5D { 0x5B } else { 0x7B };
            match scan_backward(b, open, c, pos, 0) {
                Some(i) => Some((i, pos)),
                None => None,
            }
        } else {
            None
        }
    }
}

/// The bracket pair at the cursor: the bracket under the cursor (the last
/// byte when the cursor is past the end) is tried first, then the one
/// before it; brackets inside strings and comments count too.
pub open spec fn bracket_pair(b: Seq<u8>, cursor: int) -> Option<(int, int)> {
    if b.len() == 0 {
        None
    } else {
        let first = if cursor < b.len() - 1 { cursor } else { b.len() - 1 };
        let second = if cursor >= 1 { cursor - 1 } else { 0 };
        match pair_from(b, first) {
            Some(p) => Some(p),
            None => pair_from(b, second),
        }
    }
}

fn scan_forward_exec(b: &[u8], open: u8, close: u8, pos: usize) -> (r: Option<usize>)
    requires
        pos < b@.len(),
    ensures
        match r {
            Some(i) => scan_forward(b@, open, close, pos as int, 0) == Some(i as int),
            None => scan_forward(b@, open, close, pos as int, 0) is None,
        },
{
    let mut depth: i128 = 0;
    let mut i = pos;
    while i < b.len()
        invariant
            pos <= i <= b@.len(),
            -(i - pos) <= depth <= i - pos,
            scan_forward(b@, open, close, i as int, depth as int) == scan_forward(b@, open, close, pos as int, 0),
        decreases b.len() - i,
    {
        let c = b[i];
        if c == open {
            depth = depth + 1;
        } else if c == close {
            depth = depth - 1;
            if depth == 0 {
                return Some(i);
            }
        }
        i = i + 1;
    }
    None
}

fn scan_backward_exec(b: &[u8], open: u8, close: u8, pos: usize) -> (r: Option<usize>)
    requires
        pos < b@.len(),
    ensures
        match r {
            Some(i) => scan_backward(b@, open, close, pos as int, 0) == Some(i as int),
            None => scan_backward(b@, open, close, pos as int, 0) is None,
        },
{
    let n = b.len();
    let mut depth: i128 = 0;
    let mut k: usize = pos + 1;
    while k > 0
        invariant
            k <= pos + 1,
            pos < b@.len(),
            n == b@.len(),
            -(pos + 1 - k) <= depth <= pos + 1 - k,
            scan_backward(b@, open, close, k - 1, depth as int) == scan_backward(b@, open, close, pos as int, 0),
        decreases k,
    {
        let i = k - 1;
        let c = b[i];
        if c == close {
            depth = depth + 1;
        } else if c == open {
            depth = depth - 1;
            if depth == 0 {
                return Some(i);
            }
        }
        k = i;
    }
    None
}

fn pair_from_exec(b: &[u8], pos: usize) -> (r: Option<(usize, usize)>)
    ensures
        match r {
            Some(p) => pair_from(b@, pos as int) == Some((p.0 as int, p.1 as int)),
            None => pair_from(b@, pos as int) is None,
        },
{
    if pos >= b.len() {
        return None;
    }
    let c = b[pos];
    if c == 0x28 || c == 0x5B || c == 0x7B {
        let close: u8 = if c == 0x28 { 0x29 } else if c == 0x5B { 0x5D } else { 0x7D };
        match scan_forward_exec(b, c, close, pos) {
            Some(i) => Some((pos, i)),
            None => None,
        }
    } else if c == 0x29 || c == 0x5D || c == 0x7D {
        let open: u8 = if c == 0x29 { 0x28 } else if c == 0x5D { 0x5B } else { 0x7B };
        match scan_backward_exec(b, open, c, pos) {
            Some(i) => Some((i, pos)),
            None => None,
        }
    } else {
        None
    }
}

/// The bracket pair at the cursor, as byte positions of the opening and
/// closing bracket (see [`bracket_pair`]); `content` is the text's UTF-8.
pub fn matching_brackets(content: &[u8], cursor: usize) -> (r: Option<(usize, usize)>)
    ensures
        match r {
            Some(p) => bracket_pair(content@, cursor as int) == Some((p.0 as int, p.1 as int)),
            None => bracket_pair(content@, cursor as int) is None,
        },
{
    if content.len() == 0 {
        return None;
    }
    let first = if cursor < content.len() - 1 { cursor } else { content.len() - 1 };
    let second = if cursor >= 1 { cursor - 1 } else { 0 };
    match pair_from_exec(content, first) {
        Some(p) => Some(p),
        None => pair_from_exec(content, second),
    }
}

/// A byte of an identifier: ASCII letter, digit or `_`.
pub open spec fn word_byte(c: u8) -> bool {
    (0x30 <= c <= 0x39) || (0x41 <= c <= 0x5A) || (0x61 <= c <= 0x7A) || c == 0x5F
}

/// The number of word bytes just before position `i`.
pub open spec fn word_back(b: Seq<u8>, i: int) -> int
    decreases i,
{
    if i <= 0 || i > b.len() || !word_byte(b[i - 1]) {
        0
    } else {
        1 + word_back(b, i - 1)
    }
}

/// The number of word bytes from position `i` on.
pub open spec fn word_fwd(b: Seq<u8>, i: int) -> int
    decreases b.len() - i,
{
    if i < 0 || i >= b.len() || !word_byte(b[i]) {
        0
    } else {
        1 + word_fwd(b, i + 1)
    }
}

/// The range a double click at byte `offset` selects: the identifier under
/// it (the last byte when past the end), else that one byte; nothing in an
/// empty text.
pub open spec fn word_range(b: Seq<u8>, offset: int) -> Option<(int, int)> {
    if b.len() == 0 {
        None
    } else {
        let start = if offset < b.len() - 1 { offset } else { b.len() - 1 };
        if word_byte(b[start]) {
            Some((start - word_back(b, start), start + word_fwd(b, start)))
        } else {
            Some((start, start + 1))
        }
    }
}

fn is_word_byte(c: u8) -> (r: bool)
    ensures
        r == word_byte(c),
{
    (0x30 <= c && c <= 0x39) || (0x41 <= c && c <= 0x5A) || (0x61 <= c && c <= 0x7A) || c == 0x5F
}

/// The range selected by a double click (see [`word_range`]).
pub fn word_range_at(content: &[u8], offset: usize) -> (r: Option<(usize, usize)>)
    ensures
        match r {
            Some(p) => word_range(content@, offset as int) == Some((p.0 as int, p.1 as int)),
            None => word_range(content@, offset as int) is None,
        },
{
    let n = content.len();
    if n == 0 {
        return None;
    }
    let mut start = if offset < n - 1 { offset } else { n - 1 };
    let s0 = start;
    if !is_word_byte(content[start]) {
        return Some((start, start + 1));
    }
    while start > 0 && is_word_byte(content[start - 1])
        invariant
            start <= s0 < n,
            n == content@.len(),
            word_back(content@, s0 as int) == (s0 - start) + word_back(content@, start as int),
        decreases start,
    {
        start = start - 1;
    }
    let mut end = s0;
    while end < n && is_word_byte(content[end])
        invariant
            s0 <= end <= n,
            n == content@.len(),
            word_fwd(content@, s0 as int) == (end - s0) + word_fwd(content@, end as int),
        decreases n - end,
    {
        end = end + 1;
    }
    Some((start, end))
}

/// Backspace between an empty pair — `()`, `[]`, `{}`, `''` or `""` —
/// deletes both characters.
pub open spec fn empty_pair_at(b: Seq<u8>, cursor: int) -> bool {
    0 < cursor < b.len() && {
        let l = b[cursor - 1];
        let r = b[cursor];
        (l == 0x28 && r == 0x29) || (l == 0x5B && r == 0x5D) || (l == 0x7B && r == 0x7D) || (l == 0x27 && r
            == 0x27) || (l == 0x22 && r == 0x22)
    }
}

/// Whether backspace at `cursor` deletes an empty pair (see
/// [`empty_pair_at`]).
pub fn deletes_pair(content: &[u8], cursor: usize) -> (r: bool)
    ensures
        r == empty_pair_at(content@, cursor as int),
{
    if cursor == 0 || cursor >= content.len() {
        return false;
    }
    let l = content[cursor - 1];
    let r = content[cursor];
    (l == 0x28 && r == 0x29) || (l == 0x5B && r == 0x5D) || (l == 0x7B && r == 0x7D) || (l == 0x27 && r == 0x27)
        || (l == 0x22 && r == 0x22)
}

// ─── auto-indent ────────────────────────────────────────────────────────

/// The characters after the last `\n` of `p`.
pub open spec fn line_tail(p: Seq<char>) -> Seq<char> {
    p.skip(p.len() - tail_chars(p))
}

/// Number of leading spaces and tabs of `t`.
pub open spec fn lead_blanks(t: Seq<char>) -> nat
    decreases t.len(),
{
    if t.len() > 0 && (t[0] == ' ' || t[0] == '\t') {
        1 + lead_blanks(t.drop_first())
    } else {
        0
    }
}

/// The last character of `p` that is no whitespace.
pub open spec fn last_solid(p: Seq<char>) -> Option<char>
    decreases p.len(),
{
    if p.len() == 0 {
        None
    } else if !is_ws(p.last()) {
        Some(p.last())
    } else {
        last_solid(p.drop_last())
    }
}

/// The first character of `p` that is no whitespace.
pub open spec fn first_solid(p: Seq<char>) -> Option<char>
    decreases p.len(),
{
    if p.len() == 0 {
        None
    } else if !is_ws(p[0]) {
        Some(p[0])
    } else {
        first_solid(p.drop_first())
    }
}

/// What Enter inserts with the cursor after the first `k` characters of
/// `s`: a line break and the current line's indentation (spaces and tabs),
/// two more spaces after an opening bracket; between an empty bracket pair,
/// an indented middle line and the closing bracket's line, with the caret
/// placed that many bytes on (the second component).
pub open spec fn enter_text(s: Seq<char>, k: int) -> (Seq<char>, Option<nat>) {
    let p = s.take(k);
    let t = line_tail(p);
    let ind = t.take(lead_blanks(t) as int);
    let before = last_solid(p);
    let after = first_solid(s.skip(k));
    let opens = before == Some('{') || before == Some('(') || before == Some('[');
    let pair = (before == Some('{') && after == Some('}')) || (before == Some('(') && after == Some(')')) || (
    before == Some('[') && after == Some(']'));
    if pair {
        let mid = seq!['\n'] + ind + seq![' ', ' '];
        (mid + seq!['\n'] + ind, Some(utf8_len(mid)))
    } else {
        (seq!['\n'] + ind + (if opens { seq![' ', ' '] } else { Seq::empty() }), None)
    }
}

/// The indentation Enter keeps: the leading spaces and tabs of the line the
/// cursor (after `k` characters of `s`) is on.
pub open spec fn line_indent(s: Seq<char>, k: int) -> Seq<char> {
    line_tail(s.take(k)).take(lead_blanks(line_tail(s.take(k))) as int)
}

/// Enter after `k` characters of `s`. When the last non-blank character
/// before the cursor is an opening bracket and the first non-blank one
/// after it is that bracket's closer, it opens a middle line indented two
/// spaces more and puts the closer on a line of its own at the current
/// indentation, the caret at the end of the middle line; after any other
/// opening bracket the new line is indented two spaces more; otherwise it
/// keeps the indentation, which is made of spaces and tabs only.
pub proof fn law_enter_indents(s: Seq<char>, k: int)
    requires
        0 <= k <= s.len(),
    ensures
        forall|j: int|
            0 <= j < line_indent(s, k).len() ==> #[trigger] line_indent(s, k)[j] == ' ' || line_indent(s, k)[j] == '\t',
        ({
            let before = last_solid(s.take(k));
            let after = first_solid(s.skip(k));
            (before == Some('(') && after == Some(')')) || (before == Some('[') && after == Some(']')) || (before
                == Some('{') && after == Some('}'))
        }) ==> enter_text(s, k) == (
            seq!['\n'] + line_indent(s, k) + seq![' ', ' ', '\n'] + line_indent(s, k),
            Some((line_indent(s, k).len() + 3) as nat),
        ),
        ({
            let before = last_solid(s.take(k));
            let after = first_solid(s.skip(k));
            &&& before == Some('(') || before == Some('[') || before == Some('{')
            &&& !((before == Some('(') && after == Some(')')) || (before == Some('[') && after == Some(']')) || (before
                == Some('{') && after == Some('}')))
        }) ==> enter_text(s, k) == (seq!['\n'] + line_indent(s, k) + seq![' ', ' '], None::<nat>),
        ({
            let before = last_solid(s.take(k));
            !(before == Some('(') || before == Some('[') || before == Some('{'))
        }) ==> enter_text(s, k) == (seq!['\n'] + line_indent(s, k), None::<nat>),
{
    let t = line_tail(s.take(k));
    let ind = line_indent(s, k);
    lemma_lead_blanks(t);
    assert forall|j: int| 0 <= j < ind.len() implies #[trigger] ind[j] == ' ' || ind[j] == '\t' by {
        assert(ind[j] == t[j]);
    }
    let mid = seq!['\n'] + ind + seq![' ', ' '];
    assert forall|j: int| 0 <= j < mid.len() implies (#[trigger] mid[j] as u32) < 0x80 by {
        if 1 <= j < 1 + ind.len() {
            assert(mid[j] == ind[j - 1]);
        }
    }
    lemma_ascii_utf8(mid);
    assert(mid + seq!['\n'] + ind =~= seq!['\n'] + ind + seq![' ', ' ', '\n'] + ind);
}

proof fn lemma_lead_blanks(t: Seq<char>)
    ensures
        lead_blanks(t) <= t.len(),
        forall|j: int| 0 <= j < lead_blanks(t) ==> #[trigger] t[j] == ' ' || t[j] == '\t',
        lead_blanks(t) < t.len() ==> !(t[lead_blanks(t) as int] == ' ' || t[lead_blanks(t) as int] == '\t'),
    decreases t.len(),
{
    if t.len() > 0 && (t[0] == ' ' || t[0] == '\t') {
        lemma_lead_blanks(t.drop_first());
        assert forall|j: int| 0 <= j < lead_blanks(t) implies #[trigger] t[j] == ' ' || t[j] == '\t' by {
            if j > 0 {
                assert(t[j] == t.drop_first()[j - 1]);
            }
        }
    }
}

proof fn lemma_tail_chars(p: Seq<char>)
    ensures
        tail_chars(p) <= p.len(),
        tail_chars(p) < p.len() ==> p[p.len() - tail_chars(p) - 1] == '\n',
        forall|j: int| p.len() - tail_chars(p) <= j < p.len() ==> #[trigger] p[j] != '\n',
    decreases p.len(),
{
    if p.len() > 0 && p.last() != '\n' {
        lemma_tail_chars(p.drop_last());
        assert forall|j: int| p.len() - tail_chars(p) <= j < p.len() implies #[trigger] p[j] != '\n' by {
            if j < p.len() - 1 {
                assert(p[j] == p.drop_last()[j]);
            }
        }
    }
}

proof fn lemma_ascii_utf8(s: Seq<char>)
    requires
        forall|j: int| 0 <= j < s.len() ==> (#[trigger] s[j] as u32) < 0x80,
    ensures
        utf8_len(s) == s.len(),
    decreases s.len(),
{
    if s.len() > 0 {
        lemma_ascii_utf8(s.drop_last());
    }
}

pub(crate) fn char_index_at(v: &Vec<char>, cursor: usize) -> (k: usize)
    requires
        char_boundary(v@, cursor as nat),
        utf8_len(v@) < usize::MAX,
    ensures
        k <= v@.len(),
        utf8_len(v@.take(k as int)) == cursor,
{
    let ghost s = v@;
    let ghost kt: int = choose|k: int| 0 <= k <= s.len() && utf8_len(#[trigger] s.take(k)) == cursor;
    let mut bytes: usize = 0;
    let mut i: usize = 0;
    proof {
        assert(s.take(0) =~= Seq::<char>::empty());
    }
    while i < v.len() && bytes < cursor
        invariant
            s == v@,
            i <= s.len(),
            0 <= kt <= s.len(),
            utf8_len(s.take(kt)) == cursor,
            bytes == utf8_len(s.take(i as int)),
            utf8_len(s) < usize::MAX,
            i <= kt,
        decreases v.len() - i,
    {
        proof {
            lemma_utf8_len_take(s, i as int);
            lemma_utf8_len_mono(s, i + 1, s.len() as int);
            assert(s.take(s.len() as int) =~= s);
            if i as int == kt {
                assert(false);
            }
        }
        bytes = bytes + char_len_utf8(v[i]);
        i = i + 1;
        proof {
            if (i as int) > kt {
                lemma_utf8_len_mono(s, kt, i as int);
            }
        }
    }
    proof {
        if (i as int) < kt {
            lemma_utf8_len_mono(s, i as int, kt);
        }
    }
    i
}

/// The indentation (leading spaces and tabs) of the line the cursor at
/// character `k` is on, up to the cursor.
fn indent_before(v: &Vec<char>, k: usize) -> (r: Vec<char>)
    requires
        k <= v@.len(),
    ensures
        r@ == line_tail(v@.take(k as int)).take(lead_blanks(line_tail(v@.take(k as int))) as int),
        forall|j: int| 0 <= j < r@.len() ==> (#[trigger] r@[j] as u32) < 0x80,
{
    let ghost s = v@;
    let ghost p = s.take(k as int);
    let mut ls = k;
    while ls > 0 && v[ls - 1] != '\n'
        invariant
            ls <= k <= s.len(),
            s == v@,
            forall|j: int| ls <= j < k ==> s[j] != '\n',
        decreases ls,
    {
        ls = ls - 1;
    }
    proof {
        lemma_tail_chars(p);
        assert(ls as int == p.len() - tail_chars(p)) by {
            if (ls as int) < p.len() - tail_chars(p) {
                assert(p[p.len() - tail_chars(p) - 1] == '\n');
                assert(s[p.len() - tail_chars(p) - 1] == '\n');
            } else if (ls as int) > p.len() - tail_chars(p) {
                assert(s[ls - 1] == '\n');
                assert(p[ls - 1] == '\n');
            }
        }
    }
    let ghost t = line_tail(p);
    let mut ie = ls;
    while ie < k && (v[ie] == ' ' || v[ie] == '\t')
        invariant
            ls <= ie <= k <= s.len(),
            s == v@,
            forall|j: int| ls <= j < ie ==> s[j] == ' ' || s[j] == '\t',
        decreases k - ie,
    {
        ie = ie + 1;
    }
    let mut indent: Vec<char> = Vec::new();
    let mut j = ls;
    while j < ie
        invariant
            ls <= j <= ie <= k <= s.len(),
            s == v@,
            indent@ == s.subrange(ls as int, j as int),
            forall|i: int| ls <= i < ie ==> s[i] == ' ' || s[i] == '\t',
        decreases ie - j,
    {
        indent.push(v[j]);
        proof {
            assert(indent@ =~= s.subrange(ls as int, j + 1));
        }
        j = j + 1;
    }
    proof {
        assert(t =~= s.subrange(ls as int, k as int));
        lemma_lead_blanks(t);
        assert(lead_blanks(t) == ie - ls) by {
            if lead_blanks(t) < ie - ls {
                assert(t[lead_blanks(t) as int] == s[ls + lead_blanks(t)]);
            } else if lead_blanks(t) > ie - ls {
                assert(t[(ie - ls) as int] == s[ie as int]);
            }
        }
        assert(indent@ =~= t.take(lead_blanks(t) as int));
        assert forall|i: int| 0 <= i < indent@.len() implies (#[trigger] indent@[i] as u32) < 0x80 by {
            assert(indent@[i] == s[ls + i]);
        }
    }
    indent
}

/// The last non-whitespace character among the first `k` characters.
fn solid_before(v: &Vec<char>, k: usize) -> (r: Option<char>)
    requires
        k <= v@.len(),
    ensures
        r == last_solid(v@.take(k as int)),
{
    let ghost s = v@;
    let mut b = k;
    while b > 0 && crate::text::char_is_ws(v[b - 1])
        invariant
            b <= k <= s.len(),
            s == v@,
            last_solid(s.take(k as int)) == last_solid(s.take(b as int)),
        decreases b,
    {
        proof {
            assert(s.take(b as int).drop_last() =~= s.take(b - 1));
        }
        b = b - 1;
    }
    proof {
        if b > 0 {
            assert(s.take(b as int).last() == s[b - 1]);
        } else {
            assert(s.take(0) =~= Seq::<char>::empty());
        }
    }
    if b > 0 {
        Some(v[b - 1])
    } else {
        None
    }
}

/// The first non-whitespace character from character `k` on.
fn solid_after(v: &Vec<char>, k: usize) -> (r: Option<char>)
    requires
        k <= v@.len(),
    ensures
        r == first_solid(v@.skip(k as int)),
{
    let ghost s = v@;
    let mut a = k;
    while a < v.len() && crate::text::char_is_ws(v[a])
        invariant
            k <= a <= s.len(),
            s == v@,
            first_solid(s.skip(k as int)) == first_solid(s.skip(a as int)),
        decreases v.len() - a,
    {
        proof {
            assert(s.skip(a as int).drop_first() =~= s.skip(a + 1));
        }
        a = a + 1;
    }
    proof {
        if a < s.len() {
            assert(s.skip(a as int)[0] == s[a as int]);
        } else {
            assert(s.skip(a as int) =~= Seq::<char>::empty());
        }
    }
    if a < v.len() {
        Some(v[a])
    } else {
        None
    }
}

/// What Enter inserts at the byte offset `cursor` (a character boundary)
/// of `text`, and where the caret goes relative to `cursor` when it does
/// not go to the end of the insertion (see [`enter_text`]).
pub fn auto_indent(text: &str, cursor: usize) -> (r: (String, Option<usize>))
    requires
        char_boundary(text@, cursor as nat),
        utf8_len(text@) < usize::MAX,
    ensures
        exists|k: int|
            0 <= k <= text@.len() && utf8_len(#[trigger] text@.take(k)) == cursor && r.0@ == enter_text(text@, k).0
                && match r.1 {
                Some(n) => enter_text(text@, k).1 == Some(n as nat),
                None => enter_text(text@, k).1 is None,
            },
{
    let v = chars_of(text);
    let k = char_index_at(&v, cursor);
    let indent = indent_before(&v, k);
    let before = solid_before(&v, k);
    let after = solid_after(&v, k);
    let opens = before == Some('{') || before == Some('(') || before == Some('[');
    let pair = (before == Some('{') && after == Some('}')) || (before == Some('(') && after == Some(')')) || (
    before == Some('[') && after == Some(']'));
    if pair {
        let mut mid: Vec<char> = Vec::new();
        mid.push('\n');
        append_chars(&mut mid, indent.as_slice());
        mid.push(' ');
        mid.push(' ');
        let mut out = mid.clone();
        out.push('\n');
        append_chars(&mut out, indent.as_slice());
        let n = indent.len() + 3;
        proof {
            assert(mid@ =~= seq!['\n'] + indent@ + seq![' ', ' ']);
            assert(out@ =~= seq!['\n'] + indent@ + seq![' ', ' '] + seq!['\n'] + indent@);
            assert forall|j: int| 0 <= j < mid@.len() implies (#[trigger] mid@[j] as u32) < 0x80 by {
                if 1 <= j < mid@.len() - 2 {
                    assert(mid@[j] == indent@[j - 1]);
                }
            }
            lemma_ascii_utf8(mid@);
            assert(enter_text(v@, k as int).1 == Some(n as nat));
        }
        (string_from(out.as_slice()), Some(n))
    } else {
        let mut out: Vec<char> = Vec::new();
        out.push('\n');
        append_chars(&mut out, indent.as_slice());
        if opens {
            out.push(' ');
            out.push(' ');
        }
        proof {
            assert(out@ =~= seq!['\n'] + indent@ + (if opens { seq![' ', ' '] } else { Seq::<char>::empty() }));
        }
        (string_from(out.as_slice()), None)
    }
}

// ─── grapheme boundaries ───────────────────────────────────────────────

/// The byte offsets at which the extended grapheme clusters of a text
/// start, in the order the segmenter gives them.
pub uninterp spec fn grapheme_starts(text: Seq<char>) -> Seq<usize>;

/// Calls `UnicodeSegmentation::grapheme_indices(text, true)` and keeps
/// each cluster's byte offset. The contract names the result (the UAX #29
/// segmentation rules are not stated) and says what the iterator's source
/// shows of any segmentation: each offset is where a character starts, since
/// each cluster is a slice of the text starting there; the clusters are
/// non-empty and cover the text in order, so a non-empty text has its first
/// cluster at 0, the offsets strictly increase and stay below the text's
/// length in bytes, and an empty text has none.
#[verifier::external_body]
fn grapheme_offsets(text: &str) -> (r: Vec<usize>)
    ensures
        r@ == grapheme_starts(text@),
        forall|i: int| 0 <= i < r@.len() ==> char_boundary(text@, #[trigger] r@[i] as nat),
        (r@.len() == 0) == (text@.len() == 0),
        r@.len() > 0 ==> r@[0] == 0,
        forall|i: int, j: int| 0 <= i < j < r@.len() ==> #[trigger] r@[i] < #[trigger] r@[j],
        forall|i: int| 0 <= i < r@.len() ==> #[trigger] r@[i] < utf8_len(text@),
{
    unicode_segmentation::UnicodeSegmentation::grapheme_indices(text, true).map(|(i, _)| i).collect()
}

/// The last of `starts` below `offset`, scanning from the end, or 0.
pub open spec fn boundary_before(starts: Seq<usize>, offset: int) -> int
    decreases starts.len(),
{
    if starts.len() == 0 {
        0
    } else if starts.last() < offset {
        starts.last() as int
    } else {
        boundary_before(starts.drop_last(), offset)
    }
}

proof fn lemma_boundary_before_ok(s: Seq<char>, starts: Seq<usize>, offset: int)
    requires
        forall|i: int| 0 <= i < starts.len() ==> char_boundary(s, #[trigger] starts[i] as nat),
    ensures
        char_boundary(s, boundary_before(starts, offset) as nat),
        boundary_before(starts, offset) >= 0,
    decreases starts.len(),
{
    assert(s.take(0) =~= Seq::<char>::empty());
    assert(utf8_len(s.take(0)) == 0);
    if starts.len() > 0 && starts.last() >= offset {
        assert forall|i: int| 0 <= i < starts.drop_last().len() implies char_boundary(s, #[trigger] starts.drop_last()[i] as nat) by {
            assert(starts.drop_last()[i] == starts[i]);
        }
        lemma_boundary_before_ok(s, starts.drop_last(), offset);
    } else if starts.len() > 0 {
        assert(char_boundary(s, starts[starts.len() - 1] as nat));
    }
}

proof fn lemma_boundary_after_ok(s: Seq<char>, starts: Seq<usize>, offset: int)
    requires
        forall|i: int| 0 <= i < starts.len() ==> char_boundary(s, #[trigger] starts[i] as nat),
    ensures
        char_boundary(s, boundary_after(starts, offset, utf8_len(s) as int) as nat),
        boundary_after(starts, offset, utf8_len(s) as int) >= 0,
    decreases starts.len(),
{
    assert(s.take(s.len() as int) =~= s);
    if starts.len() > 0 && starts[0] <= offset {
        assert forall|i: int| 0 <= i < starts.drop_first().len() implies char_boundary(s, #[trigger] starts.drop_first()[i] as nat) by {
            assert(starts.drop_first()[i] == starts[i + 1]);
        }
        lemma_boundary_after_ok(s, starts.drop_first(), offset);
    } else if starts.len() > 0 {
        assert(char_boundary(s, starts[0] as nat));
    }
}

/// The first of `starts` above `offset`, or `end`.
pub open spec fn boundary_after(starts: Seq<usize>, offset: int, end: int) -> int
    decreases starts.len(),
{
    if starts.len() == 0 {
        end
    } else if starts[0] > offset {
        starts[0] as int
    } else {
        boundary_after(starts.drop_first(), offset, end)
    }
}

fn byte_len(text: &str) -> (n: usize)
    requires
        utf8_len(text@) < usize::MAX,
    ensures
        n == utf8_len(text@),
{
    let v = chars_of(text);
    let mut n: usize = 0;
    let mut i: usize = 0;
    proof {
        assert(v@.take(0) =~= Seq::<char>::empty());
    }
    while i < v.len()
        invariant
            v@ == text@,
            i <= v@.len(),
            n == utf8_len(v@.take(i as int)),
            utf8_len(text@) < usize::MAX,
        decreases v.len() - i,
    {
        proof {
            lemma_utf8_len_take(v@, i as int);
            lemma_utf8_len_mono(v@, i + 1, v@.len() as int);
            assert(v@.take(v@.len() as int) =~= v@);
        }
        n = n + char_len_utf8(v[i]);
        i = i + 1;
    }
    proof {
        assert(v@.take(i as int) =~= v@);
    }
    n
}

/// The start of the grapheme cluster before byte `offset` (0 at the
/// start): where Left and Backspace move.
pub fn previous_boundary(text: &str, offset: usize) -> (r: usize)
    ensures
        r == boundary_before(grapheme_starts(text@), offset as int),
        char_boundary(text@, r as nat),
{
    let starts = grapheme_offsets(text);
    proof {
        lemma_boundary_before_ok(text@, starts@, offset as int);
    }
    let mut k = starts.len();
    proof {
        assert(starts@.take(k as int) =~= starts@);
    }
    while k > 0
        invariant
            k <= starts@.len(),
            starts@ == grapheme_starts(text@),
            boundary_before(starts@.take(k as int), offset as int) == boundary_before(starts@, offset as int),
            char_boundary(text@, boundary_before(starts@, offset as int) as nat),
        decreases k,
    {
        proof {
            assert(starts@.take(k as int).drop_last() =~= starts@.take(k - 1));
            assert(starts@.take(k as int).last() == starts@[k - 1]);
        }
        if starts[k - 1] < offset {
            return starts[k - 1];
        }
        k = k - 1;
    }
    proof {
        assert(starts@.take(0) =~= Seq::<usize>::empty());
    }
    0
}

/// The start of the grapheme cluster after byte `offset` (the end of the
/// text at the last one): where Right and Delete move.
pub fn next_boundary(text: &str, offset: usize) -> (r: usize)
    requires
        utf8_len(text@) < usize::MAX,
    ensures
        r == boundary_after(grapheme_starts(text@), offset as int, utf8_len(text@) as int),
        char_boundary(text@, r as nat),
{
    let starts = grapheme_offsets(text);
    proof {
        lemma_boundary_after_ok(text@, starts@, offset as int);
    }
    let end = byte_len(text);
    let mut k: usize = 0;
    proof {
        assert(starts@.skip(0) =~= starts@);
    }
    while k < starts.len()
        invariant
            k <= starts@.len(),
            starts@ == grapheme_starts(text@),
            end == utf8_len(text@),
            boundary_after(starts@.skip(k as int), offset as int, end as int) == boundary_after(
                starts@,
                offset as int,
                end as int,
            ),
            char_boundary(text@, boundary_after(starts@, offset as int, end as int) as nat),
        decreases starts.len() - k,
    {
        proof {
            assert(starts@.skip(k as int).drop_first() =~= starts@.skip(k + 1));
            assert(starts@.skip(k as int)[0] == starts@[k as int]);
        }
        if starts[k] > offset {
            return starts[k];
        }
        k = k + 1;
    }
    proof {
        assert(starts@.skip(k as int) =~= Seq::<usize>::empty());
    }
    end
}

// ─── completions worth showing ─────────────────────────────────────────

/// A completion offered in the editor: what the list shows, what it
/// inserts, and a detail line.
#[derive(Debug)]
pub struct CompletionItem {
    pub label: String,
    pub insert: String,
    pub detail: String,
}

pub open spec fn item_view(c: CompletionItem) -> (Seq<char>, Seq<char>, Seq<char>) {
    (c.label@, c.insert@, c.detail@)
}

pub open spec fn items_view(v: Seq<CompletionItem>) -> Seq<(Seq<char>, Seq<char>, Seq<char>)> {
    v.map_values(|c: CompletionItem| item_view(c))
}

/// The completions that would change the text: neither their label nor
/// their insertion is what has been typed already.
pub open spec fn actionable(items: Seq<(Seq<char>, Seq<char>, Seq<char>)>, typed: Seq<char>) -> Seq<
    (Seq<char>, Seq<char>, Seq<char>),
>
    decreases items.len(),
{
    if items.len() == 0 {
        Seq::empty()
    } else {
        let rest = actionable(items.drop_last(), typed);
        let x = items.last();
        if x.0 != typed && x.1 != typed {
            rest.push(x)
        } else {
            rest
        }
    }
}

/// The completions worth showing (see [`actionable`]), in order.
pub fn actionable_completions(items: Vec<CompletionItem>, typed: &str) -> (r: Vec<CompletionItem>)
    ensures
        items_view(r@) == actionable(items_view(items@), typed@),
{
    let ghost all = items_view(items@);
    let t = chars_of(typed);
    let mut items = items;
    let mut out: Vec<CompletionItem> = Vec::new();
    let ghost mut i: int = 0;
    proof {
        assert(items_view(items@) =~= all.skip(0));
        assert(items_view(out@) =~= actionable(all.take(0), typed@));
    }
    while items.len() > 0
        invariant
            0 <= i <= all.len(),
            t@ == typed@,
            items_view(items@) == all.skip(i),
            items_view(out@) == actionable(all.take(i), typed@),
        decreases items.len(),
    {
        let ghost before = items@;
        let it = items.remove(0);
        proof {
            assert(all.skip(i).len() > 0);
            assert(it == before[0]);
            assert(items_view(before)[0] == item_view(before[0]));
            assert(all.skip(i)[0] == all[i]);
            assert(item_view(it) == all[i]);
            assert(items@ =~= before.remove(0));
            assert forall|j: int| 0 <= j < items@.len() implies #[trigger] items_view(items@)[j] == all.skip(i + 1)[j] by {
                assert(items@[j] == before[j + 1]);
                assert(items_view(before)[j + 1] == item_view(before[j + 1]));
                assert(all.skip(i)[j + 1] == all[i + j + 1]);
            }
            assert(items_view(items@) =~= all.skip(i + 1));
            assert(all.take(i + 1).drop_last() =~= all.take(i));
            assert(all.take(i + 1).last() == all[i]);
        }
        let keep = !chars_eq(chars_of(it.label.as_str()).as_slice(), t.as_slice()) && !chars_eq(
            chars_of(it.insert.as_str()).as_slice(),
            t.as_slice(),
        );
        if keep {
            let ghost ob = items_view(out@);
            out.push(it);
            proof {
                assert(items_view(out@) =~= ob.push(all[i]));
            }
        }
        proof {
            i = i + 1;
        }
    }
    proof {
        assert(all.skip(i).len() == 0);
        assert(all.take(i) =~= all);
    }
    out
}

/// The index of the first `b` in `s`, or `s.len()`.
pub open spec fn first_byte(s: Seq<u8>, b: u8) -> int
    decreases s.len(),
{
    if s.len() == 0 {
        0
    } else if s[0] == b {
        0
    } else {
        1 + first_byte(s.drop_first(), b)
    }
}

proof fn lemma_first_byte(s: Seq<u8>, b: u8)
    ensures
        0 <= first_byte(s, b) <= s.len(),
        forall|j: int| 0 <= j < first_byte(s, b) ==> #[trigger] s[j] != b,
        first_byte(s, b) < s.len() ==> s[first_byte(s, b)] == b,
    decreases s.len(),
{
    if s.len() > 0 && s[0] != b {
        lemma_first_byte(s.drop_first(), b);
        assert forall|j: int| 0 <= j < first_byte(s, b) implies #[trigger] s[j] != b by {
            if j > 0 {
                assert(s[j] == s.drop_first()[j - 1]);
            }
        }
    }
}

/// Where the cursor goes in an accepted completion, in bytes from its
/// start: inside its first `(` when a `)` follows, and past a quote that
/// opens right there; `None` leaves the cursor after the completion.
pub open spec fn completion_cursor_spec(insert: Seq<u8>) -> Option<int> {
    let open = first_byte(insert, 0x28);
    if open < insert.len() && exists|j: int| open <= j < insert.len() && insert[j] == 0x29 {
        let quote = open + 1 < insert.len() && (insert[open + 1] == 0x27 || insert[open + 1] == 0x22);
        Some(if quote { open + 2 } else { open + 1 })
    } else {
        None
    }
}

/// Where the cursor goes in an accepted completion (see
/// [`completion_cursor_spec`]).
pub fn completion_cursor(insert: &[u8]) -> (r: Option<usize>)
    ensures
        match r {
            Some(n) => completion_cursor_spec(insert@) == Some(n as int),
            None => completion_cursor_spec(insert@) is None,
        },
{
    let ghost s = insert@;
    proof {
        lemma_first_byte(s, 0x28);
    }
    let n = insert.len();
    let mut open: usize = 0;
    while open < n && insert[open] != 0x28
        invariant
            open <= n,
            n == s.len(),
            s == insert@,
            open <= first_byte(s, 0x28),
            forall|j: int| 0 <= j < first_byte(s, 0x28) ==> #[trigger] s[j] != 0x28,
            first_byte(s, 0x28) < s.len() ==> s[first_byte(s, 0x28)] == 0x28,
            first_byte(s, 0x28) <= s.len(),
        decreases n - open,
    {
        open = open + 1;
    }
    if open >= n {
        return None;
    }
    let mut j: usize = open;
    while j < n && insert[j] != 0x29
        invariant
            open <= j <= n,
            n == s.len(),
            s == insert@,
            forall|k: int| open <= k < j ==> #[trigger] s[k] != 0x29,
        decreases n - j,
    {
        j = j + 1;
    }
    if j >= n {
        return None;
    }
    if open + 1 < n && (insert[open + 1] == 0x27 || insert[open + 1] == 0x22) {
        Some(open + 2)
    } else {
        Some(open + 1)
    }
}

} // verus!
