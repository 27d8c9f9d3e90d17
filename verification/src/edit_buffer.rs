//! The code editor's buffer: its text and selection, what typing does to
//! them (auto-paired brackets and quotes, typing through a closer), and
//! the undo and redo history.
use vstd::prelude::*;
use crate::text::{chars_of, string_from, utf8_len, utf8_width};
use crate::compile::{sanitize, sanitize_source_text};
use crate::editing::{
    boundary_after, boundary_before, char_boundary, char_index_at, char_len_utf8, grapheme_starts, lemma_prefix_unique,
    lemma_utf8_len_concat, lemma_utf8_len_mono, next_boundary, previous_boundary,
};

verus! {

/// Most edits that can be undone.
pub const HISTORY_LIMIT: usize = 512;

/// Text, selection (byte offsets) and selection direction at one moment.
pub struct EditSnapshot {
    pub content: String,
    pub selected: (usize, usize),
    pub reversed: bool,
}

/// A snapshot as plain values.
pub struct SnapV {
    pub content: Seq<char>,
    pub start: nat,
    pub end: nat,
    pub reversed: bool,
}

pub open spec fn snap_view(s: EditSnapshot) -> SnapV {
    SnapV { content: s.content@, start: s.selected.0 as nat, end: s.selected.1 as nat, reversed: s.reversed }
}

pub open spec fn snaps_view(v: Seq<EditSnapshot>) -> Seq<SnapV> {
    v.map_values(|s: EditSnapshot| snap_view(s))
}

/// The buffer as plain values: the current snapshot, the range of text
/// being composed by an input method, and the two histories (most recent
/// last).
pub struct BufV {
    pub now: SnapV,
    pub marked: Option<(nat, nat)>,
    pub undo: Seq<SnapV>,
    pub redo: Seq<SnapV>,
}

/// `start..end` is a range of `s` between character boundaries.
pub open spec fn range_ok(s: Seq<char>, start: nat, end: nat) -> bool {
    start <= end && char_boundary(s, start) && char_boundary(s, end)
}

/// A snapshot whose selection lies in its text.
pub open spec fn snap_ok(v: SnapV) -> bool {
    range_ok(v.content, v.start, v.end) && utf8_len(v.content) < usize::MAX
}

/// Every snapshot of the buffer has its selection in its text, and the two
/// histories together hold at most [`HISTORY_LIMIT`] snapshots.
pub open spec fn buf_ok(b: BufV) -> bool {
    &&& snap_ok(b.now)
    &&& match b.marked {
        Some((a, z)) => range_ok(b.now.content, a, z),
        None => true,
    }
    &&& b.undo.len() + b.redo.len() <= HISTORY_LIMIT
    &&& forall|i: int| 0 <= i < b.undo.len() ==> snap_ok(#[trigger] b.undo[i])
    &&& forall|i: int| 0 <= i < b.redo.len() ==> snap_ok(#[trigger] b.redo[i])
}

/// The buffer after the current snapshot is remembered for undo: pushed on
/// the undo history (the oldest dropped past the limit), redo forgotten.
pub open spec fn remembered(b: BufV) -> BufV {
    let u = b.undo.push(b.now);
    BufV { undo: if u.len() > HISTORY_LIMIT { u.drop_first() } else { u }, redo: Seq::empty(), ..b }
}

/// The buffer after undo: the last remembered snapshot comes back and the
/// current one goes to the redo history; nothing happens without history.
pub open spec fn undone(b: BufV) -> BufV {
    if b.undo.len() == 0 {
        b
    } else {
        BufV { now: b.undo.last(), marked: None, undo: b.undo.drop_last(), redo: b.redo.push(b.now) }
    }
}

/// The buffer after redo, the mirror of [`undone`].
pub open spec fn redone(b: BufV) -> BufV {
    if b.redo.len() == 0 {
        b
    } else {
        BufV { now: b.redo.last(), marked: None, undo: b.undo.push(b.now), redo: b.redo.drop_last() }
    }
}

/// The buffer holding `text` with the cursor at its end and no history.
pub open spec fn loaded(text: Seq<char>) -> BufV {
    BufV {
        now: SnapV { content: text, start: utf8_len(text), end: utf8_len(text), reversed: false },
        marked: None,
        undo: Seq::empty(),
        redo: Seq::empty(),
    }
}

/// The editor's buffer.
pub struct EditBuffer {
    pub content: String,
    pub selected: (usize, usize),
    pub reversed: bool,
    pub marked: Option<(usize, usize)>,
    pub undo_stack: Vec<EditSnapshot>,
    pub redo_stack: Vec<EditSnapshot>,
}

impl View for EditBuffer {
    type V = BufV;

    open spec fn view(&self) -> BufV {
        BufV {
            now: SnapV {
                content: self.content@,
                start: self.selected.0 as nat,
                end: self.selected.1 as nat,
                reversed: self.reversed,
            },
            marked: match self.marked {
                Some((a, z)) => Some((a as nat, z as nat)),
                None => None,
            },
            undo: snaps_view(self.undo_stack@),
            redo: snaps_view(self.redo_stack@),
        }
    }
}

pub(crate) fn text_len(s: &str) -> (n: usize)
    requires
        utf8_len(s@) < usize::MAX,
    ensures
        n == utf8_len(s@),
{
    let v = chars_of(s);
    let mut n: usize = 0;
    let mut i: usize = 0;
    proof {
        assert(v@.take(0) =~= Seq::<char>::empty());
    }
    while i < v.len()
        invariant
            v@ == s@,
            i <= v@.len(),
            n == utf8_len(v@.take(i as int)),
            utf8_len(s@) < usize::MAX,
        decreases v.len() - i,
    {
        proof {
            assert(v@.take(i + 1) =~= v@.take(i as int).push(v@[i as int]));
            assert(v@.take(i + 1).drop_last() =~= v@.take(i as int));
            lemma_utf8_len_mono(v@, i + 1, v@.len() as int);
            assert(v@.take(v@.len() as int) =~= v@);
        }
        n = n + char_len_utf8(v[i]);
        i = i + 1;
    }
    proof {
        assert(v@.take(i as int) =~= v@);
    }
    n
}

pub(crate) proof fn lemma_ends_are_boundaries(s: Seq<char>)
    ensures
        char_boundary(s, 0),
        char_boundary(s, utf8_len(s)),
{
    assert(s.take(0) =~= Seq::<char>::empty());
    assert(utf8_len(s.take(0)) == 0);
    assert(s.take(s.len() as int) =~= s);
}

impl EditBuffer {
    pub open spec fn wf(&self) -> bool {
        buf_ok(self@)
    }

    /// An empty buffer.
    pub fn new() -> (r: Self)
        ensures
            r@ == loaded(Seq::empty()),
            r.wf(),
    {
        let r = EditBuffer {
            content: String::new(),
            selected: (0, 0),
            reversed: false,
            marked: None,
            undo_stack: Vec::new(),
            redo_stack: Vec::new(),
        };
        proof {
            lemma_ends_are_boundaries(Seq::<char>::empty());
            assert(snaps_view(r.undo_stack@) =~= Seq::<SnapV>::empty());
            assert(snaps_view(r.redo_stack@) =~= Seq::<SnapV>::empty());
        }
        r
    }

    /// Loads `text` (sanitized, see [`sanitize`]) with the cursor at its
    /// end; the history starts afresh.
    pub fn set_text(&mut self, text: &str)
        requires
            utf8_len(sanitize(text@)) < usize::MAX,
        ensures
            final(self)@ == loaded(sanitize(text@)),
            final(self).wf(),
    {
        let t = sanitize_source_text(text);
        let end = text_len(t.as_str());
        self.content = t;
        self.selected = (end, end);
        self.reversed = false;
        self.marked = None;
        self.undo_stack.clear();
        self.redo_stack.clear();
        proof {
            lemma_ends_are_boundaries(self.content@);
            assert(snaps_view(self.undo_stack@) =~= Seq::<SnapV>::empty());
            assert(snaps_view(self.redo_stack@) =~= Seq::<SnapV>::empty());
        }
    }

    fn current_snapshot(&self) -> (r: EditSnapshot)
        ensures
            snap_view(r) == self@.now,
    {
        EditSnapshot { content: self.content.clone(), selected: self.selected, reversed: self.reversed }
    }

    fn restore(&mut self, s: EditSnapshot)
        ensures
            final(self)@ == (BufV { now: snap_view(s), marked: None, ..old(self)@ }),
    {
        self.content = s.content;
        self.selected = s.selected;
        self.reversed = s.reversed;
        self.marked = None;
    }

    /// Remembers the current snapshot for undo (see [`remembered`]).
    pub fn remember_edit(&mut self)
        ensures
            final(self)@ == remembered(old(self)@),
            old(self).wf() ==> final(self).wf(),
    {
        let snap = self.current_snapshot();
        let ghost u0 = self.undo_stack@;
        self.undo_stack.push(snap);
        proof {
            assert(snaps_view(self.undo_stack@) =~= snaps_view(u0).push(old(self)@.now));
        }
        if self.undo_stack.len() > HISTORY_LIMIT {
            let ghost u1 = self.undo_stack@;
            let _oldest = self.undo_stack.remove(0);
            proof {
                assert(snaps_view(self.undo_stack@) =~= snaps_view(u1).drop_first());
            }
        }
        self.redo_stack.clear();
        proof {
            assert(snaps_view(self.redo_stack@) =~= Seq::<SnapV>::empty());
            let b = old(self)@;
            let f = self@;
            if buf_ok(b) {
                assert forall|i: int| 0 <= i < f.undo.len() implies snap_ok(#[trigger] f.undo[i]) by {
                    let u = b.undo.push(b.now);
                    if u.len() > HISTORY_LIMIT {
                        assert(f.undo[i] == u[i + 1]);
                    } else {
                        assert(f.undo[i] == u[i]);
                    }
                    if u[i + 1] != b.now && u.len() > HISTORY_LIMIT {
                        assert(u[i + 1] == b.undo[i + 1]);
                    }
                }
            }
        }
    }

    /// Undo (see [`undone`]).
    pub fn undo(&mut self)
        ensures
            final(self)@ == undone(old(self)@),
            old(self).wf() ==> final(self).wf(),
    {
        match self.undo_stack.pop() {
            None => {},
            Some(previous) => {
                let cur = self.current_snapshot();
                let ghost r0 = self.redo_stack@;
                self.redo_stack.push(cur);
                proof {
                    assert(snaps_view(self.redo_stack@) =~= snaps_view(r0).push(old(self)@.now));
                    assert(snaps_view(self.undo_stack@) =~= old(self)@.undo.drop_last());
                }
                self.restore(previous);
                proof {
                    let b = old(self)@;
                    let f = self@;
                    if buf_ok(b) {
                        assert(snap_ok(b.undo[b.undo.len() - 1]));
                        assert forall|i: int| 0 <= i < f.redo.len() implies snap_ok(#[trigger] f.redo[i]) by {
                            if i < b.redo.len() {
                                assert(f.redo[i] == b.redo[i]);
                            }
                        }
                        assert forall|i: int| 0 <= i < f.undo.len() implies snap_ok(#[trigger] f.undo[i]) by {
                            assert(f.undo[i] == b.undo[i]);
                        }
                    }
                }
            },
        }
    }

    /// Redo (see [`redone`]).
    pub fn redo(&mut self)
        ensures
            final(self)@ == redone(old(self)@),
            old(self).wf() ==> final(self).wf(),
    {
        match self.redo_stack.pop() {
            None => {},
            Some(next) => {
                let cur = self.current_snapshot();
                let ghost u0 = self.undo_stack@;
                self.undo_stack.push(cur);
                proof {
                    assert(snaps_view(self.undo_stack@) =~= snaps_view(u0).push(old(self)@.now));
                    assert(snaps_view(self.redo_stack@) =~= old(self)@.redo.drop_last());
                }
                self.restore(next);
                proof {
                    let b = old(self)@;
                    let f = self@;
                    if buf_ok(b) {
                        assert(snap_ok(b.redo[b.redo.len() - 1]));
                        assert forall|i: int| 0 <= i < f.undo.len() implies snap_ok(#[trigger] f.undo[i]) by {
                            if i < b.undo.len() {
                                assert(f.undo[i] == b.undo[i]);
                            }
                        }
                        assert forall|i: int| 0 <= i < f.redo.len() implies snap_ok(#[trigger] f.redo[i]) by {
                            assert(f.redo[i] == b.redo[i]);
                        }
                    }
                }
            },
        }
    }
}

/// The closer typed along with an opening bracket or quote.
pub open spec fn closer_of(c: char) -> Option<char> {
    if c == '(' {
        Some(')')
    } else if c == '[' {
        Some(']')
    } else if c == '{' {
        Some('}')
    } else if c == '"' {
        Some('"')
    } else if c == '\'' {
        Some('\'')
    } else {
        None
    }
}

fn closer_exec(c: char) -> (r: Option<char>)
    ensures
        r == closer_of(c),
{
    if c == '(' {
        Some(')')
    } else if c == '[' {
        Some(']')
    } else if c == '{' {
        Some('}')
    } else if c == '"' {
        Some('"')
    } else if c == '\'' {
        Some('\'')
    } else {
        None
    }
}

/// What `char::is_alphanumeric` answers for `c`.
pub uninterp spec fn alphanumeric(c: char) -> bool;

/// `char::is_alphanumeric`: whether `c` is alphabetic or numeric in
/// Unicode's sense. Its answer is named, not written out.
#[verifier::external_body]
fn char_is_alphanumeric(c: char) -> (r: bool)
    ensures
        r == alphanumeric(c),
{
    c.is_alphanumeric()
}

/// The character index at byte offset `b` (a boundary of `s`).
pub open spec fn char_pos(s: Seq<char>, b: nat) -> int {
    choose|k: int| 0 <= k <= s.len() && utf8_len(#[trigger] s.take(k)) == b
}

/// The character right after byte offset `b`, if any.
pub open spec fn char_after(s: Seq<char>, b: nat) -> Option<char> {
    if char_pos(s, b) < s.len() {
        Some(s[char_pos(s, b)])
    } else {
        None
    }
}

/// `s` with the bytes `start..end` replaced by `ins`.
pub open spec fn splice(s: Seq<char>, start: nat, end: nat, ins: Seq<char>) -> Seq<char> {
    s.take(char_pos(s, start)) + ins + s.skip(char_pos(s, end))
}

/// What typing does: move the cursor to a byte offset, or insert text and
/// put the cursor that many bytes after the range's start.
pub enum Typed {
    Step(nat),
    Insert(Seq<char>, nat),
}

/// What typing `t` over bytes `start..end` of `s` does. A single character
/// over an empty range: a quote right before the same quote, or a closing
/// bracket right before the same bracket, steps over it; an opening bracket
/// or quote comes with its closer and the cursor between them, but a quote
/// right before a letter, digit or `_` comes alone. Anything else is
/// inserted as it is, the cursor after it.
pub open spec fn typing(s: Seq<char>, start: nat, end: nat, t: Seq<char>) -> Typed {
    if start == end && t.len() == 1 {
        let ch = t[0];
        let next = char_after(s, end);
        match closer_of(ch) {
            Some(c) => if next == Some(c) && (ch == '"' || ch == '\'') {
                Typed::Step(end + utf8_width(ch))
            } else if (ch == '"' || ch == '\'') && (match next {
                Some(n) => alphanumeric(n) || n == '_',
                None => false,
            }) {
                Typed::Insert(t, utf8_len(t))
            } else {
                Typed::Insert(seq![ch, c], 1)
            },
            None => if (ch == ')' || ch == ']' || ch == '}') && next == Some(ch) {
                Typed::Step(end + utf8_width(ch))
            } else {
                Typed::Insert(t, utf8_len(t))
            },
        }
    } else {
        Typed::Insert(t, utf8_len(t))
    }
}

/// The buffer after typing `t` over bytes `start..end` (see [`typing`]):
/// an insertion is remembered for undo first; either way no text stays
/// marked.
pub open spec fn replaced(b: BufV, start: nat, end: nat, t: Seq<char>) -> BufV {
    match typing(b.now.content, start, end, t) {
        Typed::Step(p) => BufV { now: SnapV { start: p, end: p, ..b.now }, marked: None, ..b },
        Typed::Insert(ins, off) => {
            let r = remembered(b);
            BufV {
                now: SnapV {
                    content: splice(b.now.content, start, end, ins),
                    start: start + off,
                    end: start + off,
                    reversed: b.now.reversed,
                },
                marked: None,
                ..r
            }
        },
    }
}

/// Typing a single opening bracket `(`, `[` or `{` over an empty range at
/// `p` inserts the bracket followed by its own closer and puts the cursor
/// between them, one byte after `p`. Typing a closing bracket `)`, `]` or
/// `}` right before the same bracket only steps the cursor over it, the
/// text unchanged. The typed character passes the input cleanup unchanged.
pub proof fn law_typed_brackets(b: BufV, p: nat, c: char)
    ensures
        (c == '(' || c == '[' || c == '{' || c == ')' || c == ']' || c == '}') ==> sanitize(seq![c]) == seq![c],
        (c == '(' || c == '[' || c == '{') ==> {
            let r = replaced(b, p, p, seq![c]);
            &&& r.now.content == splice(
                b.now.content,
                p,
                p,
                seq![c, if c == '(' { ')' } else if c == '[' { ']' } else { '}' }],
            )
            &&& r.now.start == p + 1
            &&& r.now.end == p + 1
            &&& r.marked is None
        },
        (c == ')' || c == ']' || c == '}') && char_after(b.now.content, p) == Some(c) ==> {
            let r = replaced(b, p, p, seq![c]);
            &&& r.now.content == b.now.content
            &&& r.now.start == p + 1
            &&& r.now.end == p + 1
        },
{
    assert(sanitize(Seq::<char>::empty()) =~= Seq::<char>::empty());
    assert(seq![c].drop_last() =~= Seq::<char>::empty());
    assert(Seq::<char>::empty().push(c) =~= seq![c]);
}

/// The range an edit applies to: the given one, else the marked text, else
/// the selection.
pub open spec fn edit_range(b: BufV, range: Option<(usize, usize)>) -> (nat, nat) {
    match range {
        Some((a, z)) => (a as nat, z as nat),
        None => match b.marked {
            Some(m) => m,
            None => (b.now.start, b.now.end),
        },
    }
}

proof fn lemma_sanitize_len(s: Seq<char>)
    ensures
        utf8_len(sanitize(s)) <= utf8_len(s),
    decreases s.len(),
{
    if s.len() > 0 {
        lemma_sanitize_len(s.drop_last());
        assert(sanitize(s.drop_last()).push(' ').drop_last() =~= sanitize(s.drop_last()));
        assert(sanitize(s.drop_last()).push(s.last()).drop_last() =~= sanitize(s.drop_last()));
    }
}

pub(crate) proof fn lemma_char_pos(s: Seq<char>, b: nat, k: int)
    requires
        0 <= k <= s.len(),
        utf8_len(s.take(k)) == b,
    ensures
        char_pos(s, b) == k,
{
    lemma_prefix_unique(s, k, char_pos(s, b));
}

pub(crate) fn splice_exec(v: &Vec<char>, ks: usize, ke: usize, ins: &Vec<char>) -> (r: String)
    requires
        ks <= ke <= v@.len(),
    ensures
        r@ == v@.take(ks as int) + ins@ + v@.skip(ke as int),
{
    let mut out: Vec<char> = Vec::new();
    let mut i: usize = 0;
    while i < ks
        invariant
            i <= ks <= v@.len(),
            out@ == v@.take(i as int),
        decreases ks - i,
    {
        out.push(v[i]);
        i = i + 1;
        proof {
            assert(out@ =~= v@.take(i as int));
        }
    }
    let ghost a = out@;
    let mut j: usize = 0;
    while j < ins.len()
        invariant
            j <= ins@.len(),
            out@ == a + ins@.take(j as int),
        decreases ins.len() - j,
    {
        out.push(ins[j]);
        j = j + 1;
        proof {
            assert(out@ =~= a + ins@.take(j as int));
        }
    }
    proof {
        assert(ins@.take(ins@.len() as int) =~= ins@);
    }
    let ghost b = out@;
    let mut k: usize = ke;
    while k < v.len()
        invariant
            ke <= k <= v@.len(),
            out@ == b + v@.subrange(ke as int, k as int),
        decreases v.len() - k,
    {
        out.push(v[k]);
        k = k + 1;
        proof {
            assert(out@ =~= b + v@.subrange(ke as int, k as int));
        }
    }
    proof {
        assert(v@.subrange(ke as int, v@.len() as int) =~= v@.skip(ke as int));
    }
    string_from(out.as_slice())
}

pub(crate) proof fn lemma_splice_shape(s: Seq<char>, ks: int, ke: int, ins: Seq<char>, m: int)
    requires
        0 <= ks <= ke <= s.len(),
        0 <= m <= ins.len(),
    ensures
        (s.take(ks) + ins + s.skip(ke)).take(ks + m) == s.take(ks) + ins.take(m),
        utf8_len(s.take(ks) + ins + s.skip(ke)) == utf8_len(s.take(ks)) + utf8_len(ins) + utf8_len(s.skip(ke)),
        utf8_len(s) == utf8_len(s.take(ke)) + utf8_len(s.skip(ke)),
        utf8_len(s.take(ks) + ins.take(m)) == utf8_len(s.take(ks)) + utf8_len(ins.take(m)),
{
    assert((s.take(ks) + ins + s.skip(ke)).take(ks + m) =~= s.take(ks) + ins.take(m));
    lemma_utf8_len_concat(s.take(ks) + ins, s.skip(ke));
    lemma_utf8_len_concat(s.take(ks), ins);
    lemma_utf8_len_concat(s.take(ks), ins.take(m));
    assert(s =~= s.take(ke) + s.skip(ke));
    lemma_utf8_len_concat(s.take(ke), s.skip(ke));
}

/// What typing does, as it is computed.
enum TypingExec {
    Step(usize),
    Insert(Vec<char>, usize),
}

spec fn typing_view(t: TypingExec) -> Typed {
    match t {
        TypingExec::Step(p) => Typed::Step(p as nat),
        TypingExec::Insert(ins, off) => Typed::Insert(ins@, off as nat),
    }
}

/// The cursor offset after an insertion is the end of the inserted text,
/// or the end of its first character when it is an auto-paired opener.
spec fn insert_cursor_ok(ins: Seq<char>, off: nat) -> bool {
    off == utf8_len(ins) || (ins.len() == 2 && off == 1 && utf8_width(ins[0]) == 1)
}

fn decide_typing(v: &Vec<char>, start: usize, end: usize, ke: usize, tv: Vec<char>) -> (r: TypingExec)
    requires
        ke <= v@.len(),
        char_pos(v@, end as nat) == ke,
        utf8_len(v@.take(ke as int)) == end,
        utf8_len(v@) < usize::MAX,
        utf8_len(tv@) < usize::MAX,
    ensures
        typing_view(r) == typing(v@, start as nat, end as nat, tv@),
        match r {
            TypingExec::Step(p) => char_boundary(v@, p as nat) && end <= p,
            TypingExec::Insert(ins, off) => insert_cursor_ok(ins@, off as nat) && utf8_len(ins@) <= utf8_len(tv@) + 2,
        },
{
    let ghost s = v@;
    proof {
        lemma_utf8_len_mono(s, ke as int, s.len() as int);
        assert(s.take(s.len() as int) =~= s);
    }
    if start == end && tv.len() == 1 {
        let ch = tv[0];
        let next: Option<char> = if ke < v.len() {
            Some(v[ke])
        } else {
            None
        };
        let next_is_ch = match next {
            Some(n) => n == ch,
            None => false,
        };
        let quote = ch == '"' || ch == '\'';
        let step = match closer_exec(ch) {
            Some(c) => match next {
                Some(n) => n == c && quote,
                None => false,
            },
            None => (ch == ')' || ch == ']' || ch == '}') && next_is_ch,
        };
        if step {
            let pos = end + char_len_utf8(ch);
            proof {
                lemma_utf8_len_mono(s, ke + 1, s.len() as int);
                assert(s.take(ke + 1) =~= s.take(ke as int).push(s[ke as int]));
                assert(s.take(ke + 1).drop_last() =~= s.take(ke as int));
                assert(utf8_len(s.take(ke + 1)) == pos);
            }
            return TypingExec::Step(pos);
        }
        match closer_exec(ch) {
            Some(c) => {
                let word_next = match next {
                    Some(n) => char_is_alphanumeric(n) || n == '_',
                    None => false,
                };
                if !(quote && word_next) {
                    let ins = vec![ch, c];
                    proof {
                        assert(ins@ =~= seq![ch, c]);
                        assert(seq![ch, c].drop_last() =~= seq![ch]);
                        assert(seq![ch].drop_last() =~= Seq::<char>::empty());
                        assert(utf8_width(ch) == 1);
                        assert(utf8_width(c) == 1);
                        assert(utf8_len(seq![ch].drop_last()) == 0);
                        assert(seq![ch].last() == ch);
                        assert(utf8_len(seq![ch]) == 1);
                        assert(seq![ch, c].last() == c);
                        assert(utf8_len(ins@) == 2);
                        assert(insert_cursor_ok(ins@, 1));
                    }
                    return TypingExec::Insert(ins, 1);
                }
            },
            None => {},
        }
    }
    let off = text_of_len(&tv);
    TypingExec::Insert(tv, off)
}

fn text_of_len(v: &Vec<char>) -> (n: usize)
    requires
        utf8_len(v@) < usize::MAX,
    ensures
        n == utf8_len(v@),
{
    let s = string_from(v.as_slice());
    text_len(s.as_str())
}

impl EditBuffer {
    fn apply_insert(&mut self, v: &Vec<char>, ks: usize, ke: usize, start: usize, ins: Vec<char>, off: usize)
        requires
            old(self).wf(),
            v@ == old(self).content@,
            ks <= ke <= v@.len(),
            utf8_len(v@.take(ks as int)) == start,
            insert_cursor_ok(ins@, off as nat),
            utf8_len(v@) + utf8_len(ins@) < usize::MAX,
        ensures
            final(self)@ == (BufV {
                now: SnapV {
                    content: v@.take(ks as int) + ins@ + v@.skip(ke as int),
                    start: (start + off) as nat,
                    end: (start + off) as nat,
                    reversed: old(self).reversed,
                },
                marked: None,
                ..remembered(old(self)@)
            }),
            final(self).wf(),
    {
        let ghost s = v@;
        self.remember_edit();
        let content = splice_exec(v, ks, ke, &ins);
        proof {
            let m: int = if off == utf8_len(ins@) { ins@.len() as int } else { 1 };
            lemma_splice_shape(s, ks as int, ke as int, ins@, m);
            if m == 1 && off != utf8_len(ins@) {
                assert(ins@.take(1).drop_last() =~= Seq::<char>::empty());
                assert(ins@.take(1).last() == ins@[0]);
                assert(utf8_len(ins@.take(1).drop_last()) == 0);
                assert(utf8_len(ins@.take(1)) == 1);
            } else {
                assert(ins@.take(m) =~= ins@);
            }
            assert(content@.take(ks + m) == s.take(ks as int) + ins@.take(m));
            assert(utf8_len(content@.take(ks + m)) == start + off);
            lemma_utf8_len_mono(s, ks as int, ke as int);
            assert(char_boundary(content@, (start + off) as nat));
        }
        let cursor = start + off;
        self.content = content;
        self.selected = (cursor, cursor);
        self.marked = None;
    }

    /// Types `new_text` (sanitized, see [`sanitize`]) over `range`, the
    /// marked text or the selection (see [`edit_range`] and [`replaced`]).
    pub fn replace_text_in_range(&mut self, range: Option<(usize, usize)>, new_text: &str)
        requires
            old(self).wf(),
            match range {
                Some((a, z)) => range_ok(old(self).content@, a as nat, z as nat),
                None => true,
            },
            utf8_len(old(self).content@) + utf8_len(new_text@) + 2 < usize::MAX,
        ensures
            final(self)@ == replaced(
                old(self)@,
                edit_range(old(self)@, range).0,
                edit_range(old(self)@, range).1,
                sanitize(new_text@),
            ),
            final(self).wf(),
    {
        let t = sanitize_source_text(new_text);
        let tv = chars_of(t.as_str());
        proof {
            lemma_sanitize_len(new_text@);
        }
        let (start, end) = match range {
            Some(r) => r,
            None => match self.marked {
                Some(m) => m,
                None => self.selected,
            },
        };
        let ghost s = self.content@;
        let v = chars_of(self.content.as_str());
        let ks = char_index_at(&v, start);
        let ke = char_index_at(&v, end);
        proof {
            lemma_char_pos(s, start as nat, ks as int);
            lemma_char_pos(s, end as nat, ke as int);
            if ks > ke {
                lemma_utf8_len_mono(s, ke as int, ks as int);
            }
        }
        match decide_typing(&v, start, end, ke, tv) {
            TypingExec::Step(pos) => {
                self.selected = (pos, pos);
                self.marked = None;
            },
            TypingExec::Insert(ins, off) => {
                self.apply_insert(&v, ks, ke, start, ins, off);
            },
        }
    }
}

/// Where the cursor is: the moving end of the selection.
pub open spec fn cursor(n: SnapV) -> nat {
    if n.reversed {
        n.start
    } else {
        n.end
    }
}

/// The buffer with an empty, forward selection at `offset` (clamped to
/// the text).
pub open spec fn moved_to(b: BufV, offset: nat) -> BufV {
    let o = if offset < utf8_len(b.now.content) { offset } else { utf8_len(b.now.content) };
    BufV { now: SnapV { start: o, end: o, reversed: false, ..b.now }, ..b }
}

/// The selection's moving end set to `offset` (clamped to the text); the
/// ends swap, and the direction flips, when they cross.
pub open spec fn selected_to(b: BufV, offset: nat) -> BufV {
    let o = if offset < utf8_len(b.now.content) { offset } else { utf8_len(b.now.content) };
    let s = if b.now.reversed { o } else { b.now.start };
    let e = if b.now.reversed { b.now.end } else { o };
    if e < s {
        BufV { now: SnapV { start: e, end: s, reversed: !b.now.reversed, ..b.now }, ..b }
    } else {
        BufV { now: SnapV { start: s, end: e, ..b.now }, ..b }
    }
}

/// Left: to the grapheme boundary before the cursor, or to the start of a
/// selection.
pub open spec fn moved_left(b: BufV) -> BufV {
    if b.now.start == b.now.end {
        moved_to(b, boundary_before(grapheme_starts(b.now.content), cursor(b.now) as int) as nat)
    } else {
        moved_to(b, b.now.start)
    }
}

/// Right: to the grapheme boundary after the cursor, or to the end of a
/// selection.
pub open spec fn moved_right(b: BufV) -> BufV {
    if b.now.start == b.now.end {
        moved_to(
            b,
            boundary_after(grapheme_starts(b.now.content), b.now.end as int, utf8_len(b.now.content) as int) as nat,
        )
    } else {
        moved_to(b, b.now.end)
    }
}

/// The text of the edit range deleted (typing nothing over it).
pub open spec fn erased(b: BufV) -> BufV {
    replaced(b, edit_range(b, None).0, edit_range(b, None).1, Seq::empty())
}

/// `l` and `r` are an empty pair: `()`, `[]`, `{}`, `''` or `""`.
pub open spec fn is_pair(l: char, r: char) -> bool {
    (l == '(' && r == ')') || (l == '[' && r == ']') || (l == '{' && r == '}') || (l == '\'' && r == '\'') || (l
        == '"' && r == '"')
}

/// The cursor at byte `c` stands inside an empty pair.
pub open spec fn inside_pair(s: Seq<char>, c: nat) -> bool {
    let k = char_pos(s, c);
    0 < k < s.len() && is_pair(s[k - 1], s[k])
}

/// Backspace: without a selection, both characters of an empty pair
/// around the cursor go, else the grapheme before the cursor (nothing at
/// the start); with one, the selection goes.
pub open spec fn backspaced(b: BufV) -> BufV {
    if b.now.start == b.now.end {
        let c = cursor(b.now);
        let prev = boundary_before(grapheme_starts(b.now.content), c as int) as nat;
        if inside_pair(b.now.content, c) {
            erased(BufV { now: SnapV { start: (c - 1) as nat, end: c + 1, reversed: false, ..b.now }, ..b })
        } else if c == prev {
            b
        } else {
            erased(selected_to(b, prev))
        }
    } else {
        erased(b)
    }
}

/// Backspace with the cursor (no selection, no text being composed) right
/// between the two characters of an empty pair `()`, `[]`, `{}`, `''` or
/// `""` removes both, and the cursor stands where the opener stood.
pub proof fn law_backspace_empty_pair(b: BufV, k: int)
    requires
        b.now.start == b.now.end,
        b.marked is None,
        0 < k < b.now.content.len(),
        utf8_len(b.now.content.take(k)) == b.now.start,
        ({
            let l = b.now.content[k - 1];
            let r = b.now.content[k];
            (l == '(' && r == ')') || (l == '[' && r == ']') || (l == '{' && r == '}') || (l == '\'' && r == '\'')
                || (l == '"' && r == '"')
        }),
    ensures
        backspaced(b).now.content == b.now.content.take(k - 1) + b.now.content.skip(k + 1),
        backspaced(b).now.start == b.now.start - 1,
        backspaced(b).now.end == b.now.start - 1,
{
    let s = b.now.content;
    let c = b.now.start;
    lemma_char_pos(s, c, k);
    crate::editing::lemma_utf8_len_take(s, k - 1);
    crate::editing::lemma_utf8_len_take(s, k);
    assert(s.take(k - 1 + 1) == s.take(k));
    lemma_char_pos(s, (c - 1) as nat, k - 1);
    lemma_char_pos(s, c + 1, k + 1);
    assert(inside_pair(s, c));
}

/// Delete: without a selection the grapheme after the cursor goes (nothing
/// at the end); with one, the selection goes.
pub open spec fn deleted(b: BufV) -> BufV {
    if b.now.start == b.now.end {
        let c = cursor(b.now);
        let next = boundary_after(grapheme_starts(b.now.content), c as int, utf8_len(b.now.content) as int) as nat;
        if c == next {
            b
        } else {
            erased(selected_to(b, next))
        }
    } else {
        erased(b)
    }
}

fn pair_exec(l: char, r: char) -> (b: bool)
    ensures
        b == is_pair(l, r),
{
    (l == '(' && r == ')') || (l == '[' && r == ']') || (l == '{' && r == '}') || (l == '\'' && r == '\'') || (l
        == '"' && r == '"')
}

impl EditBuffer {
    /// The cursor's byte offset (see [`cursor`]).
    pub fn cursor_offset(&self) -> (r: usize)
        ensures
            r == cursor(self@.now),
    {
        if self.reversed {
            self.selected.0
        } else {
            self.selected.1
        }
    }

    /// An empty selection at `offset` (see [`moved_to`]).
    pub fn move_to(&mut self, offset: usize)
        requires
            old(self).wf(),
            offset >= utf8_len(old(self).content@) || char_boundary(old(self).content@, offset as nat),
        ensures
            final(self)@ == moved_to(old(self)@, offset as nat),
            final(self).wf(),
    {
        let len = text_len(self.content.as_str());
        let o = if offset < len { offset } else { len };
        proof {
            lemma_ends_are_boundaries(self.content@);
        }
        self.selected = (o, o);
        self.reversed = false;
    }

    /// Moves the selection's moving end to `offset` (see [`selected_to`]).
    pub fn select_to(&mut self, offset: usize)
        requires
            old(self).wf(),
            offset >= utf8_len(old(self).content@) || char_boundary(old(self).content@, offset as nat),
        ensures
            final(self)@ == selected_to(old(self)@, offset as nat),
            final(self).wf(),
    {
        let len = text_len(self.content.as_str());
        let o = if offset < len { offset } else { len };
        proof {
            lemma_ends_are_boundaries(self.content@);
        }
        if self.reversed {
            self.selected = (o, self.selected.1);
        } else {
            self.selected = (self.selected.0, o);
        }
        if self.selected.1 < self.selected.0 {
            self.reversed = !self.reversed;
            self.selected = (self.selected.1, self.selected.0);
        }
    }

    /// Left (see [`moved_left`]).
    pub fn left(&mut self)
        requires
            old(self).wf(),
        ensures
            final(self)@ == moved_left(old(self)@),
            final(self).wf(),
    {
        if self.selected.0 == self.selected.1 {
            let c = self.cursor_offset();
            let p = previous_boundary(self.content.as_str(), c);
            self.move_to(p);
        } else {
            let p = self.selected.0;
            self.move_to(p);
        }
    }

    /// Right (see [`moved_right`]).
    pub fn right(&mut self)
        requires
            old(self).wf(),
        ensures
            final(self)@ == moved_right(old(self)@),
            final(self).wf(),
    {
        if self.selected.0 == self.selected.1 {
            let p = next_boundary(self.content.as_str(), self.selected.1);
            self.move_to(p);
        } else {
            let p = self.selected.1;
            self.move_to(p);
        }
    }

    /// Tab inserts two spaces over the edit range.
    pub fn tab(&mut self)
        requires
            old(self).wf(),
            utf8_len(old(self).content@) + 4 < usize::MAX,
        ensures
            final(self)@ == replaced(old(self)@, edit_range(old(self)@, None).0, edit_range(old(self)@, None).1, "  "@),
            final(self).wf(),
    {
        proof {
            reveal_strlit("  ");
            assert("  "@.drop_last() =~= seq![' ']);
            assert(seq![' '].drop_last() =~= Seq::<char>::empty());
            assert(sanitize(Seq::<char>::empty()) =~= Seq::<char>::empty());
            assert(sanitize(seq![' ']) =~= seq![' ']);
            assert(sanitize("  "@) =~= "  "@);
            assert(utf8_len(seq![' '].drop_last()) == 0);
            assert(seq![' '].last() == ' ');
            assert(utf8_len(seq![' ']) == 1);
            assert("  "@.last() == ' ');
            assert(utf8_len("  "@) == 2);
        }
        self.replace_text_in_range(None, "  ");
    }

    fn erase(&mut self)
        requires
            old(self).wf(),
            utf8_len(old(self).content@) + 2 < usize::MAX,
        ensures
            final(self)@ == erased(old(self)@),
            final(self).wf(),
    {
        proof {
            reveal_strlit("");
            assert(""@ =~= Seq::<char>::empty());
            assert(sanitize(Seq::<char>::empty()) =~= Seq::<char>::empty());
        }
        self.replace_text_in_range(None, "");
    }

    /// Backspace (see [`backspaced`]).
    pub fn backspace(&mut self)
        requires
            old(self).wf(),
            utf8_len(old(self).content@) + 2 < usize::MAX,
        ensures
            final(self)@ == backspaced(old(self)@),
            final(self).wf(),
    {
        if self.selected.0 == self.selected.1 {
            let c = self.cursor_offset();
            let v = chars_of(self.content.as_str());
            let ghost s = v@;
            let k = char_index_at(&v, c);
            proof {
                lemma_char_pos(s, c as nat, k as int);
            }
            if 0 < k && k < v.len() && pair_exec(v[k - 1], v[k]) {
                proof {
                    assert(s.take(k as int) =~= s.take(k - 1).push(s[k - 1]));
                    assert(s.take(k as int).drop_last() =~= s.take(k - 1));
                    assert(s.take(k + 1) =~= s.take(k as int).push(s[k as int]));
                    assert(s.take(k + 1).drop_last() =~= s.take(k as int));
                    assert(char_boundary(s, (c - 1) as nat));
                    lemma_utf8_len_mono(s, k + 1, s.len() as int);
                    assert(s.take(s.len() as int) =~= s);
                    assert(char_boundary(s, (c + 1) as nat));
                }
                self.selected = (c - 1, c + 1);
                self.reversed = false;
                self.erase();
                return;
            }
            let prev = previous_boundary(self.content.as_str(), c);
            if c == prev {
                return;
            }
            self.select_to(prev);
        }
        self.erase();
    }

    /// Delete (see [`deleted`]).
    pub fn delete(&mut self)
        requires
            old(self).wf(),
            utf8_len(old(self).content@) + 2 < usize::MAX,
        ensures
            final(self)@ == deleted(old(self)@),
            final(self).wf(),
    {
        if self.selected.0 == self.selected.1 {
            let c = self.cursor_offset();
            let next = next_boundary(self.content.as_str(), c);
            if c == next {
                return;
            }
            self.select_to(next);
        }
        self.erase();
    }
}

/// Undo right after typing that changed the text gives back the text, the
/// selection and its direction from before.
pub proof fn law_undo_reverts_typing(b: BufV, start: nat, end: nat, t: Seq<char>)
    requires
        typing(b.now.content, start, end, t) is Insert,
    ensures
        undone(replaced(b, start, end, t)).now == b.now,
{
    let u = b.undo.push(b.now);
    if u.len() > HISTORY_LIMIT {
        assert(u.drop_first().last() == u.last());
    }
}

/// Undo right after redo, or redo right after undo, gives back the
/// snapshot and both histories.
pub proof fn law_undo_redo_inverse(b: BufV)
    ensures
        b.undo.len() > 0 ==> redone(undone(b)).now == b.now && redone(undone(b)).undo == b.undo
            && redone(undone(b)).redo == b.redo,
        b.redo.len() > 0 ==> undone(redone(b)).now == b.now && undone(redone(b)).undo == b.undo
            && undone(redone(b)).redo == b.redo,
{
    if b.undo.len() > 0 {
        assert(b.undo.drop_last().push(b.undo.last()) =~= b.undo);
        assert(b.redo.push(b.now).drop_last() =~= b.redo);
    }
    if b.redo.len() > 0 {
        assert(b.redo.drop_last().push(b.redo.last()) =~= b.redo);
        assert(b.undo.push(b.now).drop_last() =~= b.undo);
    }
}

} // verus!
