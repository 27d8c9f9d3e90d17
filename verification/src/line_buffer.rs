//! The single-line text field (file names, search): its text and
//! selection, and what typing, deleting and moving do to them.
use vstd::prelude::*;
use crate::text::{chars_of, utf8_len};
use crate::editing::{
    boundary_after, boundary_before, char_boundary, char_index_at, grapheme_starts, lemma_utf8_len_mono,
    next_boundary, previous_boundary,
};
use crate::edit_buffer::{
    char_pos, lemma_char_pos, lemma_ends_are_boundaries, lemma_splice_shape, range_ok, splice, splice_exec, text_len,
};

verus! {

/// The field as plain values: text, selection (byte offsets), its
/// direction, and the range being composed by an input method.
pub struct LineV {
    pub content: Seq<char>,
    pub start: nat,
    pub end: nat,
    pub reversed: bool,
    pub marked: Option<(nat, nat)>,
}

/// A single-line text field.
pub struct LineBuffer {
    pub content: String,
    pub selected: (usize, usize),
    pub reversed: bool,
    pub marked: Option<(usize, usize)>,
}

impl View for LineBuffer {
    type V = LineV;

    open spec fn view(&self) -> LineV {
        LineV {
            content: self.content@,
            start: self.selected.0 as nat,
            end: self.selected.1 as nat,
            reversed: self.reversed,
            marked: match self.marked {
                Some((a, z)) => Some((a as nat, z as nat)),
                None => None,
            },
        }
    }
}

/// The selection and marked range lie in the text.
pub open spec fn line_ok(l: LineV) -> bool {
    &&& range_ok(l.content, l.start, l.end)
    &&& match l.marked {
        Some((a, z)) => range_ok(l.content, a, z),
        None => true,
    }
    &&& utf8_len(l.content) < usize::MAX
}

/// `t` without line breaks.
pub open spec fn without_breaks(t: Seq<char>) -> Seq<char>
    decreases t.len(),
{
    if t.len() == 0 {
        Seq::empty()
    } else if t.last() == '\n' || t.last() == '\r' {
        without_breaks(t.drop_last())
    } else {
        without_breaks(t.drop_last()).push(t.last())
    }
}

/// `t` holds no line break.
pub open spec fn single_line(t: Seq<char>) -> bool {
    forall|i: int| 0 <= i < t.len() ==> #[trigger] t[i] != '\n' && t[i] != '\r'
}

proof fn lemma_without_breaks(t: Seq<char>)
    ensures
        single_line(without_breaks(t)),
        utf8_len(without_breaks(t)) <= utf8_len(t),
    decreases t.len(),
{
    if t.len() > 0 {
        lemma_without_breaks(t.drop_last());
        assert(without_breaks(t.drop_last()).push(t.last()).drop_last() =~= without_breaks(t.drop_last()));
    }
}

/// Where the cursor is: the moving end of the selection.
pub open spec fn line_cursor(l: LineV) -> nat {
    if l.reversed {
        l.start
    } else {
        l.end
    }
}

/// The field holding `text`, all of it selected.
pub open spec fn line_loaded(text: Seq<char>) -> LineV {
    LineV { content: text, start: 0, end: utf8_len(text), reversed: false, marked: None }
}

/// An empty, forward selection at `offset` (clamped to the text).
pub open spec fn line_moved(l: LineV, offset: nat) -> LineV {
    let o = if offset < utf8_len(l.content) { offset } else { utf8_len(l.content) };
    LineV { start: o, end: o, reversed: false, ..l }
}

/// The selection's moving end set to `offset` (clamped); the ends swap and
/// the direction flips when they cross.
pub open spec fn line_selected_to(l: LineV, offset: nat) -> LineV {
    let o = if offset < utf8_len(l.content) { offset } else { utf8_len(l.content) };
    let s = if l.reversed { o } else { l.start };
    let e = if l.reversed { l.end } else { o };
    if e < s {
        LineV { start: e, end: s, reversed: !l.reversed, ..l }
    } else {
        LineV { start: s, end: e, ..l }
    }
}

/// The range an edit applies to: the given one, else the marked text, else
/// the selection.
pub open spec fn line_edit_range(l: LineV, range: Option<(usize, usize)>) -> (nat, nat) {
    match range {
        Some((a, z)) => (a as nat, z as nat),
        None => match l.marked {
            Some(m) => m,
            None => (l.start, l.end),
        },
    }
}

/// Typing `t` over bytes `start..end`: the text without line breaks
/// replaces them, the cursor after it, nothing marked.
pub open spec fn line_replaced(l: LineV, start: nat, end: nat, t: Seq<char>) -> LineV {
    let clean = without_breaks(t);
    LineV {
        content: splice(l.content, start, end, clean),
        start: start + utf8_len(clean),
        end: start + utf8_len(clean),
        reversed: l.reversed,
        marked: None,
    }
}

/// The edit range deleted.
pub open spec fn line_erased(l: LineV) -> LineV {
    line_replaced(l, line_edit_range(l, None).0, line_edit_range(l, None).1, Seq::empty())
}

/// Backspace: the selection, else the grapheme before the cursor
/// (nothing at the start).
pub open spec fn line_backspaced(l: LineV) -> LineV {
    if l.start == l.end {
        let c = line_cursor(l);
        let prev = boundary_before(grapheme_starts(l.content), c as int) as nat;
        if c == prev {
            l
        } else {
            line_erased(line_selected_to(l, prev))
        }
    } else {
        line_erased(l)
    }
}

/// Delete: the selection, else the grapheme after the cursor (nothing at
/// the end).
pub open spec fn line_deleted(l: LineV) -> LineV {
    if l.start == l.end {
        let c = line_cursor(l);
        let next = boundary_after(grapheme_starts(l.content), c as int, utf8_len(l.content) as int) as nat;
        if c == next {
            l
        } else {
            line_erased(line_selected_to(l, next))
        }
    } else {
        line_erased(l)
    }
}

impl LineBuffer {
    pub open spec fn wf(&self) -> bool {
        line_ok(self@)
    }

    /// A field holding `text`, all of it selected.
    pub fn new(text: &str) -> (r: Self)
        requires
            utf8_len(text@) < usize::MAX,
        ensures
            r@ == line_loaded(text@),
            r.wf(),
    {
        let mut r = LineBuffer { content: String::new(), selected: (0, 0), reversed: false, marked: None };
        r.set_text(text);
        r
    }

    /// Loads `text`, all of it selected.
    pub fn set_text(&mut self, text: &str)
        requires
            utf8_len(text@) < usize::MAX,
        ensures
            final(self)@ == line_loaded(text@),
            final(self).wf(),
    {
        let len = text_len(text);
        self.content = String::from_str(text);
        self.selected = (0, len);
        self.reversed = false;
        self.marked = None;
        proof {
            lemma_ends_are_boundaries(text@);
        }
    }

    /// The cursor's byte offset (see [`line_cursor`]).
    pub fn cursor_offset(&self) -> (r: usize)
        ensures
            r == line_cursor(self@),
    {
        if self.reversed {
            self.selected.0
        } else {
            self.selected.1
        }
    }

    /// An empty selection at `offset` (see [`line_moved`]).
    pub fn move_to(&mut self, offset: usize)
        requires
            old(self).wf(),
            offset >= utf8_len(old(self).content@) || char_boundary(old(self).content@, offset as nat),
        ensures
            final(self)@ == line_moved(old(self)@, offset as nat),
            final(self).wf(),
    {
        let len = text_len(self.content.as_str());
        let o = if offset < len { offset } else { len };
        proof {
            lemma_ends_are_boundaries(self.content@);
        }
        self.selected = (o, o);
        self.reversed = false;
    }

    /// Moves the selection's moving end to `offset` (see
    /// [`line_selected_to`]).
    pub fn select_to(&mut self, offset: usize)
        requires
            old(self).wf(),
            offset >= utf8_len(old(self).content@) || char_boundary(old(self).content@, offset as nat),
        ensures
            final(self)@ == line_selected_to(old(self)@, offset as nat),
            final(self).wf(),
    {
        let len = text_len(self.content.as_str());
        let o = if offset < len { offset } else { len };
        proof {
            lemma_ends_are_boundaries(self.content@);
        }
        if self.reversed {
            self.selected = (o, self.selected.1);
        } else {
            self.selected = (self.selected.0, o);
        }
        if self.selected.1 < self.selected.0 {
            self.reversed = !self.reversed;
            self.selected = (self.selected.1, self.selected.0);
        }
    }

    /// Types `new_text` over `range`, the marked text or the selection (see
    /// [`line_replaced`]).
    pub fn replace_text_in_range(&mut self, range: Option<(usize, usize)>, new_text: &str)
        requires
            old(self).wf(),
            match range {
                Some((a, z)) => range_ok(old(self).content@, a as nat, z as nat),
                None => true,
            },
            utf8_len(old(self).content@) + utf8_len(new_text@) < usize::MAX,
        ensures
            final(self)@ == line_replaced(
                old(self)@,
                line_edit_range(old(self)@, range).0,
                line_edit_range(old(self)@, range).1,
                new_text@,
            ),
            final(self).wf(),
            single_line(old(self).content@) ==> single_line(final(self).content@),
    {
        let (start, end) = match range {
            Some(r) => r,
            None => match self.marked {
                Some(m) => m,
                None => self.selected,
            },
        };
        let nv = chars_of(new_text);
        let mut clean: Vec<char> = Vec::new();
        let mut i: usize = 0;
        proof {
            assert(nv@.take(0) =~= Seq::<char>::empty());
        }
        while i < nv.len()
            invariant
                i <= nv@.len(),
                nv@ == new_text@,
                clean@ == without_breaks(nv@.take(i as int)),
            decreases nv.len() - i,
        {
            proof {
                assert(nv@.take(i + 1).drop_last() =~= nv@.take(i as int));
                assert(nv@.take(i + 1).last() == nv@[i as int]);
            }
            if nv[i] != '\n' && nv[i] != '\r' {
                clean.push(nv[i]);
            }
            i = i + 1;
        }
        proof {
            assert(nv@.take(i as int) =~= new_text@);
            lemma_without_breaks(new_text@);
        }
        let ghost s = self.content@;
        let v = chars_of(self.content.as_str());
        let ks = char_index_at(&v, start);
        let ke = char_index_at(&v, end);
        proof {
            lemma_char_pos(s, start as nat, ks as int);
            lemma_char_pos(s, end as nat, ke as int);
            if ks > ke {
                lemma_utf8_len_mono(s, ke as int, ks as int);
            }
        }
        let content = splice_exec(&v, ks, ke, &clean);
        let n = text_len_of(&clean);
        proof {
            lemma_splice_shape(s, ks as int, ke as int, clean@, clean@.len() as int);
            assert(clean@.take(clean@.len() as int) =~= clean@);
            lemma_utf8_len_mono(s, ks as int, ke as int);
            assert(content@.take(ks + clean@.len()) == s.take(ks as int) + clean@);
            assert(char_boundary(content@, (start + n) as nat));
            if single_line(s) {
                assert forall|j: int| 0 <= j < content@.len() implies #[trigger] content@[j] != '\n' && content@[j] != '\r' by {
                    if j < ks {
                        assert(content@[j] == s[j]);
                    } else if j < ks + clean@.len() {
                        assert(content@[j] == clean@[j - ks]);
                    } else {
                        assert(content@[j] == s[j - ks - clean@.len() + ke]);
                    }
                }
            }
        }
        let cursor = start + n;
        self.content = content;
        self.selected = (cursor, cursor);
        self.marked = None;
    }

    fn erase(&mut self)
        requires
            old(self).wf(),
        ensures
            final(self)@ == line_erased(old(self)@),
            final(self).wf(),
            single_line(old(self).content@) ==> single_line(final(self).content@),
    {
        proof {
            reveal_strlit("");
            assert(""@ =~= Seq::<char>::empty());
        }
        self.replace_text_in_range(None, "");
    }

    /// Backspace (see [`line_backspaced`]).
    pub fn backspace(&mut self)
        requires
            old(self).wf(),
        ensures
            final(self)@ == line_backspaced(old(self)@),
            final(self).wf(),
    {
        if self.selected.0 == self.selected.1 {
            let c = self.cursor_offset();
            let prev = previous_boundary(self.content.as_str(), c);
            if c == prev {
                return;
            }
            self.select_to(prev);
        }
        self.erase();
    }

    /// Delete (see [`line_deleted`]).
    pub fn delete(&mut self)
        requires
            old(self).wf(),
        ensures
            final(self)@ == line_deleted(old(self)@),
            final(self).wf(),
    {
        if self.selected.0 == self.selected.1 {
            let c = self.cursor_offset();
            let next = next_boundary(self.content.as_str(), c);
            if c == next {
                return;
            }
            self.select_to(next);
        }
        self.erase();
    }

    /// Left: to the grapheme boundary before the cursor, or to the start of
    /// a selection.
    pub fn left(&mut self)
        requires
            old(self).wf(),
        ensures
            final(self)@ == if old(self)@.start == old(self)@.end {
                line_moved(
                    old(self)@,
                    boundary_before(grapheme_starts(old(self)@.content), line_cursor(old(self)@) as int) as nat,
                )
            } else {
                line_moved(old(self)@, old(self)@.start)
            },
            final(self).wf(),
    {
        if self.selected.0 == self.selected.1 {
            let c = self.cursor_offset();
            let p = previous_boundary(self.content.as_str(), c);
            self.move_to(p);
        } else {
            let p = self.selected.0;
            self.move_to(p);
        }
    }

    /// Right: to the grapheme boundary after the cursor, or to the end of a
    /// selection.
    pub fn right(&mut self)
        requires
            old(self).wf(),
        ensures
            final(self)@ == if old(self)@.start == old(self)@.end {
                line_moved(
                    old(self)@,
                    boundary_after(
                        grapheme_starts(old(self)@.content),
                        old(self)@.end as int,
                        utf8_len(old(self)@.content) as int,
                    ) as nat,
                )
            } else {
                line_moved(old(self)@, old(self)@.end)
            },
            final(self).wf(),
    {
        if self.selected.0 == self.selected.1 {
            let p = next_boundary(self.content.as_str(), self.selected.1);
            self.move_to(p);
        } else {
            let p = self.selected.1;
            self.move_to(p);
        }
    }

    /// Selects the whole text.
    pub fn select_all(&mut self)
        requires
            old(self).wf(),
        ensures
            final(self)@ == line_selected_to(line_moved(old(self)@, 0), utf8_len(old(self)@.content)),
            final(self).wf(),
    {
        proof {
            lemma_ends_are_boundaries(self.content@);
        }
        self.move_to(0);
        let len = text_len(self.content.as_str());
        self.select_to(len);
    }

    /// Home: the cursor to the start.
    pub fn home(&mut self)
        requires
            old(self).wf(),
        ensures
            final(self)@ == line_moved(old(self)@, 0),
            final(self).wf(),
    {
        proof {
            lemma_ends_are_boundaries(self.content@);
        }
        self.move_to(0);
    }

    /// End: the cursor to the end.
    pub fn end(&mut self)
        requires
            old(self).wf(),
        ensures
            final(self)@ == line_moved(old(self)@, utf8_len(old(self)@.content)),
            final(self).wf(),
    {
        let len = text_len(self.content.as_str());
        self.move_to(len);
    }
}

fn text_len_of(v: &Vec<char>) -> (n: usize)
    requires
        utf8_len(v@) < usize::MAX,
    ensures
        n == utf8_len(v@),
{
    let s = crate::text::string_from(v.as_slice());
    text_len(s.as_str())
}

/// Typing keeps a field that holds one line on one line: line breaks in
/// what is typed are dropped.
pub proof fn law_field_stays_single_line(l: LineV, start: nat, end: nat, t: Seq<char>)
    requires
        line_ok(l),
        range_ok(l.content, start, end),
        single_line(l.content),
    ensures
        single_line(line_replaced(l, start, end, t).content),
{
    let s = l.content;
    let ks = char_pos(s, start);
    let ke = char_pos(s, end);
    let clean = without_breaks(t);
    lemma_without_breaks(t);
    let c = splice(s, start, end, clean);
    assert(0 <= ks <= s.len());
    assert(0 <= ke <= s.len());
    assert forall|j: int| 0 <= j < c.len() implies #[trigger] c[j] != '\n' && c[j] != '\r' by {
        if j < ks {
            assert(c[j] == s[j]);
        } else if j < ks + clean.len() {
            assert(c[j] == clean[j - ks]);
        } else {
            assert(c[j] == s[j - ks - clean.len() + ke]);
        }
    }
}

} // verus!
