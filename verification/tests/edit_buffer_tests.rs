use gpui_ide::edit_buffer::{EditBuffer, HISTORY_LIMIT};

fn buffer(text: &str, cursor: usize) -> EditBuffer {
    let mut b = EditBuffer::new();
    b.set_text(text);
    b.selected = (cursor, cursor);
    b
}

#[test]
fn loading_text_sanitizes_it_and_puts_the_cursor_at_the_end() {
    let mut b = EditBuffer::new();
    assert_eq!(b.content, "");
    assert_eq!(b.selected, (0, 0));
    b.set_text("a\u{3000}b\u{200B}");
    assert_eq!(b.content, "a b");
    assert_eq!(b.selected, (3, 3));
    assert!(b.undo_stack.is_empty());
}

#[test]
fn opening_brackets_come_with_their_closer() {
    let mut b = buffer("x", 1);
    b.replace_text_in_range(None, "(");
    assert_eq!(b.content, "x()");
    assert_eq!(b.selected, (2, 2));
    b.replace_text_in_range(None, ")");
    assert_eq!(b.content, "x()");
    assert_eq!(b.selected, (3, 3));
    assert_eq!(b.undo_stack.len(), 1);
}

#[test]
fn quotes_pair_except_before_a_word() {
    let mut b = buffer("x", 1);
    b.replace_text_in_range(None, "\"");
    assert_eq!(b.content, "x\"\"");
    assert_eq!(b.selected, (2, 2));
    b.replace_text_in_range(None, "\"");
    assert_eq!(b.selected, (3, 3));
    assert_eq!(b.content, "x\"\"");

    let mut w = buffer("abc", 0);
    w.replace_text_in_range(None, "'");
    assert_eq!(w.content, "'abc");
    assert_eq!(w.selected, (1, 1));

    let mut u = buffer("_v", 0);
    u.replace_text_in_range(None, "\"");
    assert_eq!(u.content, "\"_v");

    let mut s = buffer(" v", 0);
    s.replace_text_in_range(None, "'");
    assert_eq!(s.content, "'' v");
}

#[test]
fn typing_replaces_the_selection_and_undo_redo_walk_the_history() {
    let mut b = buffer("x = 1", 4);
    b.selected = (4, 5);
    b.replace_text_in_range(None, "42");
    assert_eq!(b.content, "x = 42");
    assert_eq!(b.selected, (6, 6));
    b.replace_text_in_range(Some((0, 1)), "é");
    assert_eq!(b.content, "é = 42");
    assert_eq!(b.selected, (2, 2));
    b.undo();
    assert_eq!(b.content, "x = 42");
    assert_eq!(b.selected, (6, 6));
    b.undo();
    assert_eq!(b.content, "x = 1");
    assert_eq!(b.selected, (4, 5));
    b.undo();
    assert_eq!(b.content, "x = 1");
    b.redo();
    assert_eq!(b.content, "x = 42");
    b.redo();
    assert_eq!(b.content, "é = 42");
    b.redo();
    assert_eq!(b.content, "é = 42");
}

#[test]
fn marked_text_is_replaced_when_no_range_is_given() {
    let mut b = buffer("ni", 2);
    b.marked = Some((0, 2));
    b.replace_text_in_range(None, "你");
    assert_eq!(b.content, "你");
    assert_eq!(b.selected, (3, 3));
    assert_eq!(b.marked, None);
}

#[test]
fn history_keeps_the_most_recent_edits() {
    let mut b = buffer("", 0);
    for _ in 0..600 {
        b.replace_text_in_range(None, "a");
    }
    assert_eq!(b.undo_stack.len(), HISTORY_LIMIT);
    assert_eq!(b.content.len(), 600);
    b.replace_text_in_range(None, "b");
    b.undo();
    assert_eq!(b.redo_stack.len(), 1);
    b.replace_text_in_range(None, "c");
    assert!(b.redo_stack.is_empty());
}

#[test]
fn arrows_move_by_grapheme_or_collapse_the_selection() {
    let mut b = buffer("ae\u{301}b", 5);
    b.left();
    assert_eq!(b.selected, (4, 4));
    b.left();
    assert_eq!(b.selected, (1, 1));
    b.right();
    assert_eq!(b.selected, (4, 4));
    b.selected = (1, 4);
    b.left();
    assert_eq!(b.selected, (1, 1));
    b.selected = (1, 4);
    b.right();
    assert_eq!(b.selected, (4, 4));
}

#[test]
fn select_to_extends_from_the_anchor() {
    let mut b = buffer("hello", 2);
    b.select_to(0);
    assert_eq!(b.selected, (0, 2));
    assert!(b.reversed);
    assert_eq!(b.cursor_offset(), 0);
    b.select_to(99);
    assert_eq!(b.selected, (2, 5));
    assert!(!b.reversed);
    assert_eq!(b.cursor_offset(), 5);
}

#[test]
fn backspace_removes_pairs_graphemes_or_the_selection() {
    let mut b = buffer("f()", 2);
    b.backspace();
    assert_eq!(b.content, "f");
    assert_eq!(b.selected, (1, 1));

    let mut g = buffer("ae\u{301}", 4);
    g.backspace();
    assert_eq!(g.content, "a");
    assert_eq!(g.selected, (1, 1));

    let mut z = buffer("x", 0);
    z.backspace();
    assert_eq!(z.content, "x");
    assert!(z.undo_stack.is_empty());

    let mut s = buffer("hello", 1);
    s.selected = (1, 4);
    s.backspace();
    assert_eq!(s.content, "ho");
    s.undo();
    assert_eq!(s.content, "hello");
}

#[test]
fn delete_removes_the_next_grapheme_and_tab_inserts_spaces() {
    let mut b = buffer("ab", 0);
    b.delete();
    assert_eq!(b.content, "b");
    assert_eq!(b.selected, (0, 0));
    let mut e = buffer("ab", 2);
    e.delete();
    assert_eq!(e.content, "ab");
    let mut t = buffer("x", 0);
    t.tab();
    assert_eq!(t.content, "  x");
    assert_eq!(t.selected, (2, 2));
}
