use gpui_ide::line_buffer::LineBuffer;

#[test]
fn a_new_field_selects_its_text() {
    let f = LineBuffer::new("main.lua");
    assert_eq!(f.content, "main.lua");
    assert_eq!(f.selected, (0, 8));
    assert!(!f.reversed);
}

#[test]
fn typing_drops_line_breaks_and_replaces_the_selection() {
    let mut f = LineBuffer::new("old.lua");
    f.replace_text_in_range(None, "new\r\nname.lua\n");
    assert_eq!(f.content, "newname.lua");
    assert_eq!(f.selected, (11, 11));
    f.replace_text_in_range(Some((0, 3)), "é");
    assert_eq!(f.content, "éname.lua");
    assert_eq!(f.selected, (2, 2));
    f.marked = Some((2, 6));
    f.replace_text_in_range(None, "x");
    assert_eq!(f.content, "éx.lua");
    assert_eq!(f.marked, None);
}

#[test]
fn field_editing_keys() {
    let mut f = LineBuffer::new("ae\u{301}b");
    f.end();
    assert_eq!(f.cursor_offset(), 5);
    f.backspace();
    assert_eq!(f.content, "ae\u{301}");
    f.backspace();
    assert_eq!(f.content, "a");
    f.home();
    f.backspace();
    assert_eq!(f.content, "a");
    f.delete();
    assert_eq!(f.content, "");
    f.set_text("abc");
    f.home();
    f.right();
    assert_eq!(f.selected, (1, 1));
    f.select_to(3);
    assert_eq!(f.selected, (1, 3));
    f.left();
    assert_eq!(f.selected, (1, 1));
    f.select_all();
    assert_eq!(f.selected, (0, 3));
    f.delete();
    assert_eq!(f.content, "");
}
