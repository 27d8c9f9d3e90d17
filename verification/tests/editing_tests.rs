use gpui_ide::editing::{
    actionable_completions, auto_indent, completion_cursor, deletes_pair, line_col_at, matching_brackets, move_down, move_end,
    move_home, move_up, next_boundary, offset_at, offset_from_utf16, offset_to_utf16, previous_boundary,
    source_lines, word_range_at, CompletionItem,
};

#[test]
fn exact_completion_does_not_keep_popup_open() {
    let items = actionable_completions(
        vec![
            CompletionItem { label: "end".into(), insert: "end".into(), detail: "keyword".into() },
            CompletionItem { label: "elseif".into(), insert: "elseif".into(), detail: "keyword".into() },
        ],
        "end",
    );

    assert_eq!(items.len(), 1);
    assert_eq!(items[0].label, "elseif");
}

#[test]
fn trailing_newline_creates_exactly_one_empty_line() {
    let source = "1\n2\n3\n4\n5\n6\n7\n";
    let lines = source_lines(source);

    assert_eq!(lines.len(), 8);
    assert_eq!(lines[7], (source.len(), String::new()));
    assert_eq!(line_col_at(source, source.len()), (7, 0));
}

#[test]
fn typing_on_trailing_empty_line_keeps_its_line_number() {
    let mut source = String::from("1\n2\n3\n4\n5\n6\n7\n");
    source.push('x');

    assert_eq!(source_lines(&source).len(), 8);
    assert_eq!(line_col_at(&source, source.len()), (7, 1));
}

#[test]
fn lines_carry_byte_offsets_of_wide_characters() {
    let lines = source_lines("温度\nab");
    assert_eq!(lines, vec![(0, "温度".to_string()), (7, "ab".to_string())]);
    assert_eq!(line_col_at("温度\nab", 3), (0, 1));
    assert_eq!(line_col_at("温度\nab", 8), (1, 1));
    assert_eq!(line_col_at("温度\nab", 99), (1, 2));
}

#[test]
fn moving_by_line_keeps_the_column_where_it_can() {
    let text = "abcd\nx\n温度ok";
    assert_eq!(offset_at(text, 1, 3), 6);
    assert_eq!(offset_at(text, 2, 1), 10);
    assert_eq!(offset_at(text, 9, 0), text.len());
    assert_eq!(move_up(text, 3), 0);
    assert_eq!(move_down(text, 3), 6);
    assert_eq!(move_down(text, 5), 7);
    assert_eq!(move_down(text, 10), text.len());
    assert_eq!(move_up(text, 13), 6);
    assert_eq!(move_home(text, 13), 7);
    assert_eq!(move_end(text, 7), text.len());
}

#[test]
fn utf16_offsets_count_surrogate_pairs() {
    let text = "a😀b";
    assert_eq!(offset_to_utf16(text, 5), 3);
    assert_eq!(offset_from_utf16(text, 3), 5);
    assert_eq!(offset_from_utf16(text, 2), 5);
    assert_eq!(offset_to_utf16(text, 100), 4);
    assert_eq!(offset_from_utf16(text, 0), 0);
}

#[test]
fn brackets_match_under_or_before_the_cursor() {
    let text = b"f(a[1], {b})";
    assert_eq!(matching_brackets(text, 1), Some((1, 11)));
    assert_eq!(matching_brackets(text, 12), Some((1, 11)));
    assert_eq!(matching_brackets(text, 4), Some((3, 5)));
    assert_eq!(matching_brackets(text, 0), None);
    assert_eq!(matching_brackets(b"(()", 0), None);
    assert_eq!(matching_brackets(b"", 0), None);
}

#[test]
fn double_click_selects_the_identifier() {
    let text = b"local foo_1 = 2";
    assert_eq!(word_range_at(text, 8), Some((6, 11)));
    assert_eq!(word_range_at(text, 12), Some((12, 13)));
    assert_eq!(word_range_at(text, 99), Some((14, 15)));
    assert_eq!(word_range_at(b"", 0), None);
}

#[test]
fn backspace_removes_empty_pairs_only() {
    assert!(deletes_pair(b"f()", 2));
    assert!(deletes_pair(b"''", 1));
    assert!(!deletes_pair(b"(a)", 1));
    assert!(!deletes_pair(b"()", 0));
    assert!(!deletes_pair(b"()", 2));
}

#[test]
fn enter_keeps_indentation_and_opens_blocks() {
    assert_eq!(auto_indent("  x = 1", 7), ("\n  ".to_string(), None));
    assert_eq!(auto_indent("\tif a then {", 12), ("\n\t  ".to_string(), None));
    assert_eq!(auto_indent("  f(\n  g(  )", 10), ("\n    \n  ".to_string(), Some(5)));
    assert_eq!(auto_indent("", 0), ("\n".to_string(), None));
}

#[test]
fn grapheme_boundaries_step_over_combined_characters() {
    let text = "ae\u{301}z";
    assert_eq!(next_boundary(text, 0), 1);
    assert_eq!(next_boundary(text, 1), 4);
    assert_eq!(next_boundary(text, 4), 5);
    assert_eq!(previous_boundary(text, 4), 1);
    assert_eq!(previous_boundary(text, 1), 0);
    assert_eq!(previous_boundary(text, 0), 0);
}

#[test]
fn line_and_column_round_trip_through_byte_offsets() {
    let source = "aé\n\nλx 𝄞\n";
    let lines = source_lines(source);
    for (line, (_, text)) in lines.iter().enumerate() {
        for col in 0..=text.chars().count() {
            let offset = offset_at(source, line, col);
            assert_eq!(line_col_at(source, offset), (line, col));
        }
    }
    for (offset, _) in source.char_indices() {
        let (line, col) = line_col_at(source, offset);
        assert_eq!(offset_at(source, line, col), offset);
    }
    assert_eq!(offset_at(source, 2, 3), 9);
    assert_eq!(line_col_at(source, 9), (2, 3));
}

#[test]
fn accepted_completion_puts_the_cursor_inside_its_call() {
    assert_eq!(completion_cursor(b"print()"), Some(6));
    assert_eq!(completion_cursor(b"uart.write('')"), Some(12));
    assert_eq!(completion_cursor(b"gpio.mode(\"PA1\")"), Some(11));
    assert_eq!(completion_cursor(b"end"), None);
    assert_eq!(completion_cursor(b"f("), None);
    assert_eq!(completion_cursor(b"x)("), None);
}
