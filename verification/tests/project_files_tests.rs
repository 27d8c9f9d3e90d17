use gpui_ide::project_files::{rename_error_message, rename_target_name, untitled_name, RenameError, UNTITLED_TRIES};

#[test]
fn new_scripts_get_numbered_default_names() {
    assert_eq!(untitled_name(0), "untitled.lua");
    assert_eq!(untitled_name(1), "untitled1.lua");
    assert_eq!(untitled_name(42), "untitled42.lua");
    assert_eq!(untitled_name(UNTITLED_TRIES), "untitled999.lua");
}

#[test]
fn typed_names_are_trimmed_and_completed() {
    assert_eq!(rename_target_name("  main  ", false), Ok("main".to_string()));
    assert_eq!(rename_target_name("demo", true), Ok("demo.lua".to_string()));
    assert_eq!(rename_target_name("demo.txt", true), Ok("demo.txt".to_string()));
    assert_eq!(rename_target_name(" 传感器 ", true), Ok("传感器.lua".to_string()));
}

#[test]
fn empty_or_illegal_names_are_refused() {
    assert_eq!(rename_target_name("   ", true), Err(RenameError::Empty));
    assert_eq!(rename_target_name("a/b.lua", false), Err(RenameError::IllegalChar));
    assert_eq!(rename_target_name("a\\b", false), Err(RenameError::IllegalChar));
    assert_eq!(rename_target_name("c:x", true), Err(RenameError::IllegalChar));
    assert_eq!(rename_target_name("*.lua", false), Err(RenameError::IllegalChar));
    assert_eq!(rename_error_message(RenameError::Empty), "名称不能为空");
    assert_eq!(rename_error_message(RenameError::IllegalChar), "名称含非法字符");
}
