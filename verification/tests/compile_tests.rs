use gpui_ide::compile::{compile_outcome, compile_with,
    accept_bytecode, add_timer_event_runtime, ensure_luac_name, find_compiler, friendly_compile_error, is_lua_bytecode,
    normalize_source, prepare_source, sanitize_source_text, valid_luac_name, CompileError, TIMER_EVENT_PRELUDE,
};

#[test]
fn removes_bom_and_rich_text_formatting() {
    let source = "\u{feff}print(\u{2018}HI\u{2019})\u{200b}\r\n";
    assert_eq!(normalize_source(source), "print('HI')\n");
    assert_eq!(sanitize_source_text("a\u{00a0}b\u{3000}c"), "a b c");
}

#[test]
fn formats_lua_errors_with_a_readable_line_number() {
    assert_eq!(
        friendly_compile_error("editor:7: 'end' expected near '<eof>'"),
        "第 7 行：代码块未闭合：文件结束前缺少 end"
    );
}

#[test]
fn friendly_errors_explain_common_mistakes() {
    assert_eq!(
        friendly_compile_error("editor:1: unexpected symbol near '<\\239>'"),
        "第 1 行：检测到 UTF-8 BOM 或不可见字符；请删除该字符后重试"
    );
    assert_eq!(
        friendly_compile_error("editor:3: unfinished string near '\"abc'"),
        "第 3 行：字符串未闭合：unfinished string near '\"abc'"
    );
    assert_eq!(friendly_compile_error("  out of memory  "), "out of memory");
    assert_eq!(
        friendly_compile_error("editor:x: unexpected symbol near 'a'"),
        "存在意外符号：editor:x: unexpected symbol near 'a'"
    );
}

#[test]
fn normalizes_curly_double_quotes_and_lone_carriage_returns() {
    assert_eq!(normalize_source("a = \u{201c}x\u{201d}\rb = 1"), "a = \"x\"\nb = 1");
    assert_eq!(sanitize_source_text("\u{202a}x\u{2066}y\u{2060}"), "xy");
}

#[test]
fn event_runtime_is_added_only_when_used() {
    assert_eq!(add_timer_event_runtime("print(1)\n"), "print(1)\n");
    let with = add_timer_event_runtime("event.stop()\n");
    assert!(with.starts_with(TIMER_EVENT_PRELUDE));
    assert!(with.ends_with("event.stop()\n"));
}

#[test]
fn prepare_source_refuses_blank_text() {
    assert_eq!(prepare_source("\u{feff}  \r\n").unwrap_err(), CompileError::EmptySource);
    assert_eq!(prepare_source("print(1)").unwrap(), "print(1)");
}

#[test]
fn bytecode_signature_is_checked() {
    assert!(is_lua_bytecode(b"\x1bLua\x54"));
    assert!(!is_lua_bytecode(b"\x1bLu"));
    assert!(!is_lua_bytecode(b"print"));
    assert_eq!(accept_bytecode(b"\x1bLuaX".to_vec()).unwrap(), b"\x1bLuaX".to_vec());
    assert_eq!(accept_bytecode(b"Lua".to_vec()).unwrap_err(), CompileError::NotBytecode);
}

#[test]
fn luac_names_are_checked_and_completed() {
    assert!(valid_luac_name("main.luac"));
    assert!(valid_luac_name("  a-b_c.luac "));
    assert!(!valid_luac_name("main.lua"));
    assert!(!valid_luac_name("a b.luac"));
    assert!(valid_luac_name("abcdefghijklmnopqrstuvw.luac"));
    assert!(!valid_luac_name("abcdefghijklmnopqrstuvwx.luac"));
    assert_eq!(ensure_luac_name("  ").unwrap(), "main.luac");
    assert_eq!(ensure_luac_name(" app ").unwrap(), "app.luac");
    assert_eq!(ensure_luac_name("x.luac").unwrap(), "x.luac");
    assert!(ensure_luac_name("中文").is_err());
}

#[test]
fn compiler_is_in_process() {
    assert_eq!(find_compiler().unwrap(), "in-process");
}

#[test]
fn compiler_answers_become_bytecode_or_readable_errors() {
    let code = b"\x1bLua\x55".to_vec();
    assert_eq!(compile_outcome(Ok(code.clone())), Ok(code));
    assert_eq!(compile_outcome(Ok(vec![0, 1])), Err("编译结果不是有效 Lua 字节码".to_string()));
    let raw = "[string \"main\"]:3: 'end' expected near '<eof>'".to_string();
    assert_eq!(compile_outcome(Err(raw.clone())), Err(friendly_compile_error(&raw)));
}

#[test]
fn blank_source_is_refused_before_the_compiler_runs() {
    let mut called = false;
    let r = compile_with(" \t\r\n", |_: &str| {
        called = true;
        Ok(b"\x1bLua".to_vec())
    });
    assert_eq!(r, Err("源码为空".to_string()));
    assert!(!called);
}

#[test]
fn compiler_gets_the_prepared_text_and_its_answer_is_checked() {
    let mut seen = String::new();
    let r = compile_with("print(\u{201c}hi\u{201d})\r\n", |t: &str| {
        seen = t.to_string();
        Ok(b"\x1bLua\x55".to_vec())
    });
    assert_eq!(r, Ok(b"\x1bLua\x55".to_vec()));
    assert_eq!(seen, prepare_source("print(\u{201c}hi\u{201d})\r\n").unwrap());
    assert_eq!(compile_with("x = 1", |_: &str| Ok(vec![1, 2, 3])), Err("编译结果不是有效 Lua 字节码".to_string()));
    let raw = "editor:7: 'end' expected near '<eof>'";
    assert_eq!(compile_with("if x then", |_: &str| Err(raw.to_string())), Err(friendly_compile_error(raw)));
}
