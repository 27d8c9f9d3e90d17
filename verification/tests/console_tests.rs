use gpui_ide::console::{
    concise_error_line, concise_runtime_line, console_display_text, device_line, keep_recent, protocol_status_update, LogKind,
    RunState, LOG_LIMIT,
};
use gpui_ide::ports::default_port_index;

#[test]
fn concise_output_keeps_lua_print_and_hides_protocol() {
    assert_eq!(console_display_text(LogKind::Rx, "hello 123", false, false).as_deref(), Some("hello 123"));
    assert!(console_display_text(LogKind::Rx, "MOD_SLOT 0 i2c 3352 18c593d8", false, true).is_none());
    assert!(console_display_text(LogKind::Sys, "Flash 文件 3 个", false, false).is_none());
}

#[test]
fn concise_output_reports_run_result_and_short_error() {
    assert_eq!(
        console_display_text(LogKind::Sys, "模块化运行已启动 · [gpio, tmr] · 点击停止结束", false, false).as_deref(),
        Some("运行中")
    );
    assert_eq!(
        console_display_text(LogKind::Sys, "模块化运行成功 · [i2c] · NMUP abcdef", false, false).as_deref(),
        Some("运行完成")
    );
    assert_eq!(
        console_display_text(LogKind::Rx, "LUA run err: ?:?: attempt to call a nil value", false, false).as_deref(),
        Some("Lua 错误：attempt to call a nil value")
    );
    assert_eq!(
        console_display_text(LogKind::Error, "脚本执行失败：SCRIPT_DONE ERR", false, false).as_deref(),
        Some("运行失败：Lua 脚本执行出错")
    );
}

#[test]
fn full_output_preserves_protocol_verbatim() {
    assert_eq!(console_display_text(LogKind::Rx, "FW_INFO_END", true, true).as_deref(), Some("FW_INFO_END"));
}

#[test]
fn blank_sent_and_diagnostic_lines_are_hidden() {
    assert!(console_display_text(LogKind::Rx, "   \r\n", true, false).is_none());
    assert!(console_display_text(LogKind::Tx, "print(1)", false, false).is_none());
    assert!(console_display_text(LogKind::Diag, "diag", false, false).is_none());
    assert_eq!(console_display_text(LogKind::Tx, "  print(1) ", true, false).as_deref(), Some("print(1)"));
}

#[test]
fn runtime_errors_drop_location_markers() {
    assert_eq!(concise_runtime_line("LUA load err:  ?:?:?:?: bad  "), "Lua 错误：bad");
    assert_eq!(concise_runtime_line("LUA run err:"), "Lua 运行错误");
    assert_eq!(concise_runtime_line("LUA run err: ?:?:"), "Lua 运行错误");
    assert_eq!(concise_runtime_line("value 3"), "value 3");
}

#[test]
fn error_lines_get_verdicts_or_are_cut() {
    assert_eq!(concise_error_line("x not enough memory"), "运行失败：Lua 内存不足");
    assert_eq!(concise_error_line("BAUD_SWITCH fail"), "运行失败：串口高速切换失败");
    assert_eq!(concise_error_line("恢复 115200 失败"), "运行失败：串口高速切换失败");
    assert_eq!(concise_error_line("LittleFS mount"), "运行失败：Flash 文件系统未就绪");
    assert_eq!(concise_error_line("other"), "other");
    let long: String = std::iter::repeat('错').take(201).collect();
    let cut = concise_error_line(&long);
    assert_eq!(cut.chars().count(), 201);
    assert!(cut.ends_with("错…"));
    let exact: String = std::iter::repeat('a').take(200).collect();
    assert_eq!(concise_error_line(&exact), exact);
}

#[test]
fn protocol_messages_become_status_text() {
    assert_eq!(protocol_status_update("HEX_OK 12").as_deref(), Some("上传中…"));
    assert_eq!(protocol_status_update("SCRIPT_OK 275").as_deref(), Some("上传完成 · 275 B · 运行中"));
    assert_eq!(protocol_status_update("SCRIPT_OK").as_deref(), Some("上传完成 · 运行中"));
    assert_eq!(protocol_status_update("SCRIPT_BEGIN").as_deref(), Some("开始上传…"));
    assert_eq!(protocol_status_update("SCRIPT_DONE OK").as_deref(), Some("完成"));
    assert_eq!(protocol_status_update("x LED_BLINK_DONE").as_deref(), Some("完成"));
    assert_eq!(protocol_status_update("SCRIPT_DONE ERR").as_deref(), Some("脚本执行失败"));
    assert_eq!(protocol_status_update("SCRIPT_DONE PENDING").as_deref(), Some("模块恢复未完成"));
    assert_eq!(protocol_status_update("STOP").as_deref(), Some("已停止"));
    assert_eq!(protocol_status_update("stopped by user").as_deref(), Some("已停止"));
    assert_eq!(protocol_status_update("SCRIPT_DONE ERR2"), None);
    assert_eq!(protocol_status_update("hello"), None);
}

#[test]
fn default_port_prefers_ch340_and_avoids_jlink() {
    let ports = |xs: &[&str]| xs.iter().map(|x| x.to_string()).collect::<Vec<_>>();
    assert_eq!(default_port_index(&ports(&["J-Link CDC", "USB-SERIAL CH340 (COM5)"])), Some(1));
    assert_eq!(default_port_index(&ports(&["CH340 J-LINK", "COM3"])), Some(1));
    assert_eq!(default_port_index(&ports(&["J-Link", "j-link 2"])), None);
    assert_eq!(default_port_index(&ports(&[])), None);
}

fn run_state(status: &str, running: bool) -> RunState {
    RunState { status: status.to_string(), script_running: running }
}

#[test]
fn script_done_ends_the_run() {
    let mut st = run_state("上传完成 · 运行中", true);
    assert!(device_line(&mut st, "SCRIPT_DONE OK", false, false));
    assert_eq!(st.status, "完成");
    assert!(!st.script_running);

    let mut st = run_state("运行中 main.luac", true);
    assert!(device_line(&mut st, "log: SCRIPT_DONE later", false, false));
    assert_eq!(st.status, "完成");
    assert!(!st.script_running);
}

#[test]
fn requested_stop_is_reported_as_stopped() {
    let mut st = run_state("上传完成 · 运行中", true);
    assert!(device_line(&mut st, "LUA stopped", true, false));
    assert_eq!(st.status, "已停止");
    assert!(!st.script_running);
}

#[test]
fn script_ok_starts_running_unless_busy() {
    let mut st = run_state("开始上传…", false);
    assert!(!device_line(&mut st, "SCRIPT_OK 128", false, false));
    assert_eq!(st.status, "上传完成 · 128 B · 运行中");
    assert!(st.script_running);

    let mut st = run_state("开始上传…", false);
    assert!(!device_line(&mut st, "SCRIPT_OK 128", false, true));
    assert!(!st.script_running);

    let mut st = run_state("idle", true);
    assert!(!device_line(&mut st, "hello from lua", false, false));
    assert_eq!(st.status, "idle");
    assert!(st.script_running);
}

#[test]
fn console_keeps_the_most_recent_lines() {
    let mut logs: Vec<u32> = (0..700).collect();
    keep_recent(&mut logs);
    assert_eq!(logs.len(), LOG_LIMIT);
    assert_eq!(logs[0], 100);
    assert_eq!(logs[599], 699);
    let mut few: Vec<u32> = (0..5).collect();
    keep_recent(&mut few);
    assert_eq!(few, vec![0, 1, 2, 3, 4]);
}
