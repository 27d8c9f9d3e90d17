//! What the console shows of a log line in concise mode, and the status
//! line that device protocol messages stand for.
use vstd::prelude::*;
use crate::text::{append_chars, append_str, chars_of, string_from, trim, trim_start, starts_with, has_sub, word_len, sub_chars, trim_bounds, starts_with_chars, contains_chars, skip_ws, skip_word};

verus! {

/// The kind of a console line.
#[derive(Clone, Copy, Debug, PartialEq, Eq, Structural)]
pub enum LogKind {
    Rx,
    Tx,
    Sys,
    Diag,
    Error,
}

/// `s` without every leading copy of `p` (`str::trim_start_matches`).
pub open spec fn strip_all(s: Seq<char>, p: Seq<char>) -> Seq<char>
    decreases s.len(),
{
    if p.len() > 0 && starts_with(s, p) {
        strip_all(s.skip(p.len() as int), p)
    } else {
        s
    }
}

/// A Lua error reported by the device (`LUA run err:` or `LUA load err:`)
/// as `Lua 错误：detail` (or `Lua 运行错误` without detail, location
/// markers `?:?:` dropped); any other line as it is.
pub open spec fn concise_runtime(text: Seq<char>) -> Seq<char> {
    let pre = if starts_with(text, "LUA run err:"@) {
        Some("LUA run err:"@)
    } else if starts_with(text, "LUA load err:"@) {
        Some("LUA load err:"@)
    } else {
        None
    };
    match pre {
        None => text,
        Some(p) => {
            let detail = trim(strip_all(trim(text.skip(p.len() as int)), "?:?:"@));
            if detail.len() == 0 {
                "Lua 运行错误"@
            } else {
                "Lua 错误："@ + detail
            }
        },
    }
}

/// Longest error line shown in full, in characters.
pub const ERROR_LINE_LIMIT: usize = 200;

/// An error line as shown: known failures as a short verdict; otherwise
/// the line, cut to `ERROR_LINE_LIMIT` characters and `…` when longer.
pub open spec fn concise_error(text: Seq<char>) -> Seq<char> {
    if has_sub(text, "not enough memory"@) {
        "运行失败：Lua 内存不足"@
    } else if has_sub(text, "SCRIPT_DONE ERR"@) {
        "运行失败：Lua 脚本执行出错"@
    } else if has_sub(text, "BAUD_"@) || has_sub(text, "波特率"@) || has_sub(text, "恢复 115200"@) {
        "运行失败：串口高速切换失败"@
    } else if has_sub(text, "LittleFS"@) || has_sub(text, "name/fs"@) {
        "运行失败：Flash 文件系统未就绪"@
    } else if text.len() <= ERROR_LINE_LIMIT {
        text
    } else {
        text.take(ERROR_LINE_LIMIT as int).push('…')
    }
}

/// What the console shows of a line: nothing for blank lines; the trimmed
/// line in full-output mode; otherwise a run verdict for system lines that
/// report one, device output without transport noise (Lua errors made
/// concise), short error verdicts, and nothing for sent and diagnostic
/// lines. `noise` says whether the trimmed line is serial transport noise.
pub open spec fn console_text(kind: LogKind, line: Seq<char>, full_output: bool, noise: bool) -> Option<Seq<char>> {
    let text = trim(line);
    if text.len() == 0 {
        None
    } else if full_output {
        Some(text)
    } else {
        match kind {
            LogKind::Tx => None,
            LogKind::Diag => None,
            LogKind::Sys => if starts_with(text, "模块化运行已启动"@) {
                Some("运行中"@)
            } else if starts_with(text, "模块化运行成功"@) {
                Some("运行完成"@)
            } else {
                None
            },
            LogKind::Rx => if noise {
                None
            } else {
                Some(concise_runtime(text))
            },
            LogKind::Error => Some(concise_error(text)),
        }
    }
}

fn trimmed(v: &[char]) -> (t: Vec<char>)
    ensures
        t@ == trim(v@),
{
    let (a, b) = trim_bounds(v, 0, v.len());
    proof {
        assert(v@.subrange(0, v@.len() as int) =~= v@);
    }
    sub_chars(v, a, b)
}

fn has(v: &[char], p: &str) -> (b: bool)
    ensures
        b == has_sub(v@, p@),
{
    let pv = chars_of(p);
    contains_chars(v, pv.as_slice())
}

fn begins(v: &[char], p: &str) -> (b: bool)
    ensures
        b == starts_with(v@, p@),
{
    let pv = chars_of(p);
    starts_with_chars(v, pv.as_slice())
}

fn strip_all_exec(s: &[char], p: &str) -> (r: Vec<char>)
    ensures
        r@ == strip_all(s@, p@),
{
    let pv = chars_of(p);
    let n = pv.len();
    let mut k: usize = 0;
    proof {
        assert(s@.skip(0) =~= s@);
    }
    while n > 0 && s.len() - k >= n && crate::text::matches_at(s, k, pv.as_slice())
        invariant
            k <= s@.len(),
            pv@ == p@,
            n == pv@.len(),
            strip_all(s@, p@) == strip_all(s@.skip(k as int), p@),
        decreases s.len() - k,
    {
        proof {
            assert(s@.skip(k as int).take(n as int) =~= s@.subrange(k as int, k + n));
            assert(s@.skip(k as int).skip(n as int) =~= s@.skip(k + n));
        }
        k = k + n;
    }
    proof {
        if n > 0 && s@.len() - k >= n {
            assert(s@.skip(k as int).take(n as int) =~= s@.subrange(k as int, k + n));
        }
    }
    sub_chars(s, k, s.len())
}

/// A device line made concise (see [`concise_runtime`]).
pub fn concise_runtime_line(text: &str) -> (r: String)
    ensures
        r@ == concise_runtime(text@),
{
    let t = chars_of(text);
    let plen: usize = if begins(t.as_slice(), "LUA run err:") {
        let p = chars_of("LUA run err:");
        p.len()
    } else if begins(t.as_slice(), "LUA load err:") {
        let p = chars_of("LUA load err:");
        p.len()
    } else {
        return string_from(t.as_slice());
    };
    let rest = sub_chars(t.as_slice(), plen, t.len());
    let a = trimmed(rest.as_slice());
    let b = strip_all_exec(a.as_slice(), "?:?:");
    let detail = trimmed(b.as_slice());
    proof {
        assert(rest@ =~= text@.skip(plen as int));
    }
    if detail.len() == 0 {
        String::from_str("Lua 运行错误")
    } else {
        let mut out = chars_of("Lua 错误：");
        append_chars(&mut out, detail.as_slice());
        string_from(out.as_slice())
    }
}

/// An error line made concise (see [`concise_error`]).
pub fn concise_error_line(text: &str) -> (r: String)
    ensures
        r@ == concise_error(text@),
{
    let t = chars_of(text);
    if has(t.as_slice(), "not enough memory") {
        return String::from_str("运行失败：Lua 内存不足");
    }
    if has(t.as_slice(), "SCRIPT_DONE ERR") {
        return String::from_str("运行失败：Lua 脚本执行出错");
    }
    if has(t.as_slice(), "BAUD_") || has(t.as_slice(), "波特率") || has(t.as_slice(), "恢复 115200") {
        return String::from_str("运行失败：串口高速切换失败");
    }
    if has(t.as_slice(), "LittleFS") || has(t.as_slice(), "name/fs") {
        return String::from_str("运行失败：Flash 文件系统未就绪");
    }
    if t.len() <= ERROR_LINE_LIMIT {
        return string_from(t.as_slice());
    }
    let mut short = sub_chars(t.as_slice(), 0, ERROR_LINE_LIMIT);
    short.push('…');
    proof {
        assert(short@ =~= text@.take(ERROR_LINE_LIMIT as int).push('…'));
    }
    string_from(short.as_slice())
}

/// What the console shows of a line (see [`console_text`]); `noise` is
/// whether the trimmed line is serial transport noise.
pub fn console_display_text(kind: LogKind, line: &str, full_output: bool, noise: bool) -> (r: Option<String>)
    ensures
        match r {
            Some(s) => console_text(kind, line@, full_output, noise) == Some(s@),
            None => console_text(kind, line@, full_output, noise) is None,
        },
{
    let v = chars_of(line);
    let t = trimmed(v.as_slice());
    if t.len() == 0 {
        return None;
    }
    if full_output {
        return Some(string_from(t.as_slice()));
    }
    match kind {
        LogKind::Tx => None,
        LogKind::Diag => None,
        LogKind::Sys => {
            if begins(t.as_slice(), "模块化运行已启动") {
                Some(String::from_str("运行中"))
            } else if begins(t.as_slice(), "模块化运行成功") {
                Some(String::from_str("运行完成"))
            } else {
                None
            }
        },
        LogKind::Rx => {
            if noise {
                None
            } else {
                let s = string_from(t.as_slice());
                Some(concise_runtime_line(s.as_str()))
            }
        },
        LogKind::Error => {
            let s = string_from(t.as_slice());
            Some(concise_error_line(s.as_str()))
        },
    }
}

/// The second whitespace-separated word of `t` (`split_whitespace().nth(1)`).
pub open spec fn second_word(t: Seq<char>) -> Option<Seq<char>> {
    let a = trim_start(t);
    let b = trim_start(a.skip(word_len(a) as int));
    if word_len(b) == 0 {
        None
    } else {
        Some(b.take(word_len(b) as int))
    }
}

/// The status a protocol message stands for, if any; `t` is the trimmed
/// message as the transport layer normalises it.
pub open spec fn protocol_status(t: Seq<char>) -> Option<Seq<char>> {
    if starts_with(t, "HEX_OK"@) {
        Some("上传中…"@)
    } else if starts_with(t, "SCRIPT_OK"@) {
        match second_word(t) {
            None => Some("上传完成 · 运行中"@),
            Some(size) => Some("上传完成 · "@ + size + " B · 运行中"@),
        }
    } else if starts_with(t, "SCRIPT_BEGIN"@) {
        Some("开始上传…"@)
    } else if t == "SCRIPT_DONE OK"@ || has_sub(t, "LED_BLINK_DONE"@) {
        Some("完成"@)
    } else if t == "SCRIPT_DONE ERR"@ {
        Some("脚本执行失败"@)
    } else if t == "SCRIPT_DONE PENDING"@ {
        Some("模块恢复未完成"@)
    } else if t == "STOP"@ || starts_with(t, "stopped"@) {
        Some("已停止"@)
    } else {
        None
    }
}

fn is_word(v: &[char], w: &str) -> (b: bool)
    ensures
        b == (v@ == w@),
{
    let x = chars_of(w);
    crate::fontpack::chars_eq(v, x.as_slice())
}

/// The status-bar text a protocol message stands for (see
/// [`protocol_status`]); `normalized` is the message as the transport
/// layer normalises its trimmed form.
pub fn protocol_status_update(normalized: &str) -> (r: Option<String>)
    ensures
        match r {
            Some(s) => protocol_status(normalized@) == Some(s@),
            None => protocol_status(normalized@) is None,
        },
{
    let t = chars_of(normalized);
    let ts = t.as_slice();
    if begins(ts, "HEX_OK") {
        return Some(String::from_str("上传中…"));
    }
    if begins(ts, "SCRIPT_OK") {
        let n = t.len();
        let a = skip_ws(ts, 0, n);
        let e1 = skip_word(ts, a, n);
        let b = skip_ws(ts, e1, n);
        let e2 = skip_word(ts, b, n);
        proof {
            let ta = trim_start(t@);
            assert(t@.subrange(0, n as int) =~= t@);
            assert(ta =~= t@.subrange(a as int, n as int));
            assert(ta.skip(word_len(ta) as int) =~= t@.subrange(e1 as int, n as int));
            let tb = trim_start(ta.skip(word_len(ta) as int));
            assert(tb =~= t@.subrange(b as int, n as int));
            assert(tb.take(word_len(tb) as int) =~= t@.subrange(b as int, e2 as int));
        }
        if e2 == b {
            return Some(String::from_str("上传完成 · 运行中"));
        }
        let mut out = chars_of("上传完成 · ");
        let size = sub_chars(ts, b, e2);
        append_chars(&mut out, size.as_slice());
        append_str(&mut out, " B · 运行中");
        return Some(string_from(out.as_slice()));
    }
    if begins(ts, "SCRIPT_BEGIN") {
        return Some(String::from_str("开始上传…"));
    }
    if is_word(ts, "SCRIPT_DONE OK") || has(ts, "LED_BLINK_DONE") {
        return Some(String::from_str("完成"));
    }
    if is_word(ts, "SCRIPT_DONE ERR") {
        return Some(String::from_str("脚本执行失败"));
    }
    if is_word(ts, "SCRIPT_DONE PENDING") {
        return Some(String::from_str("模块恢复未完成"));
    }
    if is_word(ts, "STOP") || begins(ts, "stopped") {
        return Some(String::from_str("已停止"));
    }
    None
}

/// What the console knows of the script on the device: the status-bar
/// text and whether the script runs.
pub struct RunState {
    pub status: String,
    pub script_running: bool,
}

/// A device line that ends the running script.
pub open spec fn ends_run(t: Seq<char>) -> bool {
    has_sub(t, "SCRIPT_DONE"@) || has_sub(t, "LED_BLINK_DONE"@) || has_sub(t, "stopped"@)
}

/// A device line that answers a stop the user asked for.
pub open spec fn stops_run(t: Seq<char>, stop_requested: bool) -> bool {
    stop_requested && (ends_run(t) || has_sub(t, "STOP"@) || has_sub(t, "LUA stopped"@))
}

/// Status and running flag after device line `t`: `已停止` and not running
/// when it answers the user's stop; otherwise the status it stands for
/// (see [`protocol_status`]), running again after `SCRIPT_OK` unless an
/// upload is busy, and not running once the run ends, whose `运行中…`
/// status becomes `完成`.
pub open spec fn run_after(status: Seq<char>, running: bool, t: Seq<char>, stop_requested: bool, busy: bool) -> (Seq<char>, bool) {
    if stops_run(t, stop_requested) {
        ("已停止"@, false)
    } else {
        let s1 = match protocol_status(t) {
            Some(s) => s,
            None => status,
        };
        let r1 = if ends_run(t) {
            false
        } else if protocol_status(t) is Some && has_sub(t, "SCRIPT_OK"@) && !busy {
            true
        } else {
            running
        };
        (if ends_run(t) && starts_with(s1, "运行中"@) { "完成"@ } else { s1 }, r1)
    }
}

/// Takes device line `part` into the run state (see [`run_after`]). The
/// result tells whether the run is over, so that the serial speed is to
/// be restored; then the script no longer runs.
pub fn device_line(state: &mut RunState, part: &str, stop_requested: bool, busy: bool) -> (over: bool)
    ensures
        (final(state).status@, final(state).script_running) == run_after(
            old(state).status@,
            old(state).script_running,
            part@,
            stop_requested,
            busy,
        ),
        over == (ends_run(part@) || stops_run(part@, stop_requested)),
        over ==> !final(state).script_running,
{
    let t = chars_of(part);
    let ts = t.as_slice();
    let terminal = has(ts, "SCRIPT_DONE") || has(ts, "LED_BLINK_DONE") || has(ts, "stopped");
    let by_user = stop_requested && (terminal || has(ts, "STOP") || has(ts, "LUA stopped"));
    if by_user {
        state.script_running = false;
        state.status = String::from_str("已停止");
    } else {
        match protocol_status_update(part) {
            Some(st) => {
                state.status = st;
                if terminal {
                    state.script_running = false;
                }
                if has(ts, "SCRIPT_OK") && !busy {
                    state.script_running = true;
                }
            },
            None => {},
        }
        if terminal {
            state.script_running = false;
            let cur = chars_of(state.status.as_str());
            if begins(cur.as_slice(), "运行中") {
                state.status = String::from_str("完成");
            }
        }
    }
    terminal || by_user
}

/// Most log lines the console keeps.
pub const LOG_LIMIT: usize = 600;

/// Drops the oldest log lines beyond [`LOG_LIMIT`].
pub fn keep_recent<T>(logs: &mut Vec<T>)
    ensures
        final(logs)@ == if old(logs).len() > LOG_LIMIT {
            old(logs)@.skip(old(logs).len() - LOG_LIMIT)
        } else {
            old(logs)@
        },
{
    if logs.len() > LOG_LIMIT {
        let drain = logs.len() - LOG_LIMIT;
        let tail = logs.split_off(drain);
        *logs = tail;
        proof {
            assert(logs@ =~= old(logs)@.skip(drain as int));
        }
    }
}

} // verus!
