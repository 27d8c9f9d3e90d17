//! Lua source preparation before compiling, and the checks around the
//! compiler: removing invisible and typographic characters, adding the
//! timer/event dispatcher when a script uses it, recognising bytecode,
//! rewording compiler errors and validating device file names.

use vstd::prelude::*;
use crate::text::{
    append_chars, append_str, chars_of, contains_chars, dec, dec_usize, ends_with, ends_with_chars,
    find_char, has_sub, lemma_find_char, parse_usize, push_decimal, string_from, sub_chars, trim,
    trim_bounds, utf8_len, lemma_ascii_utf8_len, all_ascii, starts_with, starts_with_chars,
    is_ws, ws_prefix, ws_suffix, trim_start, lemma_ws_prefix_bound, lemma_ws_suffix_bound,
};

verus! {

/// Whether `data` starts with the Lua bytecode signature `"\x1bLua"`.
pub fn is_lua_bytecode(data: &[u8]) -> (b: bool)
    ensures
        b == (data@.len() >= 4 && data@[0] == 0x1b && data@[1] == 0x4c && data@[2] == 0x75
            && data@[3] == 0x61),
{
    data.len() >= 4 && data[0] == 0x1b && data[1] == 0x4c && data[2] == 0x75 && data[3] == 0x61
}

/// Invisible formatting characters that editors and chat tools insert: BOM,
/// zero-width space, direction marks and embeddings, word joiner, isolates.
pub open spec fn is_invisible(c: char) -> bool {
    let u = c as u32;
    u == 0xFEFF || u == 0x200B || u == 0x200E || u == 0x200F || (0x202A <= u <= 0x202E) || u == 0x2060
        || (0x2066 <= u <= 0x2069)
}

/// No-break space and ideographic space, which become ordinary spaces.
pub open spec fn is_wide_space(c: char) -> bool {
    c as u32 == 0xA0 || c as u32 == 0x3000
}

/// `s` without invisible characters and with wide spaces as `' '`.
pub open spec fn sanitize(s: Seq<char>) -> Seq<char>
    decreases s.len(),
{
    if s.len() == 0 {
        Seq::empty()
    } else if is_invisible(s.last()) {
        sanitize(s.drop_last())
    } else if is_wide_space(s.last()) {
        sanitize(s.drop_last()).push(' ')
    } else {
        sanitize(s.drop_last()).push(s.last())
    }
}

/// Removes invisible characters and turns wide spaces into `' '`.
pub fn sanitize_source_text(s: &str) -> (r: String)
    ensures
        r@ == sanitize(s@),
{
    let v = chars_of(s);
    let mut out: Vec<char> = Vec::new();
    let mut i: usize = 0;
    while i < v.len()
        invariant
            i <= v@.len(),
            out@ == sanitize(v@.take(i as int)),
        decreases v.len() - i,
    {
        let c = v[i];
        let u = c as u32;
        proof {
            assert(v@.take(i + 1).drop_last() =~= v@.take(i as int));
        }
        if u == 0xFEFF || u == 0x200B || u == 0x200E || u == 0x200F || (0x202A <= u && u <= 0x202E)
            || u == 0x2060 || (0x2066 <= u && u <= 0x2069) {
        } else if u == 0xA0 || u == 0x3000 {
            out.push(' ');
        } else {
            out.push(c);
        }
        i = i + 1;
    }
    proof {
        assert(v@.take(v@.len() as int) =~= v@);
    }
    string_from(out.as_slice())
}

/// Typographic quotes as ASCII quotes.
pub open spec fn plain_quote(c: char) -> char {
    let u = c as u32;
    if u == 0x201C || u == 0x201D {
        '"'
    } else if u == 0x2018 || u == 0x2019 {
        '\''
    } else {
        c
    }
}

/// `"\r\n"` replaced by `"\n"`, scanning left to right.
pub open spec fn crlf_to_lf(s: Seq<char>) -> Seq<char>
    decreases s.len(),
{
    if s.len() == 0 {
        Seq::empty()
    } else if s.len() >= 2 && s[0] == '\r' && s[1] == '\n' {
        seq!['\n'] + crlf_to_lf(s.skip(2))
    } else {
        seq![s[0]] + crlf_to_lf(s.skip(1))
    }
}

/// `'\r'` replaced by `'\n'`.
pub open spec fn cr_to_lf(c: char) -> char {
    if c == '\r' {
        '\n'
    } else {
        c
    }
}

/// The normalised source: sanitised, typographic quotes made ASCII, and
/// every line ending (`\r\n` or `\r`) made `\n`.
pub open spec fn normalize(s: Seq<char>) -> Seq<char> {
    crlf_to_lf(sanitize(s).map_values(|c: char| plain_quote(c))).map_values(|c: char| cr_to_lf(c))
}

/// A character that normalising leaves alone: not invisible, no wide
/// space, no typographic quote and no carriage return.
pub open spec fn plain_char(c: char) -> bool {
    !is_invisible(c) && !is_wide_space(c) && plain_quote(c) == c && c != '\r'
}

proof fn lemma_sanitize_chars(s: Seq<char>)
    ensures
        forall|i: int|
            0 <= i < sanitize(s).len() ==> !is_invisible(#[trigger] sanitize(s)[i]) && !is_wide_space(
                sanitize(s)[i],
            ),
        (forall|i: int| 0 <= i < s.len() ==> !is_invisible(#[trigger] s[i]) && !is_wide_space(s[i]))
            ==> sanitize(s) == s,
    decreases s.len(),
{
    if s.len() > 0 {
        lemma_sanitize_chars(s.drop_last());
        let p = sanitize(s.drop_last());
        assert forall|i: int| 0 <= i < sanitize(s).len() implies !is_invisible(#[trigger] sanitize(s)[i])
            && !is_wide_space(sanitize(s)[i]) by {
            if i < p.len() {
                assert(sanitize(s)[i] == p[i]);
            }
        }
        if forall|i: int| 0 <= i < s.len() ==> !is_invisible(#[trigger] s[i]) && !is_wide_space(s[i]) {
            assert(!is_invisible(s[s.len() - 1]) && !is_wide_space(s[s.len() - 1]));
            assert forall|i: int| 0 <= i < s.drop_last().len() implies !is_invisible(#[trigger] s.drop_last()[i])
                && !is_wide_space(s.drop_last()[i]) by {
                assert(s.drop_last()[i] == s[i]);
            }
            assert(s.drop_last().push(s.last()) =~= s);
        }
    }
}

proof fn lemma_crlf_chars(s: Seq<char>)
    ensures
        forall|i: int|
            0 <= i < crlf_to_lf(s).len() ==> #[trigger] crlf_to_lf(s)[i] == '\n' || s.contains(crlf_to_lf(s)[i]),
        (forall|i: int| 0 <= i < s.len() ==> #[trigger] s[i] != '\r') ==> crlf_to_lf(s) == s,
    decreases s.len(),
{
    if s.len() > 0 {
        let n: int = if s.len() >= 2 && s[0] == '\r' && s[1] == '\n' { 2 } else { 1 };
        lemma_crlf_chars(s.skip(n));
        let r = crlf_to_lf(s);
        let t = crlf_to_lf(s.skip(n));
        assert forall|i: int| 0 <= i < r.len() implies #[trigger] r[i] == '\n' || s.contains(r[i]) by {
            if i == 0 {
                if n == 1 {
                    assert(s[0] == r[0]);
                }
            } else {
                assert(r[i] == t[i - 1]);
                if t[i - 1] != '\n' {
                    let k = choose|k: int| 0 <= k < s.skip(n).len() && s.skip(n)[k] == t[i - 1];
                    assert(s[k + n] == r[i]);
                }
            }
        }
        if forall|i: int| 0 <= i < s.len() ==> #[trigger] s[i] != '\r' {
            assert(s[0] != '\r');
            assert forall|i: int| 0 <= i < s.skip(1).len() implies #[trigger] s.skip(1)[i] != '\r' by {
                assert(s.skip(1)[i] == s[i + 1]);
            }
            assert(seq![s[0]] + s.skip(1) =~= s);
        }
    }
}

/// Normalised source holds no invisible character, no wide space, no
/// typographic quote and no carriage return: every character is plain.
pub proof fn law_normalized_is_plain(s: Seq<char>)
    ensures
        forall|i: int| 0 <= i < normalize(s).len() ==> plain_char(#[trigger] normalize(s)[i]),
{
    lemma_sanitize_chars(s);
    let q = sanitize(s).map_values(|c: char| plain_quote(c));
    assert forall|i: int| 0 <= i < q.len() implies !is_invisible(#[trigger] q[i]) && !is_wide_space(q[i])
        && plain_quote(q[i]) == q[i] by {
        assert(q[i] == plain_quote(sanitize(s)[i]));
    }
    lemma_crlf_chars(q);
    let l = crlf_to_lf(q);
    assert forall|i: int| 0 <= i < normalize(s).len() implies plain_char(#[trigger] normalize(s)[i]) by {
        assert(normalize(s)[i] == cr_to_lf(l[i]));
        if l[i] != '\n' {
            let k = choose|k: int| 0 <= k < q.len() && q[k] == l[i];
            assert(!is_invisible(q[k]));
        }
    }
}

/// Text made only of plain characters is left as it is, so normalising
/// twice gives what normalising once gives.
pub proof fn law_normalize_idempotent(s: Seq<char>)
    ensures
        (forall|i: int| 0 <= i < s.len() ==> plain_char(#[trigger] s[i])) ==> normalize(s) == s,
        normalize(normalize(s)) == normalize(s),
{
    assert forall|t: Seq<char>| (forall|i: int| 0 <= i < t.len() ==> plain_char(#[trigger] t[i])) implies normalize(t)
        == t by {
        lemma_sanitize_chars(t);
        let q = sanitize(t).map_values(|c: char| plain_quote(c));
        assert(q =~= t);
        lemma_crlf_chars(q);
        assert(crlf_to_lf(q).map_values(|c: char| cr_to_lf(c)) =~= t);
    }
    law_normalized_is_plain(s);
}

/// Normalises pasted Lua source text; see [`normalize`].
pub fn normalize_source(s: &str) -> (r: String)
    ensures
        r@ == normalize(s@),
{
    let clean = sanitize_source_text(s);
    let v = chars_of(clean.as_str());
    let mut q: Vec<char> = Vec::new();
    let mut i: usize = 0;
    while i < v.len()
        invariant
            i <= v@.len(),
            q@ == v@.take(i as int).map_values(|c: char| plain_quote(c)),
        decreases v.len() - i,
    {
        let c = v[i];
        let u = c as u32;
        let m = if u == 0x201C || u == 0x201D {
            '"'
        } else if u == 0x2018 || u == 0x2019 {
            '\''
        } else {
            c
        };
        q.push(m);
        proof {
            assert(q@ =~= v@.take(i + 1).map_values(|c: char| plain_quote(c)));
        }
        i = i + 1;
    }
    proof {
        assert(v@.take(v@.len() as int) =~= v@);
    }
    let mut l: Vec<char> = Vec::new();
    let mut j: usize = 0;
    proof {
        assert(q@.skip(0) =~= q@);
        assert(l@ + crlf_to_lf(q@.skip(0)) =~= crlf_to_lf(q@));
    }
    while j < q.len()
        invariant
            j <= q@.len(),
            l@ + crlf_to_lf(q@.skip(j as int)) == crlf_to_lf(q@),
        decreases q.len() - j,
    {
        let ghost rest = q@.skip(j as int);
        if j + 1 < q.len() && q[j] == '\r' && q[j + 1] == '\n' {
            proof {
                assert(rest.skip(2) =~= q@.skip(j + 2));
                assert(l@.push('\n') + crlf_to_lf(q@.skip(j + 2)) =~= l@ + crlf_to_lf(rest));
            }
            l.push('\n');
            j = j + 2;
        } else {
            proof {
                assert(rest.skip(1) =~= q@.skip(j + 1));
                assert(l@.push(q@[j as int]) + crlf_to_lf(q@.skip(j + 1)) =~= l@ + crlf_to_lf(rest));
            }
            l.push(q[j]);
            j = j + 1;
        }
    }
    proof {
        assert(q@.skip(j as int) =~= Seq::<char>::empty());
        assert(l@ + Seq::<char>::empty() =~= l@);
    }
    let mut out: Vec<char> = Vec::new();
    let mut k: usize = 0;
    while k < l.len()
        invariant
            k <= l@.len(),
            out@ == l@.take(k as int).map_values(|c: char| cr_to_lf(c)),
        decreases l.len() - k,
    {
        out.push(if l[k] == '\r' { '\n' } else { l[k] });
        proof {
            assert(out@ =~= l@.take(k + 1).map_values(|c: char| cr_to_lf(c)));
        }
        k = k + 1;
    }
    proof {
        assert(l@.take(l@.len() as int) =~= l@);
    }
    string_from(out.as_slice())
}

/// Lua prelude that implements `tmr.every` callbacks and the `event` loop on
/// top of the firmware's timer functions.
pub const TIMER_EVENT_PRELUDE: &'static str = r#"-- IDE-injected SysTick callback dispatcher.
do
  local start, take, native_stop = tmr.start, tmr.take, tmr.stop
  local callbacks, active = {}, {}
  local event_stop = false
  function tmr.every(ms, fn)
    local id
    for i = 0, 3 do if not active[i] then id = i break end end
    if id == nil then error("tmr:full") end
    if fn ~= nil and type(fn) ~= "function" then error("tmr:callback") end
    start(id, ms)
    active[id], callbacks[id] = true, fn
    return id
  end
  function tmr.stop(id)
    callbacks[id], active[id] = nil, nil
    return native_stop(id)
  end
  event = event or {}
  function event.stop() event_stop = true end
  function event.poll()
    local dispatched = 0
    for i = 0, 3 do
      local fn = callbacks[i]
      if fn then
        local hits = take(i)
        if hits > 0 then fn(i, hits); dispatched = dispatched + 1 end
      end
    end
    return dispatched
  end
  function event.run()
    event_stop = false
    while not event_stop do
      local dispatched = event.poll()
      if next(callbacks) == nil then break end
      if dispatched == 0 then yield() end
    end
  end
end
"#;

/// Whether a script uses the timer callbacks or the event loop.
pub open spec fn uses_event_runtime(s: Seq<char>) -> bool {
    has_sub(s, "tmr.every"@) || has_sub(s, "event.run"@) || has_sub(s, "event.poll"@) || has_sub(
        s,
        "event.stop"@,
    )
}

fn contains_str(v: &[char], p: &str) -> (b: bool)
    ensures
        b == has_sub(v@, p@),
{
    let pv = chars_of(p);
    contains_chars(v, pv.as_slice())
}

/// The source with the dispatcher prelude in front when it uses timer
/// callbacks or the event loop; otherwise unchanged.
pub fn add_timer_event_runtime(source: &str) -> (r: String)
    ensures
        r@ == (if uses_event_runtime(source@) { TIMER_EVENT_PRELUDE@ + source@ } else { source@ }),
{
    let v = chars_of(source);
    let uses = contains_str(v.as_slice(), "tmr.every") || contains_str(v.as_slice(), "event.run")
        || contains_str(v.as_slice(), "event.poll") || contains_str(v.as_slice(), "event.stop");
    if !uses {
        return string_from(v.as_slice());
    }
    let mut out: Vec<char> = Vec::new();
    append_str(&mut out, TIMER_EVENT_PRELUDE);
    append_chars(&mut out, v.as_slice());
    string_from(out.as_slice())
}

/// Why a source cannot be compiled or its output not used.
#[derive(Clone, Copy, Debug, PartialEq, Eq, Structural)]
pub enum CompileError {
    /// Nothing but whitespace after normalisation.
    EmptySource,
    /// The compiler output does not start with the bytecode signature.
    NotBytecode,
}

/// The message a compile refusal is reported with.
pub open spec fn compile_message(e: CompileError) -> Seq<char> {
    match e {
        CompileError::EmptySource => "源码为空"@,
        CompileError::NotBytecode => "编译结果不是有效 Lua 字节码"@,
    }
}

/// The message of a compile refusal.
pub fn compile_error_message(e: CompileError) -> (r: String)
    ensures
        r@ == compile_message(e),
{
    match e {
        CompileError::EmptySource => String::from_str("源码为空"),
        CompileError::NotBytecode => String::from_str("编译结果不是有效 Lua 字节码"),
    }
}

/// The text handed to the compiler: the normalised source, with the
/// dispatcher prelude when needed.
pub open spec fn compiler_input(source: Seq<char>) -> Seq<char> {
    if uses_event_runtime(normalize(source)) {
        TIMER_EVENT_PRELUDE@ + normalize(source)
    } else {
        normalize(source)
    }
}

/// Prepares a source for the compiler; refused when it is blank.
pub fn prepare_source(source: &str) -> (r: Result<String, CompileError>)
    ensures
        match r {
            Ok(t) => t@ == compiler_input(source@) && trim(compiler_input(source@)).len() > 0,
            Err(e) => e == CompileError::EmptySource && trim(compiler_input(source@)).len() == 0,
        },
{
    let n = normalize_source(source);
    let full = add_timer_event_runtime(n.as_str());
    let v = chars_of(full.as_str());
    let (a, b) = trim_bounds(v.as_slice(), 0, v.len());
    proof {
        assert(v@.subrange(0, v@.len() as int) =~= v@);
    }
    if a == b {
        Err(CompileError::EmptySource)
    } else {
        Ok(full)
    }
}

/// Accepts compiler output only when it is Lua bytecode.
pub fn accept_bytecode(bytes: Vec<u8>) -> (r: Result<Vec<u8>, CompileError>)
    ensures
        match r {
            Ok(b) => b@ == bytes@ && bytes@.len() >= 4 && bytes@[0] == 0x1b && bytes@[1] == 0x4c
                && bytes@[2] == 0x75 && bytes@[3] == 0x61,
            Err(e) => e == CompileError::NotBytecode && !(bytes@.len() >= 4 && bytes@[0] == 0x1b
                && bytes@[1] == 0x4c && bytes@[2] == 0x75 && bytes@[3] == 0x61),
        },
{
    if is_lua_bytecode(bytes.as_slice()) {
        Ok(bytes)
    } else {
        Err(CompileError::NotBytecode)
    }
}

/// A compiler message split into its line number and detail: messages of
/// the form `editor:<line>:<detail>` (after trimming) give the line and the
/// trimmed detail; anything else is all detail.
pub open spec fn split_compile_error(raw: Seq<char>) -> (Option<usize>, Seq<char>) {
    let t = trim(raw);
    let p = "editor:"@;
    if starts_with(t, p) {
        let rest = t.skip(p.len() as int);
        let k = find_char(rest, ':') as int;
        if k < rest.len() {
            match parse_usize(rest.take(k)) {
                Some(n) => (Some(n), trim(rest.skip(k + 1))),
                None => (None, t),
            }
        } else {
            (None, t)
        }
    } else {
        (None, t)
    }
}

/// The compiler detail reworded for the common mistakes.
pub open spec fn friendly_detail(d: Seq<char>) -> Seq<char> {
    if has_sub(d, "unexpected symbol near '<\\239>'"@) {
        "检测到 UTF-8 BOM 或不可见字符；请删除该字符后重试"@
    } else if has_sub(d, "'end' expected near '<eof>'"@) {
        "代码块未闭合：文件结束前缺少 end"@
    } else if has_sub(d, "unexpected symbol near '<eof>'"@) {
        "代码在文件末尾意外中断，请检查括号、引号或 end"@
    } else if has_sub(d, "unfinished string"@) {
        "字符串未闭合："@ + d
    } else if has_sub(d, "unexpected symbol near"@) {
        "存在意外符号："@ + d
    } else {
        d
    }
}

/// The reworded compiler message, with the line number in front.
pub open spec fn friendly_error(raw: Seq<char>) -> Seq<char> {
    let (line, detail) = split_compile_error(raw);
    match line {
        Some(n) => "第 "@ + dec(n as nat) + " 行："@ + friendly_detail(detail),
        None => friendly_detail(detail),
    }
}

fn friendly_detail_exec(d: &[char]) -> (r: Vec<char>)
    ensures
        r@ == friendly_detail(d@),
{
    let mut out: Vec<char> = Vec::new();
    if contains_str(d, "unexpected symbol near '<\\239>'") {
        append_str(&mut out, "检测到 UTF-8 BOM 或不可见字符；请删除该字符后重试");
    } else if contains_str(d, "'end' expected near '<eof>'") {
        append_str(&mut out, "代码块未闭合：文件结束前缺少 end");
    } else if contains_str(d, "unexpected symbol near '<eof>'") {
        append_str(&mut out, "代码在文件末尾意外中断，请检查括号、引号或 end");
    } else if contains_str(d, "unfinished string") {
        append_str(&mut out, "字符串未闭合：");
        append_chars(&mut out, d);
    } else if contains_str(d, "unexpected symbol near") {
        append_str(&mut out, "存在意外符号：");
        append_chars(&mut out, d);
    } else {
        append_chars(&mut out, d);
    }
    proof {
        assert(Seq::<char>::empty() + d@ =~= d@);
    }
    out
}

/// Rewords a Lua compiler message (`editor:<line>: <detail>`) for the user:
/// `第 <line> 行：<detail>` with the common mistakes explained.
pub fn friendly_compile_error(raw: &str) -> (r: String)
    ensures
        r@ == friendly_error(raw@),
{
    let v = chars_of(raw);
    let (a, b) = trim_bounds(v.as_slice(), 0, v.len());
    proof {
        assert(v@.subrange(0, v@.len() as int) =~= v@);
    }
    let t = sub_chars(v.as_slice(), a, b);
    let p = chars_of("editor:");
    let mut line: Option<usize> = None;
    let mut detail_lo: usize = 0;
    let mut detail_hi: usize = t.len();
    if starts_with_chars(t.as_slice(), p.as_slice()) {
        let plen = p.len();
        let ghost rest = t@.skip(plen as int);
        let mut k = plen;
        while k < t.len() && t[k] != ':'
            invariant
                plen <= k <= t@.len(),
                rest == t@.skip(plen as int),
                find_char(rest, ':') == (k - plen) + find_char(t@.skip(k as int), ':'),
            decreases t.len() - k,
        {
            assert(t@.skip(k as int).drop_first() =~= t@.skip(k + 1));
            k = k + 1;
        }
        proof {
            lemma_find_char(rest, ':');
            if k < t@.len() {
                assert(t@.skip(k as int)[0] == ':');
            }
        }
        if k < t.len() {
            proof {
                assert(rest.take((k - plen) as int) =~= t@.subrange(plen as int, k as int));
            }
            match dec_usize(t.as_slice(), plen, k) {
                Some(n) => {
                    let (c, d) = trim_bounds(t.as_slice(), k + 1, t.len());
                    proof {
                        assert(rest.skip((k - plen) + 1) =~= t@.subrange(k + 1, t@.len() as int));
                    }
                    line = Some(n);
                    detail_lo = c;
                    detail_hi = d;
                },
                None => {},
            }
        }
    }
    proof {
        if line is None {
            assert(t@.subrange(detail_lo as int, detail_hi as int) =~= t@);
        }
    }
    let detail = sub_chars(t.as_slice(), detail_lo, detail_hi);
    let fd = friendly_detail_exec(detail.as_slice());
    match line {
        Some(n) => {
            let mut out: Vec<char> = Vec::new();
            append_str(&mut out, "第 ");
            push_decimal(&mut out, n as u64);
            append_str(&mut out, " 行：");
            append_chars(&mut out, fd.as_slice());
            string_from(out.as_slice())
        },
        None => string_from(fd.as_slice()),
    }
}

/// Characters allowed in a device file name.
pub open spec fn name_char_ok(c: char) -> bool {
    ('a' <= c <= 'z') || ('A' <= c <= 'Z') || ('0' <= c <= '9') || c == '_' || c == '.' || c == '-'
}

/// A valid compiled-file name on the device: after trimming, 1 to 28 bytes
/// of ASCII letters, digits, `_`, `.` or `-`, ending in `.luac`.
pub open spec fn luac_name_ok(name: Seq<char>) -> bool {
    let t = trim(name);
    1 <= utf8_len(t) <= 28 && ends_with(t, ".luac"@) && forall|i: int| 0 <= i < t.len() ==> name_char_ok(#[trigger] t[i])
}

fn luac_chars_ok(t: &[char]) -> (b: bool)
    ensures
        b == luac_name_ok(t@),
{
    let (a, z) = trim_bounds(t, 0, t.len());
    proof {
        assert(t@.subrange(0, t@.len() as int) =~= t@);
    }
    let u = sub_chars(t, a, z);
    let mut all = true;
    let mut i: usize = 0;
    while i < u.len()
        invariant
            i <= u@.len(),
            all == (forall|j: int| 0 <= j < i ==> name_char_ok(#[trigger] u@[j])),
        decreases u.len() - i,
    {
        let c = u[i];
        let ok = ('a' <= c && c <= 'z') || ('A' <= c && c <= 'Z') || ('0' <= c && c <= '9') || c == '_'
            || c == '.' || c == '-';
        proof {
            if !ok {
                assert(!name_char_ok(u@[i as int]));
            }
        }
        all = all && ok;
        i = i + 1;
    }
    if !all {
        return false;
    }
    proof {
        assert(all_ascii(u@)) by {
            assert forall|j: int| 0 <= j < u@.len() implies (#[trigger] u@[j] as u32) < 0x80 by {
                assert(name_char_ok(u@[j]));
            }
        }
        lemma_ascii_utf8_len(u@);
    }
    let suffix = chars_of(".luac");
    1 <= u.len() && u.len() <= 28 && ends_with_chars(u.as_slice(), suffix.as_slice())
}

/// Whether `name` is a valid compiled-file name on the device.
pub fn valid_luac_name(name: &str) -> (b: bool)
    ensures
        b == luac_name_ok(name@),
{
    let v = chars_of(name);
    luac_chars_ok(v.as_slice())
}

/// The file name a user entry stands for: trimmed, `main.luac` when empty,
/// with `.luac` appended when missing.
pub open spec fn luac_name_for(raw: Seq<char>) -> Seq<char> {
    let t = trim(raw);
    let n = if t.len() == 0 { "main.luac"@ } else { t };
    if ends_with(n, ".luac"@) {
        n
    } else {
        n + ".luac"@
    }
}

proof fn lemma_trim_bare(s: Seq<char>)
    requires
        s.len() > 0,
        !is_ws(s[0]),
        !is_ws(s.last()),
    ensures
        trim(s) == s,
{
    assert(ws_prefix(s) == 0);
    assert(s.skip(0) =~= s);
    assert(ws_suffix(s) == 0);
    assert(s.take(s.len() as int) =~= s);
}

/// Turning an entry into a device file name twice gives what turning it
/// once gives: a name that `ensure_luac_name` returns comes back unchanged
/// (and so is accepted again).
pub proof fn law_luac_name_idempotent(raw: Seq<char>)
    ensures
        luac_name_for(luac_name_for(raw)) == luac_name_for(raw),
{
    let t = trim(raw);
    let n = luac_name_for(raw);
    let suffix = ".luac"@;
    reveal_strlit(".luac");
    reveal_strlit("main.luac");
    if t.len() == 0 {
        assert("main.luac"@.skip(4) =~= suffix);
        assert(n == "main.luac"@);
        assert(!is_ws(n[0]) && !is_ws(n.last()));
    } else {
        lemma_ws_prefix_bound(raw);
        lemma_ws_suffix_bound(trim_start(raw));
        assert(!is_ws(t[0]));
        assert(!is_ws(t.last()));
        if !ends_with(t, suffix) {
            assert(n == t + suffix);
            assert(n[0] == t[0]);
            assert(n.last() == 'c');
            assert(n.skip(n.len() - suffix.len()) =~= suffix);
        }
    }
    lemma_trim_bare(n);
}

/// A user entry that does not make a valid compiled-file name.
#[derive(Clone, Copy, Debug, PartialEq, Eq)]
pub struct InvalidLuacName;

/// Turns a user entry into a device file name; refused unless the result is
/// a valid compiled-file name.
pub fn ensure_luac_name(raw: &str) -> (r: Result<String, InvalidLuacName>)
    ensures
        match r {
            Ok(n) => n@ == luac_name_for(raw@) && luac_name_ok(luac_name_for(raw@)),
            Err(_) => !luac_name_ok(luac_name_for(raw@)),
        },
{
    let v = chars_of(raw);
    let (a, b) = trim_bounds(v.as_slice(), 0, v.len());
    proof {
        assert(v@.subrange(0, v@.len() as int) =~= v@);
    }
    let mut name = if a == b { chars_of("main.luac") } else { sub_chars(v.as_slice(), a, b) };
    let suffix = chars_of(".luac");
    if !ends_with_chars(name.as_slice(), suffix.as_slice()) {
        append_chars(&mut name, suffix.as_slice());
    }
    if !luac_chars_ok(name.as_slice()) {
        return Err(InvalidLuacName);
    }
    Ok(string_from(name.as_slice()))
}

/// The Lua compiler is linked into the IDE; its location is always the
/// in-process marker.
pub fn find_compiler() -> (r: Option<String>)
    ensures
        r matches Some(p) && p@ == "in-process"@,
{
    let v = chars_of("in-process");
    Some(string_from(v.as_slice()))
}

/// Output with the Lua bytecode signature `\x1bLua`.
pub open spec fn has_bytecode_signature(b: Seq<u8>) -> bool {
    b.len() >= 4 && b[0] == 0x1b && b[1] == 0x4c && b[2] == 0x75 && b[3] == 0x61
}

/// A compile result by its views.
pub open spec fn outcome_view(r: Result<Vec<u8>, String>) -> Result<Seq<u8>, Seq<char>> {
    match r {
        Ok(b) => Ok(b@),
        Err(m) => Err(m@),
    }
}

/// What compiling gives once the compiler has answered: its error text made
/// readable, its output when that carries the bytecode signature, else the
/// refusal for output that is not bytecode.
pub open spec fn compiled(compiler: Result<Vec<u8>, String>) -> Result<Seq<u8>, Seq<char>> {
    match compiler {
        Err(m) => Err(friendly_error(m@)),
        Ok(b) => if has_bytecode_signature(b@) {
            Ok(b@)
        } else {
            Err(compile_message(CompileError::NotBytecode))
        },
    }
}

/// What compiling gives once the compiler has answered for a prepared
/// source (see [`prepare_source`], which refuses a blank source before the
/// compiler is called): the compiler's error text made readable (see
/// [`friendly_error`]), or its output when it carries the bytecode
/// signature, else the refusal of [`compile_message`].
pub fn compile_outcome(compiler: Result<Vec<u8>, String>) -> (r: Result<Vec<u8>, String>)
    ensures
        outcome_view(r) == compiled(compiler),
        match compiler {
            Err(m) => r matches Err(x) && x@ == friendly_error(m@),
            Ok(b) => if has_bytecode_signature(b@) {
                r matches Ok(x) && x@ == b@
            } else {
                r matches Err(x) && x@ == compile_message(CompileError::NotBytecode)
            },
        },
{
    match compiler {
        Err(m) => Err(friendly_compile_error(m.as_str())),
        Ok(b) => match accept_bytecode(b) {
            Ok(x) => Ok(x),
            Err(e) => Err(compile_error_message(e)),
        },
    }
}

/// Compiles `source` with `compiler`, the Lua compiler, which gets the
/// prepared text (see [`compiler_input`]) and answers with bytecode or an
/// error text. A source that is blank once prepared is refused with
/// [`CompileError::EmptySource`]'s message, whatever the compiler would
/// answer; otherwise the result is [`compiled`] of the compiler's answer for
/// the prepared text, so it is `Ok` only with output that carries the
/// bytecode signature.
pub fn compile_with<F: FnOnce(&str) -> Result<Vec<u8>, String>>(source: &str, compiler: F) -> (r: Result<
    Vec<u8>,
    String,
>)
    requires
        forall|s: &str| compiler.requires((s,)),
    ensures
        trim(compiler_input(source@)).len() == 0 ==> outcome_view(r) == Err::<Seq<u8>, Seq<char>>(
            compile_message(CompileError::EmptySource),
        ),
        trim(compiler_input(source@)).len() > 0 ==> exists|s: &str, answer: Result<Vec<u8>, String>|
            s@ == compiler_input(source@) && #[trigger] compiler.ensures((s,), answer) && outcome_view(r) == compiled(
                answer,
            ),
        r is Ok ==> has_bytecode_signature(r->Ok_0@),
{
    match prepare_source(source) {
        Err(e) => Err(compile_error_message(e)),
        Ok(prepared) => {
            let text = prepared.as_str();
            let answer = compiler(text);
            proof {
                assert(compiler.ensures((text,), answer));
            }
            compile_outcome(answer)
        },
    }
}

} // verus!
