//! Target metadata: the chip's pins and peripherals, the board's exposed
//! pins, and the firmware Lua API, checked against each other; completion
//! and call checking for the editor.

use vstd::prelude::*;
use crate::text::{all_dec, append_chars, append_str, chars_of, dec, push_decimal, push_decimal_wide, dec_number, hex_val, ascii_lower, dec_usize, find_char, is_dec_digit, skip_word, trim_start, word_len, is_hex_digit, hex_digit, starts_with_chars, lower_char, starts_with, string_from, sub_chars, to_ascii_lowercase, trim, trim_bounds};
use crate::fontpack::{chars_eq, compare_chars, has_str, law_str_lt_order, sdec, str_lt, strs_view};
use crate::profile_names::names_unique;

verus! {

// ─── Lua literal recognition ────────────────────────────────────────────

/// Value of the digits of `d` in base `radix` (10 or 16).
pub open spec fn radix_number(d: Seq<char>, radix: nat) -> nat
    decreases d.len(),
{
    if d.len() == 0 {
        0
    } else {
        radix_number(d.drop_last(), radix) * radix + hex_val(d.last())
    }
}

/// A digit of base `radix` (10 or 16).
pub open spec fn radix_digit(c: char, radix: nat) -> bool {
    if radix == 16 {
        is_hex_digit(c)
    } else {
        is_dec_digit(c)
    }
}

/// `i64::from_str_radix(s, radix).is_ok()`: an optional sign, at least one
/// digit, and a value in the `i64` range.
pub open spec fn i64_radix_ok(s: Seq<char>, radix: nat) -> bool {
    &&& unsigned_part(s).len() > 0
    &&& all_radix(unsigned_part(s), radix)
    &&& radix_number(unsigned_part(s), radix) <= (if s.len() > 0 && s[0] == '-' {
        0x8000_0000_0000_0000nat
    } else {
        0x7FFF_FFFF_FFFF_FFFFnat
    })
}

/// `s` without a leading sign.
pub open spec fn unsigned_part(s: Seq<char>) -> Seq<char> {
    if s.len() > 0 && (s[0] == '+' || s[0] == '-') {
        s.drop_first()
    } else {
        s
    }
}

/// Every character of `d` is a digit of base `radix`.
pub open spec fn all_radix(d: Seq<char>, radix: nat) -> bool {
    forall|i: int| 0 <= i < d.len() ==> radix_digit(#[trigger] d[i], radix)
}

/// A Lua integer literal as the API checker reads it: decimal `i64`, or
/// `0x`/`0X` hexadecimal after an optional sign.
pub open spec fn is_int_lit(v: Seq<char>) -> bool {
    let u = if v.len() > 0 && (v[0] == '-' || v[0] == '+') { v.drop_first() } else { v };
    if u.len() >= 2 && u[0] == '0' && (u[1] == 'x' || u[1] == 'X') {
        u.len() > 2 && i64_radix_ok(u.skip(2), 16)
    } else {
        i64_radix_ok(v, 10)
    }
}

proof fn lemma_radix_grows(d: Seq<char>, i: int, radix: nat)
    requires
        0 <= i <= d.len(),
        radix == 10 || radix == 16,
    ensures
        radix_number(d.take(i), radix) <= radix_number(d, radix),
    decreases d.len() - i,
{
    if i < d.len() {
        lemma_radix_grows(d, i + 1, radix);
        assert(d.take(i + 1).drop_last() =~= d.take(i));
    } else {
        assert(d.take(i) =~= d);
    }
}

/// Whether `s[lo..hi]` passes `i64::from_str_radix(.., radix)`.
fn i64_radix_check(s: &[char], lo: usize, hi: usize, radix: u32) -> (r: bool)
    requires
        lo <= hi <= s@.len(),
        radix == 10 || radix == 16,
    ensures
        r == i64_radix_ok(s@.subrange(lo as int, hi as int), radix as nat),
{
    let ghost t = s@.subrange(lo as int, hi as int);
    let neg = lo < hi && s[lo] == '-';
    let start = if lo < hi && (s[lo] == '+' || s[lo] == '-') { lo + 1 } else { lo };
    let ghost d = s@.subrange(start as int, hi as int);
    proof {
        if lo < hi && (s@[lo as int] == '+' || s@[lo as int] == '-') {
            assert(t.drop_first() =~= d);
        } else {
            assert(t =~= d);
        }
    }
    if start == hi {
        return false;
    }
    let limit: u128 = if neg { 0x8000_0000_0000_0000 } else { 0x7FFF_FFFF_FFFF_FFFF };
    let mut acc: u128 = 0;
    let mut k = start;
    while k < hi
        invariant
            start <= k <= hi <= s@.len(),
            d == s@.subrange(start as int, hi as int),
            t == s@.subrange(lo as int, hi as int),
            d == unsigned_part(t),
            limit == (if t.len() > 0 && t[0] == '-' { 0x8000_0000_0000_0000nat } else { 0x7FFF_FFFF_FFFF_FFFFnat }),
            radix == 10 || radix == 16,
            acc <= limit,
            limit <= 0x8000_0000_0000_0000,
            acc == radix_number(d.take(k - start), radix as nat),
            forall|i: int| 0 <= i < k - start ==> radix_digit(#[trigger] d[i], radix as nat),
        decreases hi - k,
    {
        let ghost i = (k - start) as int;
        proof {
            assert(d.take(i + 1).drop_last() =~= d.take(i));
            assert(d.take(i + 1).last() == s@[k as int]);
        }
        let c = s[k];
        let v: u128 = match hex_digit(c) {
            Some(x) => x as u128,
            None => {
                proof {
                    assert(!radix_digit(d[i], radix as nat));
                    assert(!i64_radix_ok(t, radix as nat));
                }
                return false;
            },
        };
        if radix == 10 && !('0' <= c && c <= '9') {
            proof {
                assert(!radix_digit(d[i], radix as nat));
                assert(!i64_radix_ok(t, radix as nat));
            }
            return false;
        }
        proof {
            assert(acc * (radix as u128) <= 0x8000_0000_0000_0000 * 16) by (nonlinear_arith)
                requires
                    acc <= 0x8000_0000_0000_0000,
                    radix <= 16,
            ;
        }
        acc = acc * (radix as u128) + v;
        proof {
            assert(acc == radix_number(d.take(i + 1), radix as nat));
        }
        if acc > limit {
            proof {
                if all_radix(d, radix as nat) {
                    lemma_radix_grows(d, i + 1, radix as nat);
                }
            }
            return false;
        }
        k = k + 1;
    }
    proof {
        assert(d.take(d.len() as int) =~= d);
        assert(all_radix(d, radix as nat));
    }
    true
}

/// Whether `v` is a Lua integer literal (see [`is_int_lit`]).
pub fn is_lua_integer_literal(v: &[char]) -> (r: bool)
    ensures
        r == is_int_lit(v@),
{
    let ustart: usize = if v.len() > 0 && (v[0] == '-' || v[0] == '+') { 1 } else { 0 };
    proof {
        let u = if v@.len() > 0 && (v@[0] == '-' || v@[0] == '+') { v@.drop_first() } else { v@ };
        assert(u =~= v@.subrange(ustart as int, v@.len() as int));
        if v@.len() - ustart >= 2 {
            assert(u.skip(2) =~= v@.subrange(ustart + 2, v@.len() as int));
        }
        assert(v@.subrange(0, v@.len() as int) =~= v@);
    }
    if v.len() - ustart >= 2 && v[ustart] == '0' && (v[ustart + 1] == 'x' || v[ustart + 1] == 'X') {
        v.len() - ustart > 2 && i64_radix_check(v, ustart + 2, v.len(), 16)
    } else {
        i64_radix_check(v, 0, v.len(), 10)
    }
}

/// Number of decimal digits of `s` from `i` on.
pub open spec fn digit_run(s: Seq<char>, i: int) -> int
    decreases s.len() - i,
{
    if i < 0 || i >= s.len() || !is_dec_digit(s[i]) {
        0
    } else {
        1 + digit_run(s, i + 1)
    }
}

/// `inf`, `infinity` or `nan` in any letter case.
pub open spec fn is_special_float(b: Seq<char>) -> bool {
    let l = to_ascii_lowercase(b);
    l == "inf"@ || l == "infinity"@ || l == "nan"@
}

/// The decimal form `digits [. digits] [(e|E) [sign] digits]` with at least
/// one mantissa digit, covering all of `b`.
pub open spec fn is_decimal_float(b: Seq<char>) -> bool {
    let i = digit_run(b, 0);
    let has_dot = i < b.len() && b[i] == '.';
    let j = if has_dot { i + 1 + digit_run(b, i + 1) } else { i };
    let mant = if has_dot { j - 1 } else { j };
    if mant < 1 {
        false
    } else if j == b.len() {
        true
    } else if b[j] == 'e' || b[j] == 'E' {
        let k = if j + 1 < b.len() && (b[j + 1] == '+' || b[j + 1] == '-') { j + 2 } else { j + 1 };
        digit_run(b, k) >= 1 && k + digit_run(b, k) == b.len()
    } else {
        false
    }
}

/// `str::parse::<f64>().is_ok()`: an optional sign, then `inf`,
/// `infinity`, `nan` (any case) or a decimal number.
pub open spec fn f64_ok(s: Seq<char>) -> bool {
    let b = unsigned_part(s);
    is_special_float(b) || is_decimal_float(b)
}

fn digit_run_at(s: &[char], i: usize) -> (r: usize)
    requires
        i <= s@.len(),
    ensures
        r as int == digit_run(s@, i as int),
        i + r <= s@.len(),
{
    let mut k = i;
    while k < s.len() && '0' <= s[k] && s[k] <= '9'
        invariant
            i <= k <= s@.len(),
            digit_run(s@, i as int) == (k - i) + digit_run(s@, k as int),
        decreases s.len() - k,
    {
        k = k + 1;
    }
    k - i
}

fn eq_lower(s: &[char], lo: usize, word: &str) -> (r: bool)
    requires
        lo <= s@.len(),
    ensures
        r == (to_ascii_lowercase(s@.subrange(lo as int, s@.len() as int)) == word@),
{
    let w = chars_of(word);
    let n = s.len() - lo;
    if n != w.len() {
        proof {
            assert(to_ascii_lowercase(s@.subrange(lo as int, s@.len() as int)).len() != word@.len());
        }
        return false;
    }
    let total = s.len();
    let mut k: usize = 0;
    while k < n
        invariant
            k <= n,
            n == s@.len() - lo,
            total == s@.len(),
            lo + n == total,
            w@ == word@,
            n == w@.len(),
            forall|j: int| 0 <= j < k ==> lower_char(s@[lo + j]) == w@[j],
        decreases n - k,
    {
        let c = crate::text::lower(s[lo + k]);
        if c != w[k] {
            proof {
                assert(to_ascii_lowercase(s@.subrange(lo as int, s@.len() as int))[k as int] != w@[k as int]);
            }
            return false;
        }
        k = k + 1;
    }
    proof {
        assert(to_ascii_lowercase(s@.subrange(lo as int, s@.len() as int)) =~= w@);
    }
    true
}

/// Whether `v` parses as an `f64` (see [`f64_ok`]).
pub fn parses_as_float(v: &[char]) -> (r: bool)
    ensures
        r == f64_ok(v@),
{
    let start: usize = if v.len() > 0 && (v[0] == '+' || v[0] == '-') { 1 } else { 0 };
    let ghost b = v@.subrange(start as int, v@.len() as int);
    proof {
        assert(unsigned_part(v@) =~= b);
    }
    if eq_lower(v, start, "inf") || eq_lower(v, start, "infinity") || eq_lower(v, start, "nan") {
        return true;
    }
    let bv = sub_chars(v, start, v.len());
    let i = digit_run_at(bv.as_slice(), 0);
    let has_dot = i < bv.len() && bv[i] == '.';
    let j = if has_dot { i + 1 + digit_run_at(bv.as_slice(), i + 1) } else { i };
    let mant = if has_dot { j - 1 } else { j };
    if mant < 1 {
        return false;
    }
    if j == bv.len() {
        return true;
    }
    if bv[j] == 'e' || bv[j] == 'E' {
        let k = if j + 1 < bv.len() && (bv[j + 1] == '+' || bv[j + 1] == '-') { j + 2 } else { j + 1 };
        let e = digit_run_at(bv.as_slice(), k);
        e >= 1 && k + e == bv.len()
    } else {
        false
    }
}

/// A Lua string literal's content: `v` (trimmed) between matching quotes.
pub open spec fn str_lit(v: Seq<char>) -> Option<Seq<char>> {
    let t = trim(v);
    if t.len() >= 2 && ((t[0] == '\'' && t.last() == '\'') || (t[0] == '"' && t.last() == '"')) {
        Some(t.subrange(1, t.len() - 1))
    } else {
        None
    }
}

/// A literal's value: its content when quoted, else the trimmed text.
pub open spec fn strip_lit(v: Seq<char>) -> Seq<char> {
    match str_lit(v) {
        Some(c) => c,
        None => trim(v),
    }
}

/// Whether `v` is a Lua literal: quoted string, integer, number, boolean
/// or `nil`.
pub open spec fn is_lit(v: Seq<char>) -> bool {
    let t = trim(v);
    str_lit(t) is Some || is_int_lit(t) || f64_ok(t) || t == "true"@ || t == "false"@ || t == "nil"@
}

/// Whether the literal `arg` fits the declared parameter type.
pub open spec fn lit_matches(arg: Seq<char>, ty: Seq<char>) -> bool {
    let v = trim(arg);
    if ty == "integer"@ || ty == "frequency_hz"@ {
        is_int_lit(v)
    } else if ty == "number"@ {
        f64_ok(v) || is_int_lit(v)
    } else if ty == "string"@ || ty == "pin"@ {
        (v.len() > 0 && v[0] == '\'' && v.last() == '\'') || (v.len() > 0 && v[0] == '"' && v.last() == '"')
    } else if ty == "boolean"@ {
        v == "true"@ || v == "false"@
    } else {
        true
    }
}

proof fn lemma_radix_no_dot(s: Seq<char>, radix: nat, i: int)
    requires
        i64_radix_ok(s, radix),
        0 <= i < s.len(),
    ensures
        s[i] != '.',
{
    let u = unsigned_part(s);
    if s.len() > 0 && (s[0] == '+' || s[0] == '-') {
        if i > 0 {
            assert(s[i] == u[i - 1]);
            assert(radix_digit(u[i - 1], radix));
        }
    } else {
        assert(radix_digit(u[i], radix));
    }
}

/// A literal fits an `integer` parameter, and a `frequency_hz` one alike,
/// exactly when (trimmed) it is a Lua integer literal; such a literal holds
/// no `.`, so a decimal fraction such as `2.5` fits neither.
pub proof fn law_integer_parameters(arg: Seq<char>)
    ensures
        lit_matches(arg, "integer"@) == is_int_lit(trim(arg)),
        lit_matches(arg, "frequency_hz"@) == is_int_lit(trim(arg)),
        is_int_lit(trim(arg)) ==> forall|i: int| 0 <= i < trim(arg).len() ==> #[trigger] trim(arg)[i] != '.',
{
    let v = trim(arg);
    if is_int_lit(v) {
        let signed = v.len() > 0 && (v[0] == '-' || v[0] == '+');
        let u = if signed { v.drop_first() } else { v };
        assert forall|i: int| 0 <= i < v.len() implies #[trigger] v[i] != '.' by {
            if u.len() >= 2 && u[0] == '0' && (u[1] == 'x' || u[1] == 'X') {
                let w = u.skip(2);
                let j = if signed { i - 1 } else { i };
                if j >= 2 {
                    assert(v[i] == u[j]);
                    assert(u[j] == w[j - 2]);
                    lemma_radix_no_dot(w, 16, j - 2);
                } else if j >= 0 {
                    assert(v[i] == u[j]);
                }
            } else {
                lemma_radix_no_dot(v, 10, i);
            }
        }
    }
}

/// What a literal must look like (trimmed) for each parameter type: a
/// `boolean` takes exactly `true` or `false`; a `string` or a `pin` takes a
/// text quoted with `'` or `"` at both ends; a `number` takes an integer
/// literal or a float; a type the checker does not know takes anything.
pub proof fn law_literal_types(arg: Seq<char>, ty: Seq<char>)
    ensures
        lit_matches(arg, "boolean"@) == (trim(arg) == "true"@ || trim(arg) == "false"@),
        lit_matches(arg, "string"@) == lit_matches(arg, "pin"@),
        lit_matches(arg, "string"@) == ({
            let v = trim(arg);
            v.len() > 0 && ((v[0] == '\'' && v.last() == '\'') || (v[0] == '"' && v.last() == '"'))
        }),
        lit_matches(arg, "number"@) == (is_int_lit(trim(arg)) || f64_ok(trim(arg))),
        ty != "integer"@ && ty != "frequency_hz"@ && ty != "number"@ && ty != "string"@ && ty != "pin"@ && ty
            != "boolean"@ ==> lit_matches(arg, ty),
{
    reveal_strlit("integer");
    reveal_strlit("frequency_hz");
    reveal_strlit("number");
    reveal_strlit("string");
    reveal_strlit("pin");
    reveal_strlit("boolean");
    assert("boolean"@[0] != "integer"@[0] && "boolean"@.len() != "frequency_hz"@.len() && "boolean"@.len()
        != "number"@.len() && "boolean"@.len() != "string"@.len() && "boolean"@.len() != "pin"@.len());
    assert("string"@.len() != "integer"@.len() && "string"@.len() != "frequency_hz"@.len() && "string"@[0]
        != "number"@[0]);
    assert("pin"@.len() != "integer"@.len() && "pin"@.len() != "frequency_hz"@.len() && "pin"@.len()
        != "number"@.len() && "pin"@.len() != "string"@.len());
    assert("number"@.len() != "integer"@.len() && "number"@.len() != "frequency_hz"@.len());
}

fn word_is(v: &[char], word: &str) -> (r: bool)
    ensures
        r == (v@ == word@),
{
    let w = chars_of(word);
    crate::fontpack::chars_eq(v, w.as_slice())
}

fn trimmed(v: &[char]) -> (t: Vec<char>)
    ensures
        t@ == trim(v@),
{
    let (a, b) = trim_bounds(v, 0, v.len());
    proof {
        assert(v@.subrange(0, v@.len() as int) =~= v@);
    }
    sub_chars(v, a, b)
}

/// The content of a quoted Lua string literal.
pub fn lua_string_literal(v: &[char]) -> (r: Option<Vec<char>>)
    ensures
        match r {
            Some(c) => str_lit(v@) == Some(c@),
            None => str_lit(v@) is None,
        },
{
    let t = trimmed(v);
    let n = t.len();
    if n >= 2 && ((t[0] == '\'' && t[n - 1] == '\'') || (t[0] == '"' && t[n - 1] == '"')) {
        Some(sub_chars(t.as_slice(), 1, n - 1))
    } else {
        None
    }
}

/// A literal's value: its content when quoted, else the trimmed text.
pub fn strip_lua_literal(v: &[char]) -> (r: Vec<char>)
    ensures
        r@ == strip_lit(v@),
{
    match lua_string_literal(v) {
        Some(c) => c,
        None => trimmed(v),
    }
}

/// Whether `v` is a Lua literal.
pub fn is_lua_literal(v: &[char]) -> (r: bool)
    ensures
        r == is_lit(v@),
{
    let t = trimmed(v);
    proof {
        crate::text::lemma_trim_idempotent(t@);
    }
    lua_string_literal(t.as_slice()).is_some() || is_lua_integer_literal(t.as_slice())
        || parses_as_float(t.as_slice()) || word_is(t.as_slice(), "true") || word_is(t.as_slice(), "false")
        || word_is(t.as_slice(), "nil")
}

/// Whether the literal `arg` fits the declared parameter type.
pub fn literal_matches_type(arg: &str, ty: &str) -> (r: bool)
    ensures
        r == lit_matches(arg@, ty@),
{
    let a = chars_of(arg);
    let v = trimmed(a.as_slice());
    let t = chars_of(ty);
    let n = v.len();
    if word_is(t.as_slice(), "integer") || word_is(t.as_slice(), "frequency_hz") {
        is_lua_integer_literal(v.as_slice())
    } else if word_is(t.as_slice(), "number") {
        parses_as_float(v.as_slice()) || is_lua_integer_literal(v.as_slice())
    } else if word_is(t.as_slice(), "string") || word_is(t.as_slice(), "pin") {
        (n > 0 && v[0] == '\'' && v[n - 1] == '\'') || (n > 0 && v[0] == '"' && v[n - 1] == '"')
    } else if word_is(t.as_slice(), "boolean") {
        word_is(v.as_slice(), "true") || word_is(v.as_slice(), "false")
    } else {
        true
    }
}

// ─── profile data ───────────────────────────────────────────────────────

/// A completion offered by the editor.
#[derive(Clone, Debug)]
pub struct ProfileCompletion {
    pub label: String,
    pub insert: String,
    pub detail: String,
}

/// A problem found in a call.
#[derive(Clone, Debug)]
pub struct CallIssue {
    pub code: String,
    pub message: String,
}

/// One function a chip pin can take (a pin multiplexing option).
#[derive(Clone, Debug)]
pub struct Capability {
    pub function: Vec<char>,
    pub class: Vec<char>,
    pub peripheral: Option<Vec<char>>,
    pub signal: Option<Vec<char>>,
    pub route: Option<Vec<char>>,
}

/// A chip pin and its capabilities.
#[derive(Clone, Debug)]
pub struct ChipPin {
    pub name: Vec<char>,
    pub capabilities: Vec<Capability>,
}

/// A chip peripheral instance.
#[derive(Clone, Debug)]
pub struct Peripheral {
    pub id: Vec<char>,
    pub class: Vec<char>,
    pub instance: i64,
    pub signals: Vec<Vec<char>>,
}

/// A pin the board exposes.
#[derive(Clone, Debug)]
pub struct BoardPin {
    pub id: Vec<char>,
    pub name: Vec<char>,
    pub aliases: Vec<Vec<char>>,
    pub chip_pin: Vec<char>,
    pub available: bool,
    pub allow_classes: Option<Vec<Vec<char>>>,
    pub deny_functions: Vec<Vec<char>>,
    pub preference: i64,
    /// (severity, reason) when the board reserves the pin.
    pub reserved: Option<(Vec<char>, Vec<char>)>,
    /// (device, releasable) when an on-board device holds the pin.
    pub occupied: Option<(Vec<char>, bool)>,
}

/// What a parameter requires of a pin capability.
#[derive(Clone, Debug)]
pub struct CapabilityRequirement {
    pub class: Option<Vec<char>>,
    pub function: Option<Vec<char>>,
    pub peripheral: Option<Vec<char>>,
    pub signal: Option<Vec<char>>,
    pub route: Option<Vec<char>>,
}

/// A parameter that names a hardware resource (a pin or a peripheral).
#[derive(Clone, Debug)]
pub struct ResourceRequirement {
    pub kind: Vec<char>,
    pub scope: Vec<char>,
    pub capability: CapabilityRequirement,
    /// (property, slot): the resource's property must agree with the
    /// value other parameters of the call bound to the slot.
    pub bindings: Vec<(Vec<char>, Vec<char>)>,
    pub allow_reserved: bool,
    pub allow_releasable: bool,
}

#[derive(Clone, Debug)]
pub struct ApiParam {
    pub name: Vec<char>,
    pub ty: Vec<char>,
    pub optional: bool,
    pub variadic: bool,
    pub resource: Option<ResourceRequirement>,
}

#[derive(Clone, Debug)]
pub struct ApiOverload {
    pub params: Vec<ApiParam>,
}

#[derive(Clone, Debug)]
pub struct ApiFunction {
    pub name: Vec<char>,
    pub description: Vec<char>,
    pub overloads: Vec<ApiOverload>,
}

#[derive(Clone, Debug)]
pub struct ApiModule {
    pub name: Vec<char>,
    pub description: Vec<char>,
    pub functions: Vec<ApiFunction>,
}

/// A validated target: board, chip and firmware API.
#[derive(Debug)]
pub struct TargetProfile {
    board_id: String,
    chip_id: String,
    api_id: String,
    globals: Vec<ApiFunction>,
    modules: Vec<ApiModule>,
    chip_pins: Vec<ChipPin>,
    peripherals: Vec<Peripheral>,
    board_pins: Vec<BoardPin>,
}

/// `i` is the first position of `s` where `p` holds.
pub open spec fn is_first<A>(s: Seq<A>, p: spec_fn(A) -> bool, i: int) -> bool {
    0 <= i < s.len() && p(s[i]) && forall|j: int| 0 <= j < i ==> !p(#[trigger] s[j])
}

/// The first position of `s` where `p` holds.
pub open spec fn find_first<A>(s: Seq<A>, p: spec_fn(A) -> bool) -> Option<int> {
    if exists|i: int| is_first(s, p, i) {
        Some(choose|i: int| is_first(s, p, i))
    } else {
        None
    }
}

pub proof fn lemma_find_first<A>(s: Seq<A>, p: spec_fn(A) -> bool, k: int)
    requires
        0 <= k <= s.len(),
        forall|j: int| 0 <= j < k ==> !p(#[trigger] s[j]),
    ensures
        k < s.len() && p(s[k]) ==> find_first(s, p) == Some(k),
        k == s.len() ==> find_first(s, p) is None,
{
    if k < s.len() && p(s[k]) {
        assert(is_first(s, p, k));
        let i = choose|i: int| is_first(s, p, i);
        if i < k {
            assert(!p(s[i]));
        } else if i > k {
            assert(!p(s[k]));
        }
    }
    if k == s.len() {
        if exists|i: int| is_first(s, p, i) {
            let i = choose|i: int| is_first(s, p, i);
            assert(!p(s[i]));
        }
    }
}

/// The module named `m`.
pub open spec fn module_named(ms: Seq<ApiModule>, m: Seq<char>) -> Option<int> {
    find_first(ms, |x: ApiModule| x.name@ == m)
}

/// The function named `f`.
pub open spec fn function_named(fs: Seq<ApiFunction>, f: Seq<char>) -> Option<int> {
    find_first(fs, |x: ApiFunction| x.name@ == f)
}

impl TargetProfile {
    /// Global functions.
    pub closed spec fn globals_spec(&self) -> Seq<ApiFunction> {
        self.globals@
    }

    /// Modules.
    pub closed spec fn modules_spec(&self) -> Seq<ApiModule> {
        self.modules@
    }

    /// Chip pins.
    pub closed spec fn chip_pins_spec(&self) -> Seq<ChipPin> {
        self.chip_pins@
    }

    /// Chip peripherals.
    pub closed spec fn peripherals_spec(&self) -> Seq<Peripheral> {
        self.peripherals@
    }

    /// Board pins.
    pub closed spec fn board_pins_spec(&self) -> Seq<BoardPin> {
        self.board_pins@
    }

    /// Every profile names each of its parts once (see [`names_unique`]):
    /// the builders refuse duplicates.
    #[verifier::type_invariant]
    closed spec fn parts_named_once(self) -> bool {
        names_unique(profile_view(self))
    }

    /// The board's name.
    pub fn board_id(&self) -> (r: &str)
        ensures
            r@ == profile_view(*self).board_id,
    {
        self.board_id.as_str()
    }

    /// The chip's name.
    pub fn chip_id(&self) -> (r: &str)
        ensures
            r@ == profile_view(*self).chip_id,
    {
        self.chip_id.as_str()
    }

    /// The firmware API's name.
    pub fn api_id(&self) -> (r: &str)
        ensures
            r@ == profile_view(*self).api_id,
    {
        self.api_id.as_str()
    }
}

/// The view of an optional name.
pub open spec fn opt_view(m: Option<&[char]>) -> Option<Seq<char>> {
    match m {
        Some(x) => Some(x@),
        None => None,
    }
}

/// The API function `name`, in `module` or among the globals.
pub open spec fn profile_function(p: TargetProfile, module: Option<Seq<char>>, name: Seq<char>) -> Option<ApiFunction> {
    match module {
        Some(m) => match module_named(p.modules_spec(), m) {
            Some(i) => match function_named(p.modules_spec()[i].functions@, name) {
                Some(j) => Some(p.modules_spec()[i].functions@[j]),
                None => None,
            },
            None => None,
        },
        None => match function_named(p.globals_spec(), name) {
            Some(j) => Some(p.globals_spec()[j]),
            None => None,
        },
    }
}

fn find_module(ms: &Vec<ApiModule>, m: &[char]) -> (r: Option<usize>)
    ensures
        match r {
            Some(i) => module_named(ms@, m@) == Some(i as int),
            None => module_named(ms@, m@) is None,
        },
{
    let ghost p = |x: ApiModule| x.name@ == m@;
    let mut k: usize = 0;
    while k < ms.len()
        invariant
            k <= ms@.len(),
            p == (|x: ApiModule| x.name@ == m@),
            forall|j: int| 0 <= j < k ==> !p(#[trigger] ms@[j]),
        decreases ms.len() - k,
    {
        if crate::fontpack::chars_eq(ms[k].name.as_slice(), m) {
            proof {
                lemma_find_first(ms@, p, k as int);
            }
            return Some(k);
        }
        k = k + 1;
    }
    proof {
        lemma_find_first(ms@, p, k as int);
    }
    None
}

fn find_function(fs: &Vec<ApiFunction>, f: &[char]) -> (r: Option<usize>)
    ensures
        match r {
            Some(i) => function_named(fs@, f@) == Some(i as int),
            None => function_named(fs@, f@) is None,
        },
{
    let ghost p = |x: ApiFunction| x.name@ == f@;
    let mut k: usize = 0;
    while k < fs.len()
        invariant
            k <= fs@.len(),
            p == (|x: ApiFunction| x.name@ == f@),
            forall|j: int| 0 <= j < k ==> !p(#[trigger] fs@[j]),
        decreases fs.len() - k,
    {
        if crate::fontpack::chars_eq(fs[k].name.as_slice(), f) {
            proof {
                lemma_find_first(fs@, p, k as int);
            }
            return Some(k);
        }
        k = k + 1;
    }
    proof {
        lemma_find_first(fs@, p, k as int);
    }
    None
}

impl TargetProfile {
    /// Whether the API has the module `module`.
    pub fn has_module(&self, module: &str) -> (r: bool)
        ensures
            r == module_named(self.modules_spec(), module@) is Some,
    {
        let m = chars_of(module);
        find_module(&self.modules, m.as_slice()).is_some()
    }

    /// Whether the API has the global function `function`.
    pub fn has_global(&self, function: &str) -> (r: bool)
        ensures
            r == function_named(self.globals_spec(), function@) is Some,
    {
        let f = chars_of(function);
        find_function(&self.globals, f.as_slice()).is_some()
    }

    /// The function `name` in `module` (or among the globals).
    fn function(&self, module: Option<&[char]>, name: &[char]) -> (r: Option<&ApiFunction>)
        ensures
            match r {
                Some(x) => profile_function(*self, opt_view(module), name@) == Some(*x),
                None => profile_function(*self, opt_view(module), name@) is None,
            },
    {
        match module {
            Some(m) => {
                let i = find_module(&self.modules, m)?;
                let j = find_function(&self.modules[i].functions, name)?;
                Some(&self.modules[i].functions[j])
            },
            None => {
                let j = find_function(&self.globals, name)?;
                Some(&self.globals[j])
            },
        }
    }
}

// ─── capabilities of a board pin ────────────────────────────────────────

/// The view of an optional character vector.
pub open spec fn opt_chars(o: Option<Vec<char>>) -> Option<Seq<char>> {
    match o {
        Some(x) => Some(x@),
        None => None,
    }
}

/// The optional requirement `req` is met by the value `v`.
pub open spec fn req_ok(req: Option<Vec<char>>, v: Option<Seq<char>>) -> bool {
    match req {
        Some(r) => v == Some(r@),
        None => true,
    }
}

/// `c` meets every requirement `r` states.
pub open spec fn cap_matches(c: Capability, r: CapabilityRequirement) -> bool {
    &&& req_ok(r.class, Some(c.class@))
    &&& req_ok(r.function, Some(c.function@))
    &&& req_ok(r.peripheral, opt_chars(c.peripheral))
    &&& req_ok(r.signal, opt_chars(c.signal))
    &&& req_ok(r.route, opt_chars(c.route))
}

/// The board lets a parameter of `res` use `pin` at all.
pub open spec fn pin_usable(pin: BoardPin, res: ResourceRequirement) -> bool {
    &&& pin.available
    &&& res.scope@ == "board.exposed"@
    &&& !(pin.reserved matches Some(rv) && rv.0@ == "error"@ && !res.allow_reserved)
    &&& !(pin.occupied matches Some(ov) && (!ov.1 || !res.allow_releasable))
}

/// The board pin allows the capability `c`, and `c` meets `res`.
pub open spec fn cap_allowed(pin: BoardPin, res: ResourceRequirement, c: Capability) -> bool {
    &&& (match pin.allow_classes {
        Some(cl) => strs_view(cl@).contains(c.class@),
        None => true,
    })
    &&& !strs_view(pin.deny_functions@).contains(c.function@)
    &&& cap_matches(c, res.capability)
}

/// The capabilities of `cs` that `pin` allows for `res`, in order.
pub open spec fn keep_caps(cs: Seq<Capability>, pin: BoardPin, res: ResourceRequirement) -> Seq<Capability>
    decreases cs.len(),
{
    if cs.len() == 0 {
        Seq::empty()
    } else if cap_allowed(pin, res, cs.last()) {
        keep_caps(cs.drop_last(), pin, res).push(cs.last())
    } else {
        keep_caps(cs.drop_last(), pin, res)
    }
}

/// The chip pin named `n`.
pub open spec fn chip_pin_named(cps: Seq<ChipPin>, n: Seq<char>) -> Option<int> {
    find_first(cps, |x: ChipPin| x.name@ == n)
}

/// The capabilities through which a parameter of `res` may use `pin`.
pub open spec fn pin_caps(p: TargetProfile, pin: BoardPin, res: ResourceRequirement) -> Seq<Capability> {
    if !pin_usable(pin, res) {
        Seq::empty()
    } else {
        match chip_pin_named(p.chip_pins_spec(), pin.chip_pin@) {
            Some(i) => keep_caps(p.chip_pins_spec()[i].capabilities@, pin, res),
            None => Seq::empty(),
        }
    }
}

/// The elements of `cs` at the positions `idx`.
pub open spec fn caps_at(cs: Seq<Capability>, idx: Seq<usize>) -> Seq<Capability> {
    idx.map_values(|i: usize| cs[i as int])
}

fn req_met(req: &Option<Vec<char>>, v: Option<&[char]>) -> (r: bool)
    ensures
        r == req_ok(*req, match v {
            Some(x) => Some(x@),
            None => None,
        }),
{
    match req {
        Some(x) => match v {
            Some(y) => chars_eq(x.as_slice(), y),
            None => false,
        },
        None => true,
    }
}

fn opt_slice(o: &Option<Vec<char>>) -> (r: Option<&[char]>)
    ensures
        match r {
            Some(x) => opt_chars(*o) == Some(x@),
            None => opt_chars(*o) is None,
        },
{
    match o {
        Some(x) => Some(x.as_slice()),
        None => None,
    }
}

/// Whether `c` meets the requirement `r`.
fn capability_matches(c: &Capability, r: &CapabilityRequirement) -> (b: bool)
    ensures
        b == cap_matches(*c, *r),
{
    req_met(&r.class, Some(c.class.as_slice())) && req_met(&r.function, Some(c.function.as_slice()))
        && req_met(&r.peripheral, opt_slice(&c.peripheral)) && req_met(&r.signal, opt_slice(&c.signal))
        && req_met(&r.route, opt_slice(&c.route))
}

fn pin_is_usable(pin: &BoardPin, res: &ResourceRequirement) -> (b: bool)
    ensures
        b == pin_usable(*pin, *res),
{
    if !pin.available || !word_is(res.scope.as_slice(), "board.exposed") {
        return false;
    }
    match &pin.reserved {
        Some(rv) => {
            if word_is(rv.0.as_slice(), "error") && !res.allow_reserved {
                return false;
            }
        },
        None => {},
    }
    match &pin.occupied {
        Some(ov) => {
            if !ov.1 || !res.allow_releasable {
                return false;
            }
        },
        None => {},
    }
    true
}

fn cap_is_allowed(pin: &BoardPin, res: &ResourceRequirement, c: &Capability) -> (b: bool)
    ensures
        b == cap_allowed(*pin, *res, *c),
{
    let class_ok = match &pin.allow_classes {
        Some(cl) => has_str(cl, c.class.as_slice()),
        None => true,
    };
    class_ok && !has_str(&pin.deny_functions, c.function.as_slice()) && capability_matches(c, &res.capability)
}

fn find_chip_pin(cps: &Vec<ChipPin>, n: &[char]) -> (r: Option<usize>)
    ensures
        match r {
            Some(i) => chip_pin_named(cps@, n@) == Some(i as int),
            None => chip_pin_named(cps@, n@) is None,
        },
{
    let ghost p = |x: ChipPin| x.name@ == n@;
    let mut k: usize = 0;
    while k < cps.len()
        invariant
            k <= cps@.len(),
            p == (|x: ChipPin| x.name@ == n@),
            forall|j: int| 0 <= j < k ==> !p(#[trigger] cps@[j]),
        decreases cps.len() - k,
    {
        if chars_eq(cps[k].name.as_slice(), n) {
            proof {
                lemma_find_first(cps@, p, k as int);
            }
            return Some(k);
        }
        k = k + 1;
    }
    proof {
        lemma_find_first(cps@, p, k as int);
    }
    None
}

impl TargetProfile {
    /// The capabilities through which a parameter of `res` may use `pin`:
    /// a chip pin's position and positions among its capabilities.
    fn pin_capabilities(&self, pin: &BoardPin, res: &ResourceRequirement) -> (r: (usize, Vec<usize>))
        ensures
            r.1@.len() > 0 ==> r.0 < self.chip_pins_spec().len(),
            forall|j: int| 0 <= j < r.1@.len() ==> (#[trigger] r.1@[j]) < self.chip_pins_spec()[r.0 as int].capabilities@.len(),
            caps_at(self.chip_pins_spec()[r.0 as int].capabilities@, r.1@) == pin_caps(*self, *pin, *res),
    {
        let mut out: Vec<usize> = Vec::new();
        if !pin_is_usable(pin, res) {
            proof {
                assert(caps_at(self.chip_pins_spec()[0].capabilities@, out@) =~= Seq::<Capability>::empty());
            }
            return (0, out);
        }
        let ci = match find_chip_pin(&self.chip_pins, pin.chip_pin.as_slice()) {
            Some(i) => i,
            None => {
                proof {
                    assert(caps_at(self.chip_pins_spec()[0].capabilities@, out@) =~= Seq::<Capability>::empty());
                }
                return (0, out);
            },
        };
        let caps = &self.chip_pins[ci].capabilities;
        let mut k: usize = 0;
        while k < caps.len()
            invariant
                k <= caps@.len(),
                caps@ == self.chip_pins_spec()[ci as int].capabilities@,
                forall|j: int| 0 <= j < out@.len() ==> (#[trigger] out@[j]) < k,
                caps_at(caps@, out@) == keep_caps(caps@.take(k as int), *pin, *res),
            decreases caps.len() - k,
        {
            proof {
                assert(caps@.take(k + 1).drop_last() =~= caps@.take(k as int));
                assert(caps@.take(k + 1).last() == caps@[k as int]);
            }
            if cap_is_allowed(pin, res, &caps[k]) {
                out.push(k);
                proof {
                    assert(caps_at(caps@, out@) =~= keep_caps(caps@.take(k as int), *pin, *res).push(caps@[k as int]));
                }
            }
            k = k + 1;
        }
        proof {
            assert(caps@.take(k as int) =~= caps@);
        }
        (ci, out)
    }
}

// ─── slots bound during one call ────────────────────────────────────────

/// The view of a list of (key, value) character-vector pairs.
pub open spec fn pairs_view(b: Seq<(Vec<char>, Vec<char>)>) -> Seq<(Seq<char>, Seq<char>)> {
    b.map_values(|x: (Vec<char>, Vec<char>)| (x.0@, x.1@))
}

/// The value bound to `k` (the first pair with that key).
pub open spec fn lookup(b: Seq<(Seq<char>, Seq<char>)>, k: Seq<char>) -> Option<Seq<char>>
    decreases b.len(),
{
    if b.len() == 0 {
        None
    } else if b[0].0 == k {
        Some(b[0].1)
    } else {
        lookup(b.drop_first(), k)
    }
}

/// A resource a call argument resolved to.
pub enum CandV {
    /// Nothing known statically (a variable, or a kind not checked).
    Blank,
    /// A chip peripheral.
    Periph(Peripheral),
    /// A capability of the chip pin named by the first field.
    Pin(Seq<char>, Capability),
    /// A capability, its pin left unnamed.
    Cap(Capability),
}

/// A capability's property named `q`.
pub open spec fn cap_prop(c: Capability, q: Seq<char>) -> Option<Seq<char>> {
    if q == "class"@ {
        Some(c.class@)
    } else if q == "function"@ {
        Some(c.function@)
    } else if q == "peripheral"@ {
        opt_chars(c.peripheral)
    } else if q == "signal"@ {
        opt_chars(c.signal)
    } else if q == "route"@ {
        opt_chars(c.route)
    } else {
        None
    }
}

/// A resolved resource's property named `q`.
pub open spec fn cand_prop(c: CandV, q: Seq<char>) -> Option<Seq<char>> {
    match c {
        CandV::Blank => None,
        CandV::Periph(x) => if q == "id"@ || q == "peripheral"@ {
            Some(x.id@)
        } else if q == "instance"@ {
            Some(sdec(x.instance as int))
        } else if q == "class"@ {
            Some(x.class@)
        } else {
            None
        },
        CandV::Pin(chip_pin, cap) => if q == "id"@ {
            Some(chip_pin)
        } else {
            cap_prop(cap, q)
        },
        CandV::Cap(cap) => cap_prop(cap, q),
    }
}

/// Every slot of `rb` already bound in `b` holds the candidate's property.
pub open spec fn compatible(b: Seq<(Seq<char>, Seq<char>)>, rb: Seq<(Seq<char>, Seq<char>)>, c: CandV) -> bool {
    forall|i: int| 0 <= i < rb.len() ==> match #[trigger] lookup(b, rb[i].1) {
        Some(bound) => cand_prop(c, rb[i].0) == Some(bound),
        None => true,
    }
}

/// `b` with each slot of `rb` not yet bound bound to the candidate's
/// property, in the order of `rb`.
pub open spec fn merge(b: Seq<(Seq<char>, Seq<char>)>, rb: Seq<(Seq<char>, Seq<char>)>, c: CandV) -> Seq<(Seq<char>, Seq<char>)>
    decreases rb.len(),
{
    if rb.len() == 0 {
        b
    } else {
        let prev = merge(b, rb.drop_last(), c);
        match cand_prop(c, rb.last().0) {
            Some(v) => if lookup(prev, rb.last().1) is None {
                prev.push((rb.last().1, v))
            } else {
                prev
            },
            None => prev,
        }
    }
}

/// A resolved resource, by positions in the profile.
#[derive(Clone, Copy, Debug)]
pub enum Candidate {
    Blank,
    /// A position among the peripherals.
    Periph(usize),
    /// Positions of a board pin, a chip pin, and a capability of that chip pin.
    Pin(usize, usize, usize),
    /// Positions of a chip pin and one of its capabilities.
    Cap(usize, usize),
}

impl TargetProfile {
    /// The positions in `c` lie inside the profile.
    pub open spec fn cand_ok(&self, c: Candidate) -> bool {
        match c {
            Candidate::Blank => true,
            Candidate::Periph(i) => i < self.peripherals_spec().len(),
            Candidate::Pin(b, ci, k) => b < self.board_pins_spec().len() && ci < self.chip_pins_spec().len()
                && k < self.chip_pins_spec()[ci as int].capabilities@.len(),
            Candidate::Cap(ci, k) => ci < self.chip_pins_spec().len() && k < self.chip_pins_spec()[ci as int].capabilities@.len(),
        }
    }

    /// The resource `c` stands for.
    pub open spec fn cand_view(&self, c: Candidate) -> CandV {
        match c {
            Candidate::Blank => CandV::Blank,
            Candidate::Periph(i) => CandV::Periph(self.peripherals_spec()[i as int]),
            Candidate::Pin(b, ci, k) => CandV::Pin(
                self.board_pins_spec()[b as int].chip_pin@,
                self.chip_pins_spec()[ci as int].capabilities@[k as int],
            ),
            Candidate::Cap(ci, k) => CandV::Cap(self.chip_pins_spec()[ci as int].capabilities@[k as int]),
        }
    }
}

/// Appends the signed decimal notation of `v`.
fn push_i64(out: &mut Vec<char>, v: i64)
    ensures
        final(out)@ == old(out)@ + sdec(v as int),
{
    if v < 0 {
        out.push('-');
        let m: i128 = 0i128 - (v as i128);
        push_decimal_wide(out, m as u128);
        proof {
            assert(final(out)@ =~= old(out)@ + (seq!['-'] + dec((-v) as nat)));
        }
    } else {
        push_decimal(out, v as u64);
    }
}

fn opt_clone(o: &Option<Vec<char>>) -> (r: Option<Vec<char>>)
    ensures
        opt_chars(r) == opt_chars(*o),
{
    match o {
        Some(x) => Some(sub_chars(x.as_slice(), 0, x.len())),
        None => None,
    }
}

pub(crate) fn clone_chars(x: &Vec<char>) -> (r: Vec<char>)
    ensures
        r@ == x@,
{
    proof {
        assert(x@.subrange(0, x@.len() as int) =~= x@);
    }
    sub_chars(x.as_slice(), 0, x.len())
}

fn cap_property(c: &Capability, q: &[char]) -> (r: Option<Vec<char>>)
    ensures
        opt_chars(r) == cap_prop(*c, q@),
{
    if word_is(q, "class") {
        Some(clone_chars(&c.class))
    } else if word_is(q, "function") {
        Some(clone_chars(&c.function))
    } else if word_is(q, "peripheral") {
        opt_clone(&c.peripheral)
    } else if word_is(q, "signal") {
        opt_clone(&c.signal)
    } else if word_is(q, "route") {
        opt_clone(&c.route)
    } else {
        None
    }
}

/// The value bound to `k`.
fn lookup_slot(b: &Vec<(Vec<char>, Vec<char>)>, k: &[char]) -> (r: Option<usize>)
    ensures
        match r {
            Some(i) => i < b@.len() && lookup(pairs_view(b@), k@) == Some(b@[i as int].1@),
            None => lookup(pairs_view(b@), k@) is None,
        },
{
    let ghost bv = pairs_view(b@);
    let mut i: usize = 0;
    proof {
        assert(bv.skip(0) =~= bv);
    }
    while i < b.len()
        invariant
            i <= b@.len(),
            bv == pairs_view(b@),
            lookup(bv, k@) == lookup(bv.skip(i as int), k@),
        decreases b.len() - i,
    {
        proof {
            assert(bv.skip(i as int).drop_first() =~= bv.skip(i + 1));
            assert(bv.skip(i as int)[0] == (b@[i as int].0@, b@[i as int].1@));
        }
        if chars_eq(b[i].0.as_slice(), k) {
            return Some(i);
        }
        i = i + 1;
    }
    None
}

impl TargetProfile {
    /// A resolved resource's property named `q`.
    fn cand_property(&self, c: &Candidate, q: &[char]) -> (r: Option<Vec<char>>)
        requires
            self.cand_ok(*c),
        ensures
            opt_chars(r) == cand_prop(self.cand_view(*c), q@),
    {
        match c {
            Candidate::Blank => None,
            Candidate::Periph(i) => {
                let x = &self.peripherals[*i];
                if word_is(q, "id") || word_is(q, "peripheral") {
                    Some(clone_chars(&x.id))
                } else if word_is(q, "instance") {
                    let mut v: Vec<char> = Vec::new();
                    push_i64(&mut v, x.instance);
                    proof {
                        assert(v@ =~= sdec(x.instance as int));
                    }
                    Some(v)
                } else if word_is(q, "class") {
                    Some(clone_chars(&x.class))
                } else {
                    None
                }
            },
            Candidate::Pin(b, ci, k) => {
                if word_is(q, "id") {
                    Some(clone_chars(&self.board_pins[*b].chip_pin))
                } else {
                    cap_property(&self.chip_pins[*ci].capabilities[*k], q)
                }
            },
            Candidate::Cap(ci, k) => cap_property(&self.chip_pins[*ci].capabilities[*k], q),
        }
    }

    /// Whether the candidate agrees with every slot of `rb` already bound.
    fn bindings_compatible(&self, b: &Vec<(Vec<char>, Vec<char>)>, rb: &Vec<(Vec<char>, Vec<char>)>, c: &Candidate) -> (r: bool)
        requires
            self.cand_ok(*c),
        ensures
            r == compatible(pairs_view(b@), pairs_view(rb@), self.cand_view(*c)),
    {
        let ghost bv = pairs_view(b@);
        let ghost rv = pairs_view(rb@);
        let ghost cv = self.cand_view(*c);
        let mut i: usize = 0;
        while i < rb.len()
            invariant
                i <= rb@.len(),
                bv == pairs_view(b@),
                rv == pairs_view(rb@),
                cv == self.cand_view(*c),
                self.cand_ok(*c),
                forall|j: int| 0 <= j < i ==> match #[trigger] lookup(bv, rv[j].1) {
                    Some(bound) => cand_prop(cv, rv[j].0) == Some(bound),
                    None => true,
                },
            decreases rb.len() - i,
        {
            proof {
                assert(rv[i as int] == (rb@[i as int].0@, rb@[i as int].1@));
            }
            match lookup_slot(b, rb[i].1.as_slice()) {
                Some(j) => {
                    let v = self.cand_property(c, rb[i].0.as_slice());
                    let ok = match &v {
                        Some(x) => chars_eq(x.as_slice(), b[j].1.as_slice()),
                        None => false,
                    };
                    if !ok {
                        proof {
                            assert(lookup(bv, rv[i as int].1) == Some(b@[j as int].1@));
                            assert(cand_prop(cv, rv[i as int].0) != Some(b@[j as int].1@));
                        }
                        return false;
                    }
                },
                None => {},
            }
            i = i + 1;
        }
        true
    }

    /// Binds each slot of `rb` not yet bound to the candidate's property.
    fn merge_bindings(&self, b: &mut Vec<(Vec<char>, Vec<char>)>, rb: &Vec<(Vec<char>, Vec<char>)>, c: &Candidate)
        requires
            self.cand_ok(*c),
        ensures
            pairs_view(final(b)@) == merge(pairs_view(old(b)@), pairs_view(rb@), self.cand_view(*c)),
    {
        let ghost b0 = pairs_view(b@);
        let ghost rv = pairs_view(rb@);
        let ghost cv = self.cand_view(*c);
        let mut i: usize = 0;
        proof {
            assert(rv.take(0) =~= Seq::<(Seq<char>, Seq<char>)>::empty());
        }
        while i < rb.len()
            invariant
                i <= rb@.len(),
                b0 == pairs_view(old(b)@),
                rv == pairs_view(rb@),
                cv == self.cand_view(*c),
                self.cand_ok(*c),
                pairs_view(b@) == merge(b0, rv.take(i as int), cv),
            decreases rb.len() - i,
        {
            proof {
                assert(rv.take(i + 1).drop_last() =~= rv.take(i as int));
                assert(rv.take(i + 1).last() == (rb@[i as int].0@, rb@[i as int].1@));
            }
            match self.cand_property(c, rb[i].0.as_slice()) {
                Some(v) => {
                    if lookup_slot(b, rb[i].1.as_slice()).is_none() {
                        let slot = clone_chars(&rb[i].1);
                        let ghost before = b@;
                        b.push((slot, v));
                        proof {
                            assert(pairs_view(b@) =~= pairs_view(before).push((rb@[i as int].1@, v@)));
                        }
                    }
                },
                None => {},
            }
            i = i + 1;
        }
        proof {
            assert(rv.take(i as int) =~= rv);
        }
    }
}

// ─── resolving one argument ─────────────────────────────────────────────

/// ASCII-case-insensitive equality (`str::eq_ignore_ascii_case`).
pub open spec fn ieq(a: Seq<char>, b: Seq<char>) -> bool {
    to_ascii_lowercase(a) == to_ascii_lowercase(b)
}

/// The peripheral `x` is one a literal `value` can name for `res`.
pub open spec fn periph_fits(res: ResourceRequirement, value: Seq<char>, x: Peripheral) -> bool {
    &&& req_ok(res.capability.class, Some(x.class@))
    &&& (ieq(x.id@, value) || sdec(x.instance as int) == value)
}

/// `value` names the board pin: its name, its chip pin, or an alias.
pub open spec fn names_pin(pin: BoardPin, value: Seq<char>) -> bool {
    ||| ieq(pin.name@, value)
    ||| ieq(pin.chip_pin@, value)
    ||| exists|i: int| 0 <= i < pin.aliases@.len() && ieq(#[trigger] pin.aliases@[i]@, value)
}

/// The view of an issue: (code, message).
pub open spec fn issue_view(e: CallIssue) -> (Seq<char>, Seq<char>) {
    (e.code@, e.message@)
}

/// The board reserves the pin with severity `error` and `res` does not
/// allow reserved pins.
pub open spec fn reserved_blocks(pin: BoardPin, res: ResourceRequirement) -> bool {
    match pin.reserved {
        Some(rv) => rv.0@ == "error"@ && !res.allow_reserved,
        None => false,
    }
}

/// Why the board reserves the pin.
pub open spec fn reserved_reason(pin: BoardPin) -> Seq<char> {
    match pin.reserved {
        Some(rv) => rv.1@,
        None => Seq::empty(),
    }
}

/// An on-board device holds the pin and does not release it to `res`.
pub open spec fn occupied_blocks(pin: BoardPin, res: ResourceRequirement) -> bool {
    match pin.occupied {
        Some(ov) => !ov.1 || !res.allow_releasable,
        None => false,
    }
}

/// The on-board device holding the pin.
pub open spec fn occupying_device(pin: BoardPin) -> Seq<char> {
    match pin.occupied {
        Some(ov) => ov.0@,
        None => Seq::empty(),
    }
}

/// The verdict on a literal pin argument naming the board pin `bi`.
pub open spec fn pin_verdict(
    p: TargetProfile,
    res: ResourceRequirement,
    b: Seq<(Seq<char>, Seq<char>)>,
    bi: int,
) -> Result<CandV, (Seq<char>, Seq<char>)> {
    let pin = p.board_pins_spec()[bi];
    let name = pin.name@;
    let rb = pairs_view(res.bindings@);
    let caps = pin_caps(p, pin, res);
    if !pin.available {
        Err(("PIN002"@, "引脚 "@ + name + " 在当前开发板不可用"@))
    } else if reserved_blocks(pin, res) {
        Err(("BOARD001"@, "引脚 "@ + name + " 被保留: "@ + reserved_reason(pin)))
    } else if occupied_blocks(pin, res) {
        Err(("PIN005"@, "引脚 "@ + name + " 已被板载设备 "@ + occupying_device(pin) + " 占用"@))
    } else {
        match find_first(caps, |c: Capability| compatible(b, rb, CandV::Pin(pin.chip_pin@, c))) {
            Some(k) => Ok(CandV::Pin(pin.chip_pin@, caps[k])),
            None => if caps.len() > 0 {
                Err(("PIN004"@, "引脚 "@ + name + " 与同一调用中的外设或 route 不一致"@))
            } else {
                Err(("PIN003"@, "引脚 "@ + name + " 不支持参数要求的功能"@))
            },
        }
    }
}

/// What the argument `arg` of a parameter requiring `res` resolves to,
/// given the slots `b` earlier arguments bound, or the issue found.
pub open spec fn resolve(
    p: TargetProfile,
    res: ResourceRequirement,
    arg: Seq<char>,
    b: Seq<(Seq<char>, Seq<char>)>,
) -> Result<CandV, (Seq<char>, Seq<char>)> {
    let rb = pairs_view(res.bindings@);
    if res.kind@ == "peripheral"@ {
        if !is_int_lit(arg) && str_lit(arg) is None {
            Ok(CandV::Blank)
        } else {
            let value = strip_lit(arg);
            match find_first(p.peripherals_spec(), |x: Peripheral| periph_fits(res, value, x)) {
                None => Err(("API002"@, "外设实例 "@ + value + " 不存在于当前芯片"@)),
                Some(i) => if compatible(b, rb, CandV::Periph(p.peripherals_spec()[i])) {
                    Ok(CandV::Periph(p.peripherals_spec()[i]))
                } else {
                    Err(("PIN004"@, "外设实例与已选择的引脚路由不一致"@))
                },
            }
        }
    } else if res.kind@ != "pin"@ {
        Ok(CandV::Blank)
    } else {
        match str_lit(arg) {
            None => Ok(CandV::Blank),
            Some(value) => match find_first(p.board_pins_spec(), |x: BoardPin| names_pin(x, value)) {
                Some(bi) => pin_verdict(p, res, b, bi),
                None => if exists|i: int| 0 <= i < p.chip_pins_spec().len() && ieq(#[trigger] p.chip_pins_spec()[i].name@, value) {
                    Err(("PIN002"@, "引脚 "@ + value + " 未由当前开发板引出"@))
                } else {
                    Err(("PIN001"@, "当前芯片不存在引脚 "@ + value))
                },
            },
        }
    }
}

fn ieq_chars(a: &[char], b: &[char]) -> (r: bool)
    ensures
        r == ieq(a@, b@),
{
    if a.len() != b.len() {
        proof {
            assert(to_ascii_lowercase(a@).len() != to_ascii_lowercase(b@).len());
        }
        return false;
    }
    let mut i: usize = 0;
    while i < a.len()
        invariant
            i <= a@.len(),
            a@.len() == b@.len(),
            forall|j: int| 0 <= j < i ==> lower_char(a@[j]) == lower_char(b@[j]),
        decreases a.len() - i,
    {
        if crate::text::lower(a[i]) != crate::text::lower(b[i]) {
            proof {
                assert(to_ascii_lowercase(a@)[i as int] != to_ascii_lowercase(b@)[i as int]);
            }
            return false;
        }
        i = i + 1;
    }
    proof {
        assert(to_ascii_lowercase(a@) =~= to_ascii_lowercase(b@));
    }
    true
}

fn mk_issue(code: &str, msg: &[char]) -> (r: CallIssue)
    ensures
        r.code@ == code@,
        r.message@ == msg@,
{
    let c = chars_of(code);
    CallIssue { code: string_from(c.as_slice()), message: string_from(msg) }
}

/// `head`, `mid` and `tail` joined.
fn join3(head: &str, mid: &[char], tail: &str) -> (r: Vec<char>)
    ensures
        r@ == head@ + mid@ + tail@,
{
    let mut m: Vec<char> = Vec::new();
    append_str(&mut m, head);
    append_chars(&mut m, mid);
    append_str(&mut m, tail);
    proof {
        assert(m@ =~= head@ + mid@ + tail@);
    }
    m
}

fn periph_fits_exec(res: &ResourceRequirement, value: &[char], x: &Peripheral) -> (r: bool)
    ensures
        r == periph_fits(*res, value@, *x),
{
    if !req_met(&res.capability.class, Some(x.class.as_slice())) {
        return false;
    }
    if ieq_chars(x.id.as_slice(), value) {
        return true;
    }
    let mut n: Vec<char> = Vec::new();
    push_i64(&mut n, x.instance);
    proof {
        assert(n@ =~= sdec(x.instance as int));
    }
    chars_eq(n.as_slice(), value)
}

fn names_pin_exec(pin: &BoardPin, value: &[char]) -> (r: bool)
    ensures
        r == names_pin(*pin, value@),
{
    if ieq_chars(pin.name.as_slice(), value) || ieq_chars(pin.chip_pin.as_slice(), value) {
        return true;
    }
    let mut i: usize = 0;
    while i < pin.aliases.len()
        invariant
            i <= pin.aliases@.len(),
            forall|j: int| 0 <= j < i ==> !ieq(#[trigger] pin.aliases@[j]@, value@),
        decreases pin.aliases.len() - i,
    {
        if ieq_chars(pin.aliases[i].as_slice(), value) {
            return true;
        }
        i = i + 1;
    }
    false
}

impl TargetProfile {
    fn find_periph(&self, res: &ResourceRequirement, value: &[char]) -> (r: Option<usize>)
        ensures
            match r {
                Some(i) => find_first(self.peripherals_spec(), |x: Peripheral| periph_fits(*res, value@, x)) == Some(i as int),
                None => find_first(self.peripherals_spec(), |x: Peripheral| periph_fits(*res, value@, x)) is None,
            },
    {
        let ghost p = |x: Peripheral| periph_fits(*res, value@, x);
        let mut k: usize = 0;
        while k < self.peripherals.len()
            invariant
                k <= self.peripherals@.len(),
                p == (|x: Peripheral| periph_fits(*res, value@, x)),
                forall|j: int| 0 <= j < k ==> !p(#[trigger] self.peripherals@[j]),
            decreases self.peripherals.len() - k,
        {
            if periph_fits_exec(res, value, &self.peripherals[k]) {
                proof {
                    lemma_find_first(self.peripherals@, p, k as int);
                }
                return Some(k);
            }
            k = k + 1;
        }
        proof {
            lemma_find_first(self.peripherals@, p, k as int);
        }
        None
    }

    fn find_board_pin(&self, value: &[char]) -> (r: Option<usize>)
        ensures
            match r {
                Some(i) => find_first(self.board_pins_spec(), |x: BoardPin| names_pin(x, value@)) == Some(i as int),
                None => find_first(self.board_pins_spec(), |x: BoardPin| names_pin(x, value@)) is None,
            },
    {
        let ghost p = |x: BoardPin| names_pin(x, value@);
        let mut k: usize = 0;
        while k < self.board_pins.len()
            invariant
                k <= self.board_pins@.len(),
                p == (|x: BoardPin| names_pin(x, value@)),
                forall|j: int| 0 <= j < k ==> !p(#[trigger] self.board_pins@[j]),
            decreases self.board_pins.len() - k,
        {
            if names_pin_exec(&self.board_pins[k], value) {
                proof {
                    lemma_find_first(self.board_pins@, p, k as int);
                }
                return Some(k);
            }
            k = k + 1;
        }
        proof {
            lemma_find_first(self.board_pins@, p, k as int);
        }
        None
    }

    fn chip_has_pin(&self, value: &[char]) -> (r: bool)
        ensures
            r == exists|i: int| 0 <= i < self.chip_pins_spec().len() && ieq(#[trigger] self.chip_pins_spec()[i].name@, value@),
    {
        let mut k: usize = 0;
        while k < self.chip_pins.len()
            invariant
                k <= self.chip_pins@.len(),
                forall|j: int| 0 <= j < k ==> !ieq(#[trigger] self.chip_pins@[j].name@, value@),
            decreases self.chip_pins.len() - k,
        {
            if ieq_chars(self.chip_pins[k].name.as_slice(), value) {
                proof {
                    assert(ieq(self.chip_pins_spec()[k as int].name@, value@));
                }
                return true;
            }
            k = k + 1;
        }
        false
    }

    /// The verdict on a literal pin argument naming the board pin `bi`.
    fn pin_verdict_exec(&self, res: &ResourceRequirement, b: &Vec<(Vec<char>, Vec<char>)>, bi: usize) -> (r: Result<Candidate, CallIssue>)
        requires
            bi < self.board_pins_spec().len(),
        ensures
            match r {
                Ok(c) => self.cand_ok(c) && pin_verdict(*self, *res, pairs_view(b@), bi as int) == Ok::<CandV, (Seq<char>, Seq<char>)>(self.cand_view(c)),
                Err(e) => pin_verdict(*self, *res, pairs_view(b@), bi as int) == Err::<CandV, (Seq<char>, Seq<char>)>(issue_view(e)),
            },
    {
        let pin = &self.board_pins[bi];
        let name = pin.name.as_slice();
        if !pin.available {
            return Err(mk_issue("PIN002", join3("引脚 ", name, " 在当前开发板不可用").as_slice()));
        }
        match &pin.reserved {
            Some(rv) => {
                if word_is(rv.0.as_slice(), "error") && !res.allow_reserved {
                    let mut m = join3("引脚 ", name, " 被保留: ");
                    append_chars(&mut m, rv.1.as_slice());
                    return Err(mk_issue("BOARD001", m.as_slice()));
                }
            },
            None => {},
        }
        match &pin.occupied {
            Some(ov) => {
                if !ov.1 || !res.allow_releasable {
                    let mut m = join3("引脚 ", name, " 已被板载设备 ");
                    append_chars(&mut m, ov.0.as_slice());
                    append_str(&mut m, " 占用");
                    return Err(mk_issue("PIN005", m.as_slice()));
                }
            },
            None => {},
        }
        let (ci, idx) = self.pin_capabilities(pin, res);
        let ghost caps = pin_caps(*self, *pin, *res);
        let ghost bv = pairs_view(b@);
        let ghost rb = pairs_view(res.bindings@);
        let ghost p = |c: Capability| compatible(bv, rb, CandV::Pin(pin.chip_pin@, c));
        let mut k: usize = 0;
        while k < idx.len()
            invariant
                k <= idx@.len(),
                caps == pin_caps(*self, *pin, *res),
                caps_at(self.chip_pins_spec()[ci as int].capabilities@, idx@) == caps,
                idx@.len() > 0 ==> ci < self.chip_pins_spec().len(),
                forall|j: int| 0 <= j < idx@.len() ==> (#[trigger] idx@[j]) < self.chip_pins_spec()[ci as int].capabilities@.len(),
                bi < self.board_pins_spec().len(),
                *pin == self.board_pins_spec()[bi as int],
                bv == pairs_view(b@),
                rb == pairs_view(res.bindings@),
                p == (|c: Capability| compatible(bv, rb, CandV::Pin(pin.chip_pin@, c))),
                forall|j: int| 0 <= j < k ==> !p(#[trigger] caps[j]),
            decreases idx.len() - k,
        {
            let c = Candidate::Pin(bi, ci, idx[k]);
            proof {
                assert(caps[k as int] == self.chip_pins_spec()[ci as int].capabilities@[idx@[k as int] as int]);
                assert(self.cand_view(c) == CandV::Pin(pin.chip_pin@, caps[k as int]));
            }
            if self.bindings_compatible(b, &res.bindings, &c) {
                proof {
                    lemma_find_first(caps, p, k as int);
                }
                return Ok(c);
            }
            k = k + 1;
        }
        proof {
            lemma_find_first(caps, p, k as int);
        }
        if idx.len() > 0 {
            Err(mk_issue("PIN004", join3("引脚 ", name, " 与同一调用中的外设或 route 不一致").as_slice()))
        } else {
            Err(mk_issue("PIN003", join3("引脚 ", name, " 不支持参数要求的功能").as_slice()))
        }
    }

    /// What an argument of a parameter requiring `res` resolves to, given
    /// the slots `b` earlier arguments bound (see [`resolve`]).
    fn resolve_argument(&self, res: &ResourceRequirement, arg: &[char], b: &Vec<(Vec<char>, Vec<char>)>) -> (r: Result<Candidate, CallIssue>)
        ensures
            match r {
                Ok(c) => self.cand_ok(c) && resolve(*self, *res, arg@, pairs_view(b@)) == Ok::<CandV, (Seq<char>, Seq<char>)>(self.cand_view(c)),
                Err(e) => resolve(*self, *res, arg@, pairs_view(b@)) == Err::<CandV, (Seq<char>, Seq<char>)>(issue_view(e)),
            },
    {
        if word_is(res.kind.as_slice(), "peripheral") {
            let quoted = lua_string_literal(arg);
            if !is_lua_integer_literal(arg) && quoted.is_none() {
                return Ok(Candidate::Blank);
            }
            let value = strip_lua_literal(arg);
            match self.find_periph(res, value.as_slice()) {
                None => Err(mk_issue("API002", join3("外设实例 ", value.as_slice(), " 不存在于当前芯片").as_slice())),
                Some(i) => {
                    let c = Candidate::Periph(i);
                    if self.bindings_compatible(b, &res.bindings, &c) {
                        Ok(c)
                    } else {
                        let m = chars_of("外设实例与已选择的引脚路由不一致");
                        Err(mk_issue("PIN004", m.as_slice()))
                    }
                },
            }
        } else if !word_is(res.kind.as_slice(), "pin") {
            Ok(Candidate::Blank)
        } else {
            match lua_string_literal(arg) {
                None => Ok(Candidate::Blank),
                Some(value) => match self.find_board_pin(value.as_slice()) {
                    Some(bi) => self.pin_verdict_exec(res, b, bi),
                    None => if self.chip_has_pin(value.as_slice()) {
                        Err(mk_issue("PIN002", join3("引脚 ", value.as_slice(), " 未由当前开发板引出").as_slice()))
                    } else {
                        let mut m = chars_of("当前芯片不存在引脚 ");
                        append_chars(&mut m, value.as_slice());
                        Err(mk_issue("PIN001", m.as_slice()))
                    },
                },
            }
        }
    }
}

// ─── checking a call ────────────────────────────────────────────────────

/// Parameters that are neither optional nor variadic.
pub open spec fn required_count(ps: Seq<ApiParam>) -> nat
    decreases ps.len(),
{
    if ps.len() == 0 {
        0
    } else {
        required_count(ps.drop_last()) + if !ps.last().optional && !ps.last().variadic {
            1nat
        } else {
            0nat
        }
    }
}

/// The last parameter takes any number of further arguments.
pub open spec fn accepts_extra(ov: ApiOverload) -> bool {
    ov.params@.len() > 0 && ov.params@.last().variadic
}

/// The overload accepts `n` arguments.
pub open spec fn arity_ok(ov: ApiOverload, n: nat) -> bool {
    n >= required_count(ov.params@) && (accepts_extra(ov) || n <= ov.params@.len())
}

/// The parameter the argument at position `k` fills.
pub open spec fn param_at(ov: ApiOverload, k: int) -> Option<ApiParam> {
    if 0 <= k < ov.params@.len() {
        Some(ov.params@[k])
    } else if accepts_extra(ov) {
        Some(ov.params@.last())
    } else {
        None
    }
}

/// Views of strings.
pub open spec fn strings_view(v: Seq<String>) -> Seq<Seq<char>> {
    v.map_values(|x: String| x@)
}

/// Views of issues.
pub open spec fn issues_view(v: Seq<CallIssue>) -> Seq<(Seq<char>, Seq<char>)> {
    v.map_values(|e: CallIssue| issue_view(e))
}

/// The issues found in the arguments `args` of a call to the overload
/// `ov`, and the slots they bound, checking the arguments in order.
pub open spec fn check_args(p: TargetProfile, ov: ApiOverload, args: Seq<Seq<char>>) -> (
    Seq<(Seq<char>, Seq<char>)>,
    Seq<(Seq<char>, Seq<char>)>,
)
    decreases args.len(),
{
    if args.len() == 0 {
        (Seq::empty(), Seq::empty())
    } else {
        let prev = check_args(p, ov, args.drop_last());
        let k = args.len() - 1;
        let arg = args[k];
        match param_at(ov, k) {
            None => prev,
            Some(prm) => match prm.resource {
                None => if is_lit(arg) && !lit_matches(arg, prm.ty@) {
                    (prev.0.push(("API002"@, "参数 "@ + prm.name@ + " 应为 "@ + prm.ty@)), prev.1)
                } else {
                    prev
                },
                Some(res) => match resolve(p, res, arg, prev.1) {
                    Ok(c) => (prev.0, merge(prev.1, pairs_view(res.bindings@), c)),
                    Err(e) => (prev.0.push(e), prev.1),
                },
            },
        }
    }
}

/// The first overload of `f` that accepts `n` arguments.
pub open spec fn overload_for(f: ApiFunction, n: nat) -> Option<int> {
    find_first(f.overloads@, |ov: ApiOverload| arity_ok(ov, n))
}

/// The issues a call `module.name(args)` (or `name(args)`) has.
pub open spec fn call_issues(p: TargetProfile, module: Option<Seq<char>>, name: Seq<char>, args: Seq<Seq<char>>) -> Seq<
    (Seq<char>, Seq<char>),
> {
    match profile_function(p, module, name) {
        None => seq![(
            "API001"@,
            match module {
                Some(m) => "当前固件 API 不包含 "@ + m + "."@ + name,
                None => "当前固件 API 不包含 "@ + name,
            },
        )],
        Some(f) => match overload_for(f, args.len()) {
            None => seq![("API002"@, f.name@ + " 的参数数量与任何重载均不匹配"@)],
            Some(i) => check_args(p, f.overloads@[i], args).0,
        },
    }
}

/// The slots the arguments `args` bind, each parameter with a resource
/// resolved in order; arguments past the parameters are ignored.
pub open spec fn bind_args(p: TargetProfile, ov: ApiOverload, args: Seq<Seq<char>>) -> Seq<(Seq<char>, Seq<char>)>
    decreases args.len(),
{
    if args.len() == 0 {
        Seq::empty()
    } else {
        let prev = bind_args(p, ov, args.drop_last());
        let k = args.len() - 1;
        if k >= ov.params@.len() {
            prev
        } else {
            match ov.params@[k].resource {
                None => prev,
                Some(res) => match resolve(p, res, args[k], prev) {
                    Ok(c) => merge(prev, pairs_view(res.bindings@), c),
                    Err(_) => prev,
                },
            }
        }
    }
}

fn required_params(ov: &ApiOverload) -> (n: usize)
    ensures
        n == required_count(ov.params@),
{
    let mut n: usize = 0;
    let mut i: usize = 0;
    while i < ov.params.len()
        invariant
            i <= ov.params@.len(),
            n <= i,
            n == required_count(ov.params@.take(i as int)),
        decreases ov.params.len() - i,
    {
        proof {
            assert(ov.params@.take(i + 1).drop_last() =~= ov.params@.take(i as int));
        }
        if !ov.params[i].optional && !ov.params[i].variadic {
            n = n + 1;
        }
        i = i + 1;
    }
    proof {
        assert(ov.params@.take(i as int) =~= ov.params@);
    }
    n
}

fn find_overload(f: &ApiFunction, n: usize) -> (r: Option<usize>)
    ensures
        match r {
            Some(i) => overload_for(*f, n as nat) == Some(i as int),
            None => overload_for(*f, n as nat) is None,
        },
{
    let ghost p = |ov: ApiOverload| arity_ok(ov, n as nat);
    let mut k: usize = 0;
    while k < f.overloads.len()
        invariant
            k <= f.overloads@.len(),
            p == (|ov: ApiOverload| arity_ok(ov, n as nat)),
            forall|j: int| 0 <= j < k ==> !p(#[trigger] f.overloads@[j]),
        decreases f.overloads.len() - k,
    {
        let ov = &f.overloads[k];
        let req = required_params(ov);
        let extra = ov.params.len() > 0 && ov.params[ov.params.len() - 1].variadic;
        if n >= req && (extra || n <= ov.params.len()) {
            proof {
                lemma_find_first(f.overloads@, p, k as int);
            }
            return Some(k);
        }
        k = k + 1;
    }
    proof {
        lemma_find_first(f.overloads@, p, k as int);
    }
    None
}

/// The parameter the argument at position `k` fills.
fn param_for(ov: &ApiOverload, k: usize) -> (r: Option<&ApiParam>)
    ensures
        match r {
            Some(x) => param_at(*ov, k as int) == Some(*x),
            None => param_at(*ov, k as int) is None,
        },
{
    let n = ov.params.len();
    if k < n {
        Some(&ov.params[k])
    } else if n > 0 && ov.params[n - 1].variadic {
        Some(&ov.params[n - 1])
    } else {
        None
    }
}

fn str_opt(m: Option<&str>) -> (r: Option<Vec<char>>)
    ensures
        opt_chars(r) == match m {
            Some(x) => Some(x@),
            None => None,
        },
{
    match m {
        Some(x) => Some(chars_of(x)),
        None => None,
    }
}

fn vec_opt(m: &Option<Vec<char>>) -> (r: Option<&[char]>)
    ensures
        opt_view(r) == opt_chars(*m),
{
    match m {
        Some(x) => Some(x.as_slice()),
        None => None,
    }
}

impl TargetProfile {
    /// Checks the arguments of a call to the overload `ov`.
    fn check_arguments(&self, ov: &ApiOverload, arguments: &[String]) -> (r: Vec<CallIssue>)
        ensures
            issues_view(r@) == check_args(*self, *ov, strings_view(arguments@)).0,
    {
        let ghost av = strings_view(arguments@);
        let mut issues: Vec<CallIssue> = Vec::new();
        let mut b: Vec<(Vec<char>, Vec<char>)> = Vec::new();
        let mut k: usize = 0;
        proof {
            assert(av.take(0) =~= Seq::<Seq<char>>::empty());
            assert(issues_view(issues@) =~= Seq::<(Seq<char>, Seq<char>)>::empty());
            assert(pairs_view(b@) =~= Seq::<(Seq<char>, Seq<char>)>::empty());
        }
        while k < arguments.len()
            invariant
                k <= arguments@.len(),
                av == strings_view(arguments@),
                issues_view(issues@) == check_args(*self, *ov, av.take(k as int)).0,
                pairs_view(b@) == check_args(*self, *ov, av.take(k as int)).1,
            decreases arguments.len() - k,
        {
            proof {
                assert(av.take(k + 1).drop_last() =~= av.take(k as int));
                assert(av.take(k + 1)[k as int] == arguments@[k as int]@);
            }
            let arg = chars_of(arguments[k].as_str());
            match param_for(ov, k) {
                None => {},
                Some(prm) => match &prm.resource {
                    None => {
                        if is_lua_literal(arg.as_slice()) && !literal_matches_type(arguments[k].as_str(), string_from(prm.ty.as_slice()).as_str()) {
                            let mut m = chars_of("参数 ");
                            append_chars(&mut m, prm.name.as_slice());
                            append_str(&mut m, " 应为 ");
                            append_chars(&mut m, prm.ty.as_slice());
                            let e = mk_issue("API002", m.as_slice());
                            let ghost before = issues@;
                            issues.push(e);
                            proof {
                                assert(issues_view(issues@) =~= issues_view(before).push(issue_view(e)));
                            }
                        }
                    },
                    Some(res) => {
                        match self.resolve_argument(res, arg.as_slice(), &b) {
                            Ok(c) => self.merge_bindings(&mut b, &res.bindings, &c),
                            Err(e) => {
                                let ghost before = issues@;
                                issues.push(e);
                                proof {
                                    assert(issues_view(issues@) =~= issues_view(before).push(issue_view(e)));
                                }
                            },
                        }
                    },
                },
            }
            k = k + 1;
        }
        proof {
            assert(av.take(k as int) =~= av);
        }
        issues
    }

    /// The slots the arguments bind (see [`bind_args`]).
    fn bindings_from_arguments(&self, ov: &ApiOverload, arguments: &[String]) -> (r: Vec<(Vec<char>, Vec<char>)>)
        ensures
            pairs_view(r@) == bind_args(*self, *ov, strings_view(arguments@)),
    {
        let ghost av = strings_view(arguments@);
        let mut b: Vec<(Vec<char>, Vec<char>)> = Vec::new();
        let mut k: usize = 0;
        proof {
            assert(av.take(0) =~= Seq::<Seq<char>>::empty());
            assert(pairs_view(b@) =~= Seq::<(Seq<char>, Seq<char>)>::empty());
        }
        while k < arguments.len()
            invariant
                k <= arguments@.len(),
                av == strings_view(arguments@),
                pairs_view(b@) == bind_args(*self, *ov, av.take(k as int)),
            decreases arguments.len() - k,
        {
            proof {
                assert(av.take(k + 1).drop_last() =~= av.take(k as int));
                assert(av.take(k + 1)[k as int] == arguments@[k as int]@);
            }
            if k < ov.params.len() {
                match &ov.params[k].resource {
                    None => {},
                    Some(res) => {
                        let arg = chars_of(arguments[k].as_str());
                        match self.resolve_argument(res, arg.as_slice(), &b) {
                            Ok(c) => self.merge_bindings(&mut b, &res.bindings, &c),
                            Err(_) => {},
                        }
                    },
                }
            }
            k = k + 1;
        }
        proof {
            assert(av.take(k as int) =~= av);
        }
        b
    }

    /// The issues of the call `module.function_name(arguments)`, or of the
    /// global call when `module` is `None`: an unknown function, an argument
    /// count no overload accepts, literals of the wrong type, and pins or
    /// peripherals the target cannot provide (see [`call_issues`]).
    pub fn validate_call(&self, module: Option<&str>, function_name: &str, arguments: &[String]) -> (r: Vec<CallIssue>)
        ensures
            issues_view(r@) == call_issues(*self, match module {
                Some(m) => Some(m@),
                None => None,
            }, function_name@, strings_view(arguments@)),
    {
        let m = str_opt(module);
        let name = chars_of(function_name);
        match self.function(vec_opt(&m), name.as_slice()) {
            None => {
                let mut msg = chars_of("当前固件 API 不包含 ");
                match &m {
                    Some(mv) => {
                        append_chars(&mut msg, mv.as_slice());
                        append_str(&mut msg, ".");
                    },
                    None => {},
                }
                append_chars(&mut msg, name.as_slice());
                let e = mk_issue("API001", msg.as_slice());
                let mut out: Vec<CallIssue> = Vec::new();
                out.push(e);
                proof {
                    assert(issues_view(out@) =~= call_issues(*self, match module {
                        Some(mm) => Some(mm@),
                        None => None,
                    }, function_name@, strings_view(arguments@)));
                }
                out
            },
            Some(f) => match find_overload(f, arguments.len()) {
                None => {
                    let mut msg = clone_chars(&f.name);
                    append_str(&mut msg, " 的参数数量与任何重载均不匹配");
                    let e = mk_issue("API002", msg.as_slice());
                    let mut out: Vec<CallIssue> = Vec::new();
                    out.push(e);
                    proof {
                        assert(issues_view(out@) =~= call_issues(*self, match module {
                            Some(mm) => Some(mm@),
                            None => None,
                        }, function_name@, strings_view(arguments@)));
                    }
                    out
                },
                Some(i) => self.check_arguments(&f.overloads[i], arguments),
            },
        }
    }
}

// ─── completions ────────────────────────────────────────────────────────

/// `x` inserted into `s` before the first element it comes `before`:
/// one step of a stable insertion sort.
pub open spec fn ins_sorted<A>(s: Seq<A>, x: A, before: spec_fn(A, A) -> bool) -> Seq<A>
    decreases s.len(),
{
    if s.len() == 0 {
        seq![x]
    } else if before(x, s[0]) {
        seq![x] + s
    } else {
        seq![s[0]] + ins_sorted(s.drop_first(), x, before)
    }
}

/// `s` stably sorted by `before`: equal elements keep their order.
pub open spec fn sort_stable<A>(s: Seq<A>, before: spec_fn(A, A) -> bool) -> Seq<A>
    decreases s.len(),
{
    if s.len() == 0 {
        s
    } else {
        ins_sorted(sort_stable(s.drop_last(), before), s.last(), before)
    }
}

/// `before` is a strict order: never both ways round, and passed along chains.
pub open spec fn strict_order<A>(before: spec_fn(A, A) -> bool) -> bool {
    &&& forall|x: A, y: A| #[trigger] before(x, y) ==> !before(y, x)
    &&& forall|x: A, y: A, z: A| #[trigger] before(x, y) && #[trigger] before(y, z) ==> before(x, z)
}

/// No element of `s` comes `before` an element that stands ahead of it.
pub open spec fn sorted_by<A>(s: Seq<A>, before: spec_fn(A, A) -> bool) -> bool {
    forall|i: int, j: int| 0 <= i < j < s.len() ==> !before(#[trigger] s[j], #[trigger] s[i])
}

proof fn lemma_ins_sorted<A>(s: Seq<A>, x: A, before: spec_fn(A, A) -> bool)
    requires
        strict_order(before),
        sorted_by(s, before),
    ensures
        sorted_by(ins_sorted(s, x, before), before),
        ins_sorted(s, x, before).to_multiset() == s.to_multiset().insert(x),
    decreases s.len(),
{
    broadcast use vstd::seq_lib::group_to_multiset_ensures;
    broadcast use vstd::multiset::group_multiset_axioms;

    let r = ins_sorted(s, x, before);
    if s.len() == 0 {
        assert(r =~= Seq::<A>::empty().push(x));
        assert(s =~= Seq::<A>::empty());
    } else if before(x, s[0]) {
        assert(r =~= s.insert(0, x));
        assert forall|i: int, j: int| 0 <= i < j < r.len() implies !before(#[trigger] r[j], #[trigger] r[i]) by {
            if i == 0 {
                assert(r[j] == s[j - 1]);
                if before(s[j - 1], x) {
                    if j - 1 > 0 {
                        assert(before(s[j - 1], s[0]));
                    }
                }
            } else {
                assert(r[i] == s[i - 1] && r[j] == s[j - 1]);
            }
        }
    } else {
        let rest = s.drop_first();
        assert(sorted_by(rest, before)) by {
            assert forall|i: int, j: int| 0 <= i < j < rest.len() implies !before(#[trigger] rest[j], #[trigger] rest[i]) by {
                assert(rest[i] == s[i + 1] && rest[j] == s[j + 1]);
            }
        }
        lemma_ins_sorted(rest, x, before);
        let t = ins_sorted(rest, x, before);
        assert(r =~= t.insert(0, s[0]));
        assert(s =~= rest.insert(0, s[0]));
        assert(r.to_multiset() =~= s.to_multiset().insert(x));
        assert forall|i: int, j: int| 0 <= i < j < r.len() implies !before(#[trigger] r[j], #[trigger] r[i]) by {
            if i == 0 {
                let e = t[j - 1];
                assert(r[j] == e);
                assert(t.contains(e));
                assert(t.to_multiset().count(e) > 0);
                if e != x {
                    assert(rest.to_multiset().count(e) > 0);
                    assert(rest.contains(e));
                    let k = choose|k: int| 0 <= k < rest.len() && rest[k] == e;
                    assert(s[k + 1] == e);
                }
            } else {
                assert(r[i] == t[i - 1] && r[j] == t[j - 1]);
            }
        }
    }
}

/// Sorting keeps every element, as often as it occurs, and puts the
/// elements in order: for a strict order `before`, no element of
/// `sort_stable(s, before)` comes `before` one that stands ahead of it.
pub proof fn law_sort_stable<A>(s: Seq<A>, before: spec_fn(A, A) -> bool)
    requires
        strict_order(before),
    ensures
        sorted_by(sort_stable(s, before), before),
        sort_stable(s, before).to_multiset() == s.to_multiset(),
    decreases s.len(),
{
    broadcast use vstd::seq_lib::group_to_multiset_ensures;

    if s.len() > 0 {
        law_sort_stable(s.drop_last(), before);
        lemma_ins_sorted(sort_stable(s.drop_last(), before), s.last(), before);
        assert(s =~= s.drop_last().push(s.last()));
    }
}

/// Completions ordered by label.
pub open spec fn by_label() -> spec_fn((Seq<char>, Seq<char>, Seq<char>), (Seq<char>, Seq<char>, Seq<char>)) -> bool {
    |x: (Seq<char>, Seq<char>, Seq<char>), y: (Seq<char>, Seq<char>, Seq<char>)| str_lt(x.0, y.0)
}

/// Ranked completions ordered by preference, highest first, then label.
pub open spec fn by_rank() -> spec_fn((int, (Seq<char>, Seq<char>, Seq<char>)), (int, (Seq<char>, Seq<char>, Seq<char>))) -> bool {
    |x: (int, (Seq<char>, Seq<char>, Seq<char>)), y: (int, (Seq<char>, Seq<char>, Seq<char>))|
        x.0 > y.0 || (x.0 == y.0 && str_lt(x.1.0, y.1.0))
}

proof fn lemma_by_label_strict()
    ensures
        strict_order(by_label()),
{
    assert forall|x: (Seq<char>, Seq<char>, Seq<char>), y: (Seq<char>, Seq<char>, Seq<char>)| #[trigger]
        by_label()(x, y) implies !by_label()(y, x) by {
        crate::fontpack::law_str_lt_order(x.0, y.0, y.0);
    }
    assert forall|x: (Seq<char>, Seq<char>, Seq<char>), y: (Seq<char>, Seq<char>, Seq<char>), z: (
        Seq<char>,
        Seq<char>,
        Seq<char>,
    )| #[trigger] by_label()(x, y) && #[trigger] by_label()(y, z) implies by_label()(x, z) by {
        crate::fontpack::law_str_lt_order(x.0, y.0, z.0);
    }
}

proof fn lemma_by_rank_strict()
    ensures
        strict_order(by_rank()),
{
    assert forall|x: (int, (Seq<char>, Seq<char>, Seq<char>)), y: (int, (Seq<char>, Seq<char>, Seq<char>))| #[trigger]
        by_rank()(x, y) implies !by_rank()(y, x) by {
        crate::fontpack::law_str_lt_order(x.1.0, y.1.0, y.1.0);
    }
    assert forall|
        x: (int, (Seq<char>, Seq<char>, Seq<char>)),
        y: (int, (Seq<char>, Seq<char>, Seq<char>)),
        z: (int, (Seq<char>, Seq<char>, Seq<char>)),
    | #[trigger] by_rank()(x, y) && #[trigger] by_rank()(y, z) implies by_rank()(x, z) by {
        crate::fontpack::law_str_lt_order(x.1.0, y.1.0, z.1.0);
    }
}

/// Global completions come ordered by label (no label is less than one
/// ahead of it), and they are exactly the completions for the global
/// functions and the modules that the prefix fits, each as often as it
/// occurs there.
pub proof fn law_global_completions_sorted(p: TargetProfile, prefix: Seq<char>)
    ensures
        forall|i: int, j: int|
            0 <= i < j < global_items(p, prefix).len() ==> !str_lt(
                #[trigger] global_items(p, prefix)[j].0,
                #[trigger] global_items(p, prefix)[i].0,
            ),
        global_items(p, prefix).to_multiset() == (fn_items(p.globals_spec(), prefix) + module_items(
            p.modules_spec(),
            prefix,
        )).to_multiset(),
{
    lemma_by_label_strict();
    law_sort_stable(fn_items(p.globals_spec(), prefix) + module_items(p.modules_spec(), prefix), by_label());
    let r = global_items(p, prefix);
    assert forall|i: int, j: int| 0 <= i < j < r.len() implies !str_lt(#[trigger] r[j].0, #[trigger] r[i].0) by {
        assert(!by_label()(r[j], r[i]));
    }
}

/// Member completions of a module come ordered by label, and they are
/// exactly the completions for the module's functions that the prefix
/// fits (none for an unknown module).
pub proof fn law_member_completions_sorted(p: TargetProfile, module: Seq<char>, prefix: Seq<char>)
    ensures
        forall|i: int, j: int|
            0 <= i < j < member_items(p, module, prefix).len() ==> !str_lt(
                #[trigger] member_items(p, module, prefix)[j].0,
                #[trigger] member_items(p, module, prefix)[i].0,
            ),
        member_items(p, module, prefix).to_multiset() == (match module_named(p.modules_spec(), module) {
            Some(i) => fn_items(p.modules_spec()[i].functions@, prefix),
            None => Seq::empty(),
        }).to_multiset(),
{
    lemma_by_label_strict();
    if let Some(k) = module_named(p.modules_spec(), module) {
        law_sort_stable(fn_items(p.modules_spec()[k].functions@, prefix), by_label());
        let r = member_items(p, module, prefix);
        assert forall|i: int, j: int| 0 <= i < j < r.len() implies !str_lt(#[trigger] r[j].0, #[trigger] r[i].0) by {
            assert(!by_label()(r[j], r[i]));
        }
    }
}

proof fn lemma_codes_differ()
    ensures
        "API002"@ != "API001"@,
        "PIN001"@ != "API001"@,
        "PIN002"@ != "API001"@,
        "PIN003"@ != "API001"@,
        "PIN004"@ != "API001"@,
        "PIN005"@ != "API001"@,
        "BOARD001"@ != "API001"@,
{
    reveal_strlit("API001");
    reveal_strlit("API002");
    reveal_strlit("PIN001");
    reveal_strlit("PIN002");
    reveal_strlit("PIN003");
    reveal_strlit("PIN004");
    reveal_strlit("PIN005");
    reveal_strlit("BOARD001");
    assert("API002"@[5] != "API001"@[5]);
    assert("PIN001"@[0] != "API001"@[0]);
    assert("PIN002"@[0] != "API001"@[0]);
    assert("PIN003"@[0] != "API001"@[0]);
    assert("PIN004"@[0] != "API001"@[0]);
    assert("PIN005"@[0] != "API001"@[0]);
    assert("BOARD001"@.len() != "API001"@.len());
}

proof fn lemma_check_args_codes(p: TargetProfile, ov: ApiOverload, args: Seq<Seq<char>>)
    ensures
        forall|k: int| 0 <= k < check_args(p, ov, args).0.len() ==> (#[trigger] check_args(p, ov, args).0[k]).0 != "API001"@,
    decreases args.len(),
{
    lemma_codes_differ();
    if args.len() > 0 {
        lemma_check_args_codes(p, ov, args.drop_last());
        let prev = check_args(p, ov, args.drop_last());
        assert forall|k: int| 0 <= k < check_args(p, ov, args).0.len() implies (#[trigger] check_args(p, ov, args).0[k]).0 != "API001"@ by {
            if k < prev.0.len() {
                assert(prev.0[k].0 != "API001"@);
            }
        }
    }
}

/// A global call gets the single `API001` issue, "not in the firmware
/// API", exactly when the API has no global function of that name.
pub proof fn law_unknown_global(p: TargetProfile, name: Seq<char>, args: Seq<Seq<char>>)
    ensures
        function_named(p.globals_spec(), name) is None <==> call_issues(p, None, name, args) == seq![
            ("API001"@, "当前固件 API 不包含 "@ + name),
        ],
{
    lemma_codes_differ();
    if let Some(j) = function_named(p.globals_spec(), name) {
        let f = p.globals_spec()[j];
        match overload_for(f, args.len()) {
            None => {
                assert(call_issues(p, None, name, args)[0].0 != "API001"@);
            },
            Some(i) => {
                lemma_check_args_codes(p, f.overloads@[i], args);
                let r = check_args(p, f.overloads@[i], args).0;
                if r.len() > 0 {
                    assert(r[0].0 != "API001"@);
                }
            },
        }
    }
}

/// Pins are offered only for a known call; each item's label is also its
/// insert text; and there are no more items than board pins.
pub proof fn law_resource_items_are_pins(
    p: TargetProfile,
    module: Option<Seq<char>>,
    name: Seq<char>,
    idx: int,
    prior: Seq<Seq<char>>,
)
    ensures
        profile_function(p, module, name) is None ==> resource_items(p, module, name, idx, prior).len() == 0,
        forall|k: int|
            0 <= k < resource_items(p, module, name, idx, prior).len() ==> (#[trigger] resource_items(
                p,
                module,
                name,
                idx,
                prior,
            )[k]).0 == resource_items(p, module, name, idx, prior)[k].1,
        resource_items(p, module, name, idx, prior).len() <= p.board_pins_spec().len(),
{
    broadcast use vstd::seq_lib::group_to_multiset_ensures;

    if let Some(f) = profile_function(p, module, name) {
        if let Some(i) = overload_with(f, idx) {
            if let Some(res) = f.overloads@[i].params@[idx].resource {
                if res.kind@ == "pin"@ {
                    let b = bind_args(p, f.overloads@[i], prior);
                    let items = pin_items(p, res, b, p.board_pins_spec());
                    lemma_pin_items_shape(p, res, b, p.board_pins_spec());
                    lemma_by_rank_strict();
                    law_sort_stable(items, by_rank());
                    let sorted = sort_stable(items, by_rank());
                    assert(sorted.len() == items.len()) by {
                        assert(sorted.to_multiset().len() == items.to_multiset().len());
                    }
                    let r = resource_items(p, module, name, idx, prior);
                    assert forall|k: int| 0 <= k < r.len() implies (#[trigger] r[k]).0 == r[k].1 by {
                        assert(r[k] == sorted[k].1);
                        assert(sorted.to_multiset().count(sorted[k]) > 0);
                        assert(items.to_multiset().count(sorted[k]) > 0);
                        assert(items.contains(sorted[k]));
                    }
                }
            }
        }
    }
}

proof fn lemma_pin_items_shape(p: TargetProfile, res: ResourceRequirement, b: Seq<(Seq<char>, Seq<char>)>, pins: Seq<BoardPin>)
    ensures
        pin_items(p, res, b, pins).len() <= pins.len(),
        forall|k: int|
            0 <= k < pin_items(p, res, b, pins).len() ==> (#[trigger] pin_items(p, res, b, pins)[k]).1.0 == pin_items(
                p,
                res,
                b,
                pins,
            )[k].1.1,
    decreases pins.len(),
{
    if pins.len() > 0 {
        lemma_pin_items_shape(p, res, b, pins.drop_last());
    }
}

/// No two of the functions share a name.
pub open spec fn fn_names_distinct(fs: Seq<ApiFunction>) -> bool {
    forall|i: int, j: int| 0 <= i < j < fs.len() ==> (#[trigger] fs[i]).name@ != (#[trigger] fs[j]).name@
}

proof fn lemma_fn_items_labels(fs: Seq<ApiFunction>, prefix: Seq<char>)
    ensures
        forall|k: int|
            0 <= k < fn_items(fs, prefix).len() ==> exists|a: int|
                0 <= a < fs.len() && #[trigger] fn_items(fs, prefix)[k].0 == fs[a].name@,
        fn_names_distinct(fs) ==> forall|i: int, j: int|
            0 <= i < j < fn_items(fs, prefix).len() ==> (#[trigger] fn_items(fs, prefix)[i]).0 != (
            #[trigger] fn_items(fs, prefix)[j]).0,
    decreases fs.len(),
{
    if fs.len() > 0 {
        let d = fs.drop_last();
        lemma_fn_items_labels(d, prefix);
        let prev = fn_items(d, prefix);
        let cur = fn_items(fs, prefix);
        assert forall|k: int| 0 <= k < cur.len() implies exists|a: int|
            0 <= a < fs.len() && #[trigger] cur[k].0 == fs[a].name@ by {
            if k < prev.len() {
                let a = choose|a: int| 0 <= a < d.len() && #[trigger] prev[k].0 == d[a].name@;
                assert(cur[k] == prev[k]);
                assert(d[a] == fs[a]);
            } else {
                assert(cur[k].0 == fs[fs.len() - 1].name@);
            }
        }
        if fn_names_distinct(fs) {
            assert(fn_names_distinct(d)) by {
                assert forall|i: int, j: int| 0 <= i < j < d.len() implies (#[trigger] d[i]).name@ != (#[trigger] d[j]).name@ by {
                    assert(d[i] == fs[i]);
                    assert(d[j] == fs[j]);
                }
            }
            assert forall|i: int, j: int| 0 <= i < j < cur.len() implies (#[trigger] cur[i]).0 != (#[trigger] cur[j]).0 by {
                if j < prev.len() {
                    assert(cur[i] == prev[i]);
                    assert(cur[j] == prev[j]);
                } else {
                    assert(cur[i] == prev[i]);
                    let a = choose|a: int| 0 <= a < d.len() && #[trigger] prev[i].0 == d[a].name@;
                    assert(d[a] == fs[a]);
                    assert(cur[j].0 == fs[fs.len() - 1].name@);
                }
            }
        }
    }
}

/// In a profile that names each part once (as every profile the builders
/// make does, see `law_profile_names_unique`), the member completions of a
/// module come in strictly increasing label order: no label repeats.
pub proof fn law_member_labels_increase(p: TargetProfile, module: Seq<char>, prefix: Seq<char>)
    requires
        names_unique(profile_view(p)),
    ensures
        forall|i: int, j: int|
            0 <= i < j < member_items(p, module, prefix).len() ==> str_lt(
                #[trigger] member_items(p, module, prefix)[i].0,
                #[trigger] member_items(p, module, prefix)[j].0,
            ),
{
    broadcast use vstd::seq_lib::group_to_multiset_ensures;

    law_member_completions_sorted(p, module, prefix);
    if let Some(m) = module_named(p.modules_spec(), module) {
        let fs = p.modules_spec()[m].functions@;
        assert(fn_names_distinct(fs)) by {
            let fv = profile_view(p).modules[m].functions;
            assert(fv == functions_view(fs));
            assert forall|i: int, j: int| 0 <= i < j < fs.len() implies (#[trigger] fs[i]).name@ != (#[trigger] fs[j]).name@ by {
                assert(fv[i].name == fs[i].name@);
                assert(fv[j].name == fs[j].name@);
            }
        }
        let s = fn_items(fs, prefix);
        lemma_fn_items_labels(fs, prefix);
        let r = member_items(p, module, prefix);
        assert(s.no_duplicates()) by {
            assert forall|i: int, j: int| 0 <= i < s.len() && 0 <= j < s.len() && i != j implies s[i] != s[j] by {
                if i < j {
                    assert(s[i].0 != s[j].0);
                } else {
                    assert(s[j].0 != s[i].0);
                }
            }
        }
        s.lemma_multiset_has_no_duplicates();
        r.lemma_multiset_has_no_duplicates_conv();
        assert forall|i: int, j: int| 0 <= i < j < r.len() implies str_lt(#[trigger] r[i].0, #[trigger] r[j].0) by {
            assert(!str_lt(r[j].0, r[i].0));
            law_str_lt_order(r[i].0, r[j].0, r[j].0);
            if r[i].0 == r[j].0 {
                assert(r.to_multiset().count(r[i]) > 0);
                assert(s.contains(r[i]));
                assert(r.to_multiset().count(r[j]) > 0);
                assert(s.contains(r[j]));
                let a = choose|a: int| 0 <= a < s.len() && s[a] == r[i];
                let b = choose|b: int| 0 <= b < s.len() && s[b] == r[j];
                if a < b {
                    assert(s[a].0 != s[b].0);
                } else if b < a {
                    assert(s[b].0 != s[a].0);
                }
                assert(r[i] == r[j]);
            }
        }
    }
}

proof fn lemma_modules_stage_nonempty(ms: Seq<SimpleModule>, declared: Seq<Seq<char>>)
    ensures
        modules_stage(ms, declared) is Ok ==> forall|k: int|
            0 <= k < modules_stage(ms, declared)->Ok_0.len() ==> (#[trigger] modules_stage(ms, declared)->Ok_0[k]).functions.len() > 0,
    decreases ms.len(),
{
    if ms.len() > 0 {
        lemma_modules_stage_nonempty(ms.drop_last(), declared);
    }
}

proof fn lemma_fn_items_empty_prefix(fs: Seq<ApiFunction>)
    ensures
        fn_items(fs, Seq::empty()).len() == fs.len(),
    decreases fs.len(),
{
    if fs.len() > 0 {
        lemma_fn_items_empty_prefix(fs.drop_last());
        assert(to_ascii_lowercase(Seq::<char>::empty()) =~= Seq::<char>::empty());
        assert(to_ascii_lowercase(fs.last().name@).take(0) =~= Seq::<char>::empty());
    }
}

/// In a profile built from the three simple files (no module there may be
/// empty), a module is known exactly when it offers member completions for
/// an empty prefix.
pub proof fn law_known_module_has_members(
    p: TargetProfile,
    chip: SimpleChip,
    board: SimpleBoard,
    api: SimpleApi,
    module: Seq<char>,
)
    requires
        simple_profile(chip, board, api) == Ok::<ProfileV, Seq<char>>(profile_view(p)),
    ensures
        module_named(p.modules_spec(), module) is Some <==> member_items(p, module, Seq::empty()).len() > 0,
{
    broadcast use vstd::seq_lib::group_to_multiset_ensures;

    if let Some(m) = module_named(p.modules_spec(), module) {
        let fs = p.modules_spec()[m].functions@;
        lemma_modules_stage_nonempty(api.modules@, declared_types(api));
        assert(profile_view(p).modules == modules_view(p.modules_spec()));
        assert(profile_view(p).modules[m].functions.len() == fs.len());
        assert(fs.len() > 0);
        lemma_fn_items_empty_prefix(fs);
        lemma_by_label_strict();
        law_sort_stable(fn_items(fs, Seq::empty()), by_label());
        let r = member_items(p, module, Seq::empty());
        assert(r.to_multiset().len() == fn_items(fs, Seq::empty()).to_multiset().len());
    }
}

/// Pins offered for a parameter come by preference, highest first, and
/// among equal preference by label; every pin that can serve is offered
/// once.
pub proof fn law_pin_offers_ranked(
    p: TargetProfile,
    res: ResourceRequirement,
    b: Seq<(Seq<char>, Seq<char>)>,
    pins: Seq<BoardPin>,
)
    ensures
        forall|i: int, j: int|
            0 <= i < j < sort_stable(pin_items(p, res, b, pins), by_rank()).len() ==> {
                let x = #[trigger] sort_stable(pin_items(p, res, b, pins), by_rank())[i];
                let y = #[trigger] sort_stable(pin_items(p, res, b, pins), by_rank())[j];
                x.0 > y.0 || (x.0 == y.0 && !str_lt(y.1.0, x.1.0))
            },
        sort_stable(pin_items(p, res, b, pins), by_rank()).to_multiset() == pin_items(p, res, b, pins).to_multiset(),
{
    lemma_by_rank_strict();
    law_sort_stable(pin_items(p, res, b, pins), by_rank());
    let r = sort_stable(pin_items(p, res, b, pins), by_rank());
    assert forall|i: int, j: int| 0 <= i < j < r.len() implies {
        let x = #[trigger] r[i];
        let y = #[trigger] r[j];
        x.0 > y.0 || (x.0 == y.0 && !str_lt(y.1.0, x.1.0))
    } by {
        assert(!by_rank()(r[j], r[i]));
    }
}

/// The pin parameter at `idx` of a call the API knows, with the slots the
/// earlier arguments `prior` bind: `None` where the call is unknown, no
/// overload has a parameter there, or that parameter asks for no pin.
pub open spec fn pin_parameter(
    p: TargetProfile,
    module: Option<Seq<char>>,
    name: Seq<char>,
    idx: int,
    prior: Seq<Seq<char>>,
) -> Option<(ResourceRequirement, Seq<(Seq<char>, Seq<char>)>)> {
    match profile_function(p, module, name) {
        None => None,
        Some(f) => match overload_with(f, idx) {
            None => None,
            Some(i) => match f.overloads@[i].params@[idx].resource {
                None => None,
                Some(res) => if res.kind@ != "pin"@ {
                    None
                } else {
                    Some((res, bind_args(p, f.overloads@[i], prior)))
                },
            },
        },
    }
}

/// The offer of one board pin, served through the capability `c`: its
/// preference, then (label, insert, detail), both texts the pin's name.
pub open spec fn pin_entry(pin: BoardPin, c: Capability) -> (int, (Seq<char>, Seq<char>, Seq<char>)) {
    (pin.preference as int, (pin.name@, pin.name@, detail_of(pin, c)))
}

/// The ranked offers behind the completions for the argument at `idx`.
pub open spec fn resource_ranked(
    p: TargetProfile,
    module: Option<Seq<char>>,
    name: Seq<char>,
    idx: int,
    prior: Seq<Seq<char>>,
) -> Seq<(int, (Seq<char>, Seq<char>, Seq<char>))> {
    match pin_parameter(p, module, name, idx, prior) {
        None => Seq::empty(),
        Some(rb) => sort_stable(pin_items(p, rb.0, rb.1, p.board_pins_spec()), by_rank()),
    }
}

/// `e` is the offer of one of the board pins `pins` that can serve `res`.
pub open spec fn offered_by(
    p: TargetProfile,
    res: ResourceRequirement,
    b: Seq<(Seq<char>, Seq<char>)>,
    pins: Seq<BoardPin>,
    e: (int, (Seq<char>, Seq<char>, Seq<char>)),
) -> bool {
    exists|a: int|
        0 <= a < pins.len() && #[trigger] pin_offer(p, res, b, pins[a]) is Some && e == pin_entry(
            pins[a],
            pin_offer(p, res, b, pins[a])->0,
        )
}

proof fn lemma_pin_items_from_pins(p: TargetProfile, res: ResourceRequirement, b: Seq<(Seq<char>, Seq<char>)>, pins: Seq<BoardPin>)
    ensures
        forall|k: int|
            0 <= k < pin_items(p, res, b, pins).len() ==> offered_by(p, res, b, pins, #[trigger] pin_items(p, res, b, pins)[k]),
    decreases pins.len(),
{
    if pins.len() > 0 {
        let d = pins.drop_last();
        lemma_pin_items_from_pins(p, res, b, d);
        let prev = pin_items(p, res, b, d);
        let cur = pin_items(p, res, b, pins);
        assert forall|k: int| 0 <= k < cur.len() implies offered_by(p, res, b, pins, #[trigger] cur[k]) by {
            if k < prev.len() {
                assert(offered_by(p, res, b, d, prev[k]));
                let a = choose|a: int|
                    0 <= a < d.len() && #[trigger] pin_offer(p, res, b, d[a]) is Some && prev[k] == pin_entry(
                        d[a],
                        pin_offer(p, res, b, d[a])->0,
                    );
                assert(cur[k] == prev[k]);
                assert(d[a] == pins[a]);
                assert(pin_offer(p, res, b, pins[a]) is Some);
            } else {
                let a = pins.len() - 1;
                assert(pin_offer(p, res, b, pins[a]) is Some);
                assert(cur[k] == pin_entry(pins[a], pin_offer(p, res, b, pins[a])->0));
            }
        }
    }
}

/// What `resource_completions` offers for the argument at `idx` of a call.
/// For a call the API does not know (its issues hold `API001`) nothing.
/// Otherwise the completions are the ranked offers with the preference
/// dropped; each offer is that of a board pin that can serve the pin
/// parameter, labelled and inserted by the pin's name; the offers are, each
/// as often as it occurs, those of the board pins that can serve, one per
/// such pin; and they come by preference, highest first, then by label.
pub proof fn law_resource_completions(
    p: TargetProfile,
    module: Option<Seq<char>>,
    name: Seq<char>,
    idx: int,
    prior: Seq<Seq<char>>,
)
    ensures
        (exists|k: int|
            0 <= k < call_issues(p, module, name, Seq::empty()).len() && (#[trigger] call_issues(
                p,
                module,
                name,
                Seq::empty(),
            )[k]).0 == "API001"@) ==> resource_items(p, module, name, idx, prior).len() == 0,
        resource_items(p, module, name, idx, prior) == resource_ranked(p, module, name, idx, prior).map_values(
            |x: (int, (Seq<char>, Seq<char>, Seq<char>))| x.1,
        ),
        pin_parameter(p, module, name, idx, prior) is None ==> resource_ranked(p, module, name, idx, prior).len() == 0,
        pin_parameter(p, module, name, idx, prior) is Some ==> {
            let rb = pin_parameter(p, module, name, idx, prior)->0;
            &&& forall|k: int|
                0 <= k < resource_ranked(p, module, name, idx, prior).len() ==> offered_by(
                    p,
                    rb.0,
                    rb.1,
                    p.board_pins_spec(),
                    #[trigger] resource_ranked(p, module, name, idx, prior)[k],
                )
            &&& resource_ranked(p, module, name, idx, prior).to_multiset() == pin_items(
                p,
                rb.0,
                rb.1,
                p.board_pins_spec(),
            ).to_multiset()
        },
        forall|i: int, j: int|
            0 <= i < j < resource_ranked(p, module, name, idx, prior).len() ==> {
                let x = #[trigger] resource_ranked(p, module, name, idx, prior)[i];
                let y = #[trigger] resource_ranked(p, module, name, idx, prior)[j];
                x.0 > y.0 || (x.0 == y.0 && !str_lt(y.1.0, x.1.0))
            },
{
    broadcast use vstd::seq_lib::group_to_multiset_ensures;

    lemma_codes_differ();
    let issues = call_issues(p, module, name, Seq::empty());
    if let Some(f) = profile_function(p, module, name) {
        match overload_for(f, 0) {
            None => {
                assert(issues[0].0 == "API002"@);
                assert forall|k: int| 0 <= k < issues.len() implies (#[trigger] issues[k]).0 != "API001"@ by {
                    assert(k == 0);
                }
            },
            Some(i) => {
                lemma_check_args_codes(p, f.overloads@[i], Seq::empty());
            },
        }
    }
    let r = resource_ranked(p, module, name, idx, prior);
    if let Some(rb) = pin_parameter(p, module, name, idx, prior) {
        let pins = p.board_pins_spec();
        let items = pin_items(p, rb.0, rb.1, pins);
        lemma_by_rank_strict();
        law_sort_stable(items, by_rank());
        lemma_pin_items_from_pins(p, rb.0, rb.1, pins);
        assert forall|k: int| 0 <= k < r.len() implies offered_by(p, rb.0, rb.1, pins, #[trigger] r[k]) by {
            assert(r.to_multiset().count(r[k]) > 0);
            assert(items.to_multiset().count(r[k]) > 0);
            assert(items.contains(r[k]));
            let k2 = choose|k2: int| 0 <= k2 < items.len() && items[k2] == r[k];
            assert(offered_by(p, rb.0, rb.1, pins, items[k2]));
        }
        assert forall|i: int, j: int| 0 <= i < j < r.len() implies {
            let x = #[trigger] r[i];
            let y = #[trigger] r[j];
            x.0 > y.0 || (x.0 == y.0 && !str_lt(y.1.0, x.1.0))
        } by {
            assert(!by_rank()(r[j], r[i]));
        }
    }
    assert(resource_items(p, module, name, idx, prior) =~= r.map_values(
        |x: (int, (Seq<char>, Seq<char>, Seq<char>))| x.1,
    ));
}

/// A completion as (label, insert, detail).
pub open spec fn comp_view(c: ProfileCompletion) -> (Seq<char>, Seq<char>, Seq<char>) {
    (c.label@, c.insert@, c.detail@)
}

pub open spec fn comps_view(v: Seq<ProfileCompletion>) -> Seq<(Seq<char>, Seq<char>, Seq<char>)> {
    v.map_values(|c: ProfileCompletion| comp_view(c))
}

pub open spec fn triples_view(v: Seq<(Vec<char>, Vec<char>, Vec<char>)>) -> Seq<(Seq<char>, Seq<char>, Seq<char>)> {
    v.map_values(|x: (Vec<char>, Vec<char>, Vec<char>)| (x.0@, x.1@, x.2@))
}

pub open spec fn ranked_view(v: Seq<(i64, Vec<char>, Vec<char>)>) -> Seq<(int, (Seq<char>, Seq<char>, Seq<char>))> {
    v.map_values(|x: (i64, Vec<char>, Vec<char>)| (x.0 as int, (x.1@, x.1@, x.2@)))
}

/// The name matches the typed prefix, ignoring ASCII case.
pub open spec fn prefix_fits(name: Seq<char>, prefix: Seq<char>) -> bool {
    starts_with(to_ascii_lowercase(name), to_ascii_lowercase(prefix))
}

/// Completions for the functions of `fs` the prefix fits, in order.
pub open spec fn fn_items(fs: Seq<ApiFunction>, prefix: Seq<char>) -> Seq<(Seq<char>, Seq<char>, Seq<char>)>
    decreases fs.len(),
{
    if fs.len() == 0 {
        Seq::empty()
    } else if prefix_fits(fs.last().name@, prefix) {
        fn_items(fs.drop_last(), prefix).push((fs.last().name@, fs.last().name@ + "()"@, fs.last().description@))
    } else {
        fn_items(fs.drop_last(), prefix)
    }
}

/// Completions for the modules of `ms` the prefix fits, in order.
pub open spec fn module_items(ms: Seq<ApiModule>, prefix: Seq<char>) -> Seq<(Seq<char>, Seq<char>, Seq<char>)>
    decreases ms.len(),
{
    if ms.len() == 0 {
        Seq::empty()
    } else if prefix_fits(ms.last().name@, prefix) {
        module_items(ms.drop_last(), prefix).push((ms.last().name@ + "."@, ms.last().name@ + "."@, ms.last().description@))
    } else {
        module_items(ms.drop_last(), prefix)
    }
}

/// Global completions: functions and modules the prefix fits, by label.
pub open spec fn global_items(p: TargetProfile, prefix: Seq<char>) -> Seq<(Seq<char>, Seq<char>, Seq<char>)> {
    sort_stable(fn_items(p.globals_spec(), prefix) + module_items(p.modules_spec(), prefix), by_label())
}

/// Member completions of `module`: its functions the prefix fits, by label.
pub open spec fn member_items(p: TargetProfile, module: Seq<char>, prefix: Seq<char>) -> Seq<(Seq<char>, Seq<char>, Seq<char>)> {
    match module_named(p.modules_spec(), module) {
        Some(i) => sort_stable(fn_items(p.modules_spec()[i].functions@, prefix), by_label()),
        None => Seq::empty(),
    }
}

/// The detail shown for a pin offered through the capability `c`.
pub open spec fn detail_of(pin: BoardPin, c: Capability) -> Seq<char> {
    c.function@ + " · "@ + (match c.peripheral {
        Some(x) => x@,
        None => c.class@,
    }) + (match pin.reserved {
        Some(rv) => " · "@ + rv.0@ + ": "@ + rv.1@,
        None => Seq::empty(),
    }) + (match pin.occupied {
        Some(ov) => " · board device: "@ + ov.0@,
        None => Seq::empty(),
    })
}

/// The first capability through which `pin` can serve `res` and agrees
/// with the bound slots `b`.
pub open spec fn pin_offer(p: TargetProfile, res: ResourceRequirement, b: Seq<(Seq<char>, Seq<char>)>, pin: BoardPin) -> Option<
    Capability,
> {
    let caps = pin_caps(p, pin, res);
    match find_first(caps, |c: Capability| compatible(b, pairs_view(res.bindings@), CandV::Cap(c))) {
        Some(k) => Some(caps[k]),
        None => None,
    }
}

/// The pins of `pins` that can serve `res`, with their preference.
pub open spec fn pin_items(
    p: TargetProfile,
    res: ResourceRequirement,
    b: Seq<(Seq<char>, Seq<char>)>,
    pins: Seq<BoardPin>,
) -> Seq<(int, (Seq<char>, Seq<char>, Seq<char>))>
    decreases pins.len(),
{
    if pins.len() == 0 {
        Seq::empty()
    } else {
        let prev = pin_items(p, res, b, pins.drop_last());
        let pin = pins.last();
        match pin_offer(p, res, b, pin) {
            Some(c) => prev.push((pin.preference as int, (pin.name@, pin.name@, detail_of(pin, c)))),
            None => prev,
        }
    }
}

/// The first overload with a parameter at position `idx`.
pub open spec fn overload_with(f: ApiFunction, idx: int) -> Option<int> {
    find_first(f.overloads@, |ov: ApiOverload| idx < ov.params@.len())
}

/// Pin completions for the argument at `idx` of a call, given the earlier
/// arguments `prior`: the board pins that can serve the parameter, by
/// preference (highest first) and then label.
pub open spec fn resource_items(
    p: TargetProfile,
    module: Option<Seq<char>>,
    name: Seq<char>,
    idx: int,
    prior: Seq<Seq<char>>,
) -> Seq<(Seq<char>, Seq<char>, Seq<char>)> {
    match profile_function(p, module, name) {
        None => Seq::empty(),
        Some(f) => match overload_with(f, idx) {
            None => Seq::empty(),
            Some(i) => match f.overloads@[i].params@[idx].resource {
                None => Seq::empty(),
                Some(res) => if res.kind@ != "pin"@ {
                    Seq::empty()
                } else {
                    sort_stable(
                        pin_items(p, res, bind_args(p, f.overloads@[i], prior), p.board_pins_spec()),
                        by_rank(),
                    ).map_values(|x: (int, (Seq<char>, Seq<char>, Seq<char>))| x.1)
                },
            },
        },
    }
}

fn insert_by_label(v: &mut Vec<(Vec<char>, Vec<char>, Vec<char>)>, x: (Vec<char>, Vec<char>, Vec<char>))
    ensures
        triples_view(final(v)@) == ins_sorted(triples_view(old(v)@), (x.0@, x.1@, x.2@), by_label()),
{
    let ghost o = triples_view(old(v)@);
    let ghost xv = (x.0@, x.1@, x.2@);
    let mut j: usize = 0;
    proof {
        assert(o.skip(0) =~= o);
        assert(o.take(0) + ins_sorted(o, xv, by_label()) =~= ins_sorted(o, xv, by_label()));
    }
    while j < v.len()
        invariant
            j <= v@.len(),
            triples_view(v@) == o,
            o == triples_view(old(v)@),
            xv == (x.0@, x.1@, x.2@),
            ins_sorted(o, xv, by_label()) == o.take(j as int) + ins_sorted(o.skip(j as int), xv, by_label()),
        decreases v.len() - j,
    {
        let ghost rest = o.skip(j as int);
        proof {
            assert(rest[0] == (v@[j as int].0@, v@[j as int].1@, v@[j as int].2@));
        }
        let c = compare_chars(x.0.as_slice(), v[j].0.as_slice());
        if c == -1 {
            let ghost before = v@;
            v.insert(j, x);
            proof {
                assert(ins_sorted(rest, xv, by_label()) == seq![xv] + rest);
                assert(triples_view(v@) =~= o.take(j as int) + (seq![xv] + rest));
            }
            return;
        }
        proof {
            assert(rest.drop_first() =~= o.skip(j + 1));
            assert(o.take(j as int) + (seq![rest[0]] + ins_sorted(o.skip(j + 1), xv, by_label())) =~= o.take(j + 1)
                + ins_sorted(o.skip(j + 1), xv, by_label()));
        }
        j = j + 1;
    }
    v.push(x);
    proof {
        assert(o.skip(j as int) =~= Seq::<(Seq<char>, Seq<char>, Seq<char>)>::empty());
        assert(o.take(j as int) =~= o);
        assert(triples_view(v@) =~= o.push(xv));
    }
}

fn insert_by_rank(v: &mut Vec<(i64, Vec<char>, Vec<char>)>, x: (i64, Vec<char>, Vec<char>))
    ensures
        ranked_view(final(v)@) == ins_sorted(ranked_view(old(v)@), (x.0 as int, (x.1@, x.1@, x.2@)), by_rank()),
{
    let ghost o = ranked_view(old(v)@);
    let ghost xv = (x.0 as int, (x.1@, x.1@, x.2@));
    let mut j: usize = 0;
    proof {
        assert(o.skip(0) =~= o);
        assert(o.take(0) + ins_sorted(o, xv, by_rank()) =~= ins_sorted(o, xv, by_rank()));
    }
    while j < v.len()
        invariant
            j <= v@.len(),
            ranked_view(v@) == o,
            o == ranked_view(old(v)@),
            xv == (x.0 as int, (x.1@, x.1@, x.2@)),
            ins_sorted(o, xv, by_rank()) == o.take(j as int) + ins_sorted(o.skip(j as int), xv, by_rank()),
        decreases v.len() - j,
    {
        let ghost rest = o.skip(j as int);
        proof {
            assert(rest[0] == (v@[j as int].0 as int, (v@[j as int].1@, v@[j as int].1@, v@[j as int].2@)));
        }
        let first = if x.0 > v[j].0 {
            true
        } else if x.0 == v[j].0 {
            compare_chars(x.1.as_slice(), v[j].1.as_slice()) == -1
        } else {
            false
        };
        if first {
            v.insert(j, x);
            proof {
                assert(ins_sorted(rest, xv, by_rank()) == seq![xv] + rest);
                assert(ranked_view(v@) =~= o.take(j as int) + (seq![xv] + rest));
            }
            return;
        }
        proof {
            assert(rest.drop_first() =~= o.skip(j + 1));
            assert(o.take(j as int) + (seq![rest[0]] + ins_sorted(o.skip(j + 1), xv, by_rank())) =~= o.take(j + 1)
                + ins_sorted(o.skip(j + 1), xv, by_rank()));
        }
        j = j + 1;
    }
    v.push(x);
    proof {
        assert(o.skip(j as int) =~= Seq::<(int, (Seq<char>, Seq<char>, Seq<char>))>::empty());
        assert(o.take(j as int) =~= o);
        assert(ranked_view(v@) =~= o.push(xv));
    }
}

/// Completions for the functions of `fs` the prefix fits.
fn function_items(fs: &Vec<ApiFunction>, prefix: &[char], out: &mut Vec<(Vec<char>, Vec<char>, Vec<char>)>)
    requires
        prefix@ == to_ascii_lowercase(prefix@),
    ensures
        triples_view(final(out)@) == triples_view(old(out)@) + fn_items(fs@, prefix@),
{
    let mut k: usize = 0;
    proof {
        assert(triples_view(out@) =~= triples_view(old(out)@) + fn_items(fs@.take(0), prefix@));
    }
    while k < fs.len()
        invariant
            k <= fs@.len(),
            prefix@ == to_ascii_lowercase(prefix@),
            triples_view(out@) == triples_view(old(out)@) + fn_items(fs@.take(k as int), prefix@),
        decreases fs.len() - k,
    {
        proof {
            assert(fs@.take(k + 1).drop_last() =~= fs@.take(k as int));
            assert(fs@.take(k + 1).last() == fs@[k as int]);
        }
        let f = &fs[k];
        let lname = ascii_lower(f.name.as_slice());
        if starts_with_chars(lname.as_slice(), prefix) {
            let mut ins = clone_chars(&f.name);
            append_str(&mut ins, "()");
            let ghost before = out@;
            out.push((clone_chars(&f.name), ins, clone_chars(&f.description)));
            proof {
                assert(triples_view(out@) =~= triples_view(before).push((f.name@, f.name@ + "()"@, f.description@)));
            }
        }
        k = k + 1;
    }
    proof {
        assert(fs@.take(k as int) =~= fs@);
    }
}

fn sorted_completions(items: Vec<(Vec<char>, Vec<char>, Vec<char>)>) -> (r: Vec<ProfileCompletion>)
    ensures
        comps_view(r@) == sort_stable(triples_view(items@), by_label()),
{
    let ghost iv = triples_view(items@);
    let mut sorted: Vec<(Vec<char>, Vec<char>, Vec<char>)> = Vec::new();
    let mut k: usize = 0;
    proof {
        assert(triples_view(sorted@) =~= sort_stable(iv.take(0), by_label()));
    }
    while k < items.len()
        invariant
            k <= items@.len(),
            iv == triples_view(items@),
            triples_view(sorted@) == sort_stable(iv.take(k as int), by_label()),
        decreases items.len() - k,
    {
        proof {
            assert(iv.take(k + 1).drop_last() =~= iv.take(k as int));
            assert(iv.take(k + 1).last() == iv[k as int]);
        }
        let it = &items[k];
        insert_by_label(&mut sorted, (clone_chars(&it.0), clone_chars(&it.1), clone_chars(&it.2)));
        k = k + 1;
    }
    proof {
        assert(iv.take(k as int) =~= iv);
    }
    let mut out: Vec<ProfileCompletion> = Vec::new();
    let mut j: usize = 0;
    while j < sorted.len()
        invariant
            j <= sorted@.len(),
            comps_view(out@) == triples_view(sorted@).take(j as int),
        decreases sorted.len() - j,
    {
        let it = &sorted[j];
        let c = ProfileCompletion {
            label: string_from(it.0.as_slice()),
            insert: string_from(it.1.as_slice()),
            detail: string_from(it.2.as_slice()),
        };
        let ghost before = out@;
        out.push(c);
        proof {
            assert(comp_view(c) == triples_view(sorted@)[j as int]);
            assert(out@ == before.push(c));
            assert(comps_view(out@) =~= comps_view(before).push(comp_view(c)));
            assert(triples_view(sorted@).take(j + 1) =~= triples_view(sorted@).take(j as int).push(triples_view(sorted@)[j as int]));
        }
        j = j + 1;
    }
    proof {
        assert(triples_view(sorted@).take(j as int) =~= triples_view(sorted@));
    }
    out
}

fn detail_for(pin: &BoardPin, c: &Capability) -> (r: Vec<char>)
    ensures
        r@ == detail_of(*pin, *c),
{
    let mut d = clone_chars(&c.function);
    append_str(&mut d, " · ");
    match &c.peripheral {
        Some(x) => append_chars(&mut d, x.as_slice()),
        None => append_chars(&mut d, c.class.as_slice()),
    }
    let ghost mid = d@;
    match &pin.reserved {
        Some(rv) => {
            append_str(&mut d, " · ");
            append_chars(&mut d, rv.0.as_slice());
            append_str(&mut d, ": ");
            append_chars(&mut d, rv.1.as_slice());
            proof {
                assert(d@ =~= mid + (" · "@ + rv.0@ + ": "@ + rv.1@));
            }
        },
        None => {
            proof {
                assert(d@ =~= mid + Seq::<char>::empty());
            }
        },
    }
    let ghost mid2 = d@;
    match &pin.occupied {
        Some(ov) => {
            append_str(&mut d, " · board device: ");
            append_chars(&mut d, ov.0.as_slice());
            proof {
                assert(d@ =~= mid2 + (" · board device: "@ + ov.0@));
            }
        },
        None => {
            proof {
                assert(d@ =~= mid2 + Seq::<char>::empty());
            }
        },
    }
    d
}

impl TargetProfile {
    /// Global completions for `prefix` (ASCII case ignored): functions as
    /// `name()` and modules as `name.`, sorted by label.
    pub fn global_completions(&self, prefix: &str) -> (r: Vec<ProfileCompletion>)
        ensures
            comps_view(r@) == global_items(*self, prefix@),
    {
        let pc = chars_of(prefix);
        let pl = ascii_lower(pc.as_slice());
        proof {
            assert(to_ascii_lowercase(pl@) =~= pl@);
        }
        let mut items: Vec<(Vec<char>, Vec<char>, Vec<char>)> = Vec::new();
        function_items(&self.globals, pl.as_slice(), &mut items);
        let ghost after_fns = triples_view(items@);
        let mut k: usize = 0;
        proof {
            assert(fn_items(self.globals@, pl@) =~= fn_items(self.globals@, prefix@)) by {
                lemma_fn_items_lower(self.globals@, prefix@);
            }
            assert(module_items(self.modules@.take(0), pl@) =~= Seq::<(Seq<char>, Seq<char>, Seq<char>)>::empty());
            assert(triples_view(items@) =~= after_fns + module_items(self.modules@.take(0), pl@));
        }
        while k < self.modules.len()
            invariant
                k <= self.modules@.len(),
                pl@ == to_ascii_lowercase(prefix@),
                triples_view(items@) == after_fns + module_items(self.modules@.take(k as int), pl@),
            decreases self.modules.len() - k,
        {
            proof {
                assert(self.modules@.take(k + 1).drop_last() =~= self.modules@.take(k as int));
                assert(self.modules@.take(k + 1).last() == self.modules@[k as int]);
            }
            let m = &self.modules[k];
            let lname = ascii_lower(m.name.as_slice());
            proof {
                lemma_lower_idem(prefix@);
            }
            if starts_with_chars(lname.as_slice(), pl.as_slice()) {
                let mut label = clone_chars(&m.name);
                append_str(&mut label, ".");
                let ins = clone_chars(&label);
                let ghost before = items@;
                items.push((label, ins, clone_chars(&m.description)));
                proof {
                    assert(triples_view(items@) =~= triples_view(before).push((m.name@ + "."@, m.name@ + "."@, m.description@)));
                }
            }
            k = k + 1;
        }
        proof {
            assert(self.modules@.take(k as int) =~= self.modules@);
            lemma_module_items_lower(self.modules@, prefix@);
        }
        sorted_completions(items)
    }

    /// Completions for the functions of `module` matching `prefix` (ASCII
    /// case ignored), sorted by label; none for an unknown module.
    pub fn member_completions(&self, module: &str, prefix: &str) -> (r: Vec<ProfileCompletion>)
        ensures
            comps_view(r@) == member_items(*self, module@, prefix@),
            forall|i: int, j: int|
                0 <= i < j < r@.len() ==> str_lt(#[trigger] comps_view(r@)[i].0, #[trigger] comps_view(r@)[j].0),
    {
        proof {
            use_type_invariant(self);
            law_member_labels_increase(*self, module@, prefix@);
        }
        let mc = chars_of(module);
        match find_module(&self.modules, mc.as_slice()) {
            None => Vec::new(),
            Some(i) => {
                let pc = chars_of(prefix);
                let pl = ascii_lower(pc.as_slice());
                proof {
                    assert(to_ascii_lowercase(pl@) =~= pl@);
                    lemma_fn_items_lower(self.modules@[i as int].functions@, prefix@);
                }
                let mut items: Vec<(Vec<char>, Vec<char>, Vec<char>)> = Vec::new();
                function_items(&self.modules[i].functions, pl.as_slice(), &mut items);
                proof {
                    assert(triples_view(items@) =~= fn_items(self.modules@[i as int].functions@, prefix@));
                }
                let r = sorted_completions(items);
                proof {
                    let mi = member_items(*self, module@, prefix@);
                    assert forall|a: int, c: int| 0 <= a < c < r@.len() implies str_lt(
                        #[trigger] comps_view(r@)[a].0,
                        #[trigger] comps_view(r@)[c].0,
                    ) by {
                        assert(comps_view(r@)[a] == mi[a]);
                        assert(comps_view(r@)[c] == mi[c]);
                    }
                }
                r
            },
        }
    }

    /// The first of the capabilities at `idx` (of chip pin `ci`) that agrees
    /// with the bound slots `b`.
    fn first_offer(&self, res: &ResourceRequirement, b: &Vec<(Vec<char>, Vec<char>)>, ci: usize, idx: &Vec<usize>) -> (r: Option<usize>)
        requires
            idx@.len() > 0 ==> ci < self.chip_pins_spec().len(),
            forall|j: int| 0 <= j < idx@.len() ==> (#[trigger] idx@[j]) < self.chip_pins_spec()[ci as int].capabilities@.len(),
        ensures
            match r {
                Some(k) => k < idx@.len() && find_first(
                    caps_at(self.chip_pins_spec()[ci as int].capabilities@, idx@),
                    |c: Capability| compatible(pairs_view(b@), pairs_view(res.bindings@), CandV::Cap(c)),
                ) == Some(k as int),
                None => find_first(
                    caps_at(self.chip_pins_spec()[ci as int].capabilities@, idx@),
                    |c: Capability| compatible(pairs_view(b@), pairs_view(res.bindings@), CandV::Cap(c)),
                ) is None,
            },
    {
        let ghost caps = caps_at(self.chip_pins_spec()[ci as int].capabilities@, idx@);
        let ghost p = |c: Capability| compatible(pairs_view(b@), pairs_view(res.bindings@), CandV::Cap(c));
        let mut k: usize = 0;
        while k < idx.len()
            invariant
                k <= idx@.len(),
                caps == caps_at(self.chip_pins_spec()[ci as int].capabilities@, idx@),
                idx@.len() > 0 ==> ci < self.chip_pins_spec().len(),
                forall|j: int| 0 <= j < idx@.len() ==> (#[trigger] idx@[j]) < self.chip_pins_spec()[ci as int].capabilities@.len(),
                p == (|c: Capability| compatible(pairs_view(b@), pairs_view(res.bindings@), CandV::Cap(c))),
                forall|j: int| 0 <= j < k ==> !p(#[trigger] caps[j]),
            decreases idx.len() - k,
        {
            let c = Candidate::Cap(ci, idx[k]);
            proof {
                assert(self.cand_view(c) == CandV::Cap(caps[k as int]));
            }
            if self.bindings_compatible(b, &res.bindings, &c) {
                proof {
                    lemma_find_first(caps, p, k as int);
                }
                return Some(k);
            }
            k = k + 1;
        }
        proof {
            lemma_find_first(caps, p, k as int);
        }
        None
    }

    /// Board pins that can serve `res`, with their preference, in board order.
    fn pin_offers(&self, res: &ResourceRequirement, b: &Vec<(Vec<char>, Vec<char>)>) -> (r: Vec<(i64, Vec<char>, Vec<char>)>)
        ensures
            ranked_view(r@) == pin_items(*self, *res, pairs_view(b@), self.board_pins_spec()),
    {
        let mut out: Vec<(i64, Vec<char>, Vec<char>)> = Vec::new();
        let ghost pins = self.board_pins_spec();
        let mut k: usize = 0;
        proof {
            assert(ranked_view(out@) =~= pin_items(*self, *res, pairs_view(b@), pins.take(0)));
        }
        while k < self.board_pins.len()
            invariant
                k <= self.board_pins@.len(),
                pins == self.board_pins_spec(),
                ranked_view(out@) == pin_items(*self, *res, pairs_view(b@), pins.take(k as int)),
            decreases self.board_pins.len() - k,
        {
            proof {
                assert(pins.take(k + 1).drop_last() =~= pins.take(k as int));
                assert(pins.take(k + 1).last() == pins[k as int]);
            }
            let pin = &self.board_pins[k];
            let (ci, idx) = self.pin_capabilities(pin, res);
            match self.first_offer(res, b, ci, &idx) {
                Some(j) => {
                    let cap = &self.chip_pins[ci].capabilities[idx[j]];
                    let detail = detail_for(pin, cap);
                    let ghost before = out@;
                    out.push((pin.preference, clone_chars(&pin.name), detail));
                    proof {
                        assert(ranked_view(out@) =~= ranked_view(before).push(
                            (pin.preference as int, (pin.name@, pin.name@, detail_of(*pin, *cap))),
                        ));
                    }
                },
                None => {},
            }
            k = k + 1;
        }
        proof {
            assert(pins.take(k as int) =~= pins);
        }
        out
    }

    /// Pin completions for the argument at `argument_index` of a call,
    /// given the earlier arguments: the board pins that can serve the
    /// parameter, agreeing with the peripheral or route the earlier
    /// arguments chose, by preference (highest first) and then label.
    pub fn resource_completions(
        &self,
        module: Option<&str>,
        function: &str,
        argument_index: usize,
        prior_arguments: &[String],
    ) -> (r: Vec<ProfileCompletion>)
        ensures
            comps_view(r@) == resource_items(*self, match module {
                Some(m) => Some(m@),
                None => None,
            }, function@, argument_index as int, strings_view(prior_arguments@)),
    {
        let m = str_opt(module);
        let name = chars_of(function);
        let f = match self.function(vec_opt(&m), name.as_slice()) {
            Some(f) => f,
            None => return Vec::new(),
        };
        let ghost p = |ov: ApiOverload| (argument_index as int) < ov.params@.len();
        let mut i: usize = 0;
        while i < f.overloads.len() && argument_index >= f.overloads[i].params.len()
            invariant
                i <= f.overloads@.len(),
                p == (|ov: ApiOverload| (argument_index as int) < ov.params@.len()),
                forall|j: int| 0 <= j < i ==> !p(#[trigger] f.overloads@[j]),
            decreases f.overloads.len() - i,
        {
            i = i + 1;
        }
        proof {
            lemma_find_first(f.overloads@, p, i as int);
        }
        if i == f.overloads.len() {
            return Vec::new();
        }
        let ov = &f.overloads[i];
        let res = match &ov.params[argument_index].resource {
            Some(res) => res,
            None => return Vec::new(),
        };
        if !word_is(res.kind.as_slice(), "pin") {
            return Vec::new();
        }
        let b = self.bindings_from_arguments(ov, prior_arguments);
        let offers = self.pin_offers(res, &b);
        let ghost ov_view = ranked_view(offers@);
        let mut sorted: Vec<(i64, Vec<char>, Vec<char>)> = Vec::new();
        let mut k: usize = 0;
        proof {
            assert(ranked_view(sorted@) =~= sort_stable(ov_view.take(0), by_rank()));
        }
        while k < offers.len()
            invariant
                k <= offers@.len(),
                ov_view == ranked_view(offers@),
                ranked_view(sorted@) == sort_stable(ov_view.take(k as int), by_rank()),
            decreases offers.len() - k,
        {
            proof {
                assert(ov_view.take(k + 1).drop_last() =~= ov_view.take(k as int));
                assert(ov_view.take(k + 1).last() == ov_view[k as int]);
            }
            let it = &offers[k];
            insert_by_rank(&mut sorted, (it.0, clone_chars(&it.1), clone_chars(&it.2)));
            k = k + 1;
        }
        proof {
            assert(ov_view.take(k as int) =~= ov_view);
        }
        let ghost sv = ranked_view(sorted@);
        let mut out: Vec<ProfileCompletion> = Vec::new();
        let mut j: usize = 0;
        while j < sorted.len()
            invariant
                j <= sorted@.len(),
                sv == ranked_view(sorted@),
                comps_view(out@) == sv.take(j as int).map_values(|x: (int, (Seq<char>, Seq<char>, Seq<char>))| x.1),
            decreases sorted.len() - j,
        {
            let it = &sorted[j];
            let c = ProfileCompletion {
                label: string_from(it.1.as_slice()),
                insert: string_from(it.1.as_slice()),
                detail: string_from(it.2.as_slice()),
            };
            let ghost before = out@;
            out.push(c);
            proof {
                assert(comp_view(c) == sv[j as int].1);
                assert(comps_view(out@) =~= comps_view(before).push(comp_view(c)));
                assert(sv.take(j + 1) =~= sv.take(j as int).push(sv[j as int]));
                assert(sv.take(j + 1).map_values(|x: (int, (Seq<char>, Seq<char>, Seq<char>))| x.1) =~= sv.take(j as int).map_values(
                    |x: (int, (Seq<char>, Seq<char>, Seq<char>))| x.1,
                ).push(sv[j as int].1));
            }
            j = j + 1;
        }
        proof {
            assert(sv.take(j as int) =~= sv);
        }
        out
    }
}

proof fn lemma_lower_idem(s: Seq<char>)
    ensures
        to_ascii_lowercase(to_ascii_lowercase(s)) == to_ascii_lowercase(s),
{
    assert(to_ascii_lowercase(to_ascii_lowercase(s)) =~= to_ascii_lowercase(s));
}

proof fn lemma_fn_items_lower(fs: Seq<ApiFunction>, prefix: Seq<char>)
    ensures
        fn_items(fs, to_ascii_lowercase(prefix)) == fn_items(fs, prefix),
    decreases fs.len(),
{
    lemma_lower_idem(prefix);
    if fs.len() > 0 {
        lemma_fn_items_lower(fs.drop_last(), prefix);
    }
}

proof fn lemma_module_items_lower(ms: Seq<ApiModule>, prefix: Seq<char>)
    ensures
        module_items(ms, to_ascii_lowercase(prefix)) == module_items(ms, prefix),
    decreases ms.len(),
{
    lemma_lower_idem(prefix);
    if ms.len() > 0 {
        lemma_module_items_lower(ms.drop_last(), prefix);
    }
}

// ─── names and pin functions ────────────────────────────────────────────

/// A character allowed in identifiers: ASCII letter or digit, `_`, `-`.
pub open spec fn ident_char(c: char) -> bool {
    ('a' <= c <= 'z') || ('A' <= c <= 'Z') || ('0' <= c <= '9') || c == '_' || c == '-'
}

/// A non-empty identifier of [`ident_char`]s.
pub open spec fn ident_ok(s: Seq<char>) -> bool {
    s.len() > 0 && forall|i: int| 0 <= i < s.len() ==> ident_char(#[trigger] s[i])
}

/// The message for a value that is no identifier.
pub open spec fn msg_ident(value: Seq<char>, label: Seq<char>) -> Seq<char> {
    label + " 只能包含字母、数字、下划线和连字符: "@ + value
}

fn ident_check(value: &[char], label: &str) -> (r: Result<(), Vec<char>>)
    ensures
        r is Ok <==> ident_ok(value@),
        r matches Err(e) ==> e@ == msg_ident(value@, label@),
{
    let mut ok = value.len() > 0;
    let mut i: usize = 0;
    while i < value.len() && ok
        invariant
            i <= value@.len(),
            ok == (value@.len() > 0 && forall|j: int| 0 <= j < i ==> ident_char(#[trigger] value@[j])),
        decreases value.len() - i,
    {
        let c = value[i];
        ok = ('a' <= c && c <= 'z') || ('A' <= c && c <= 'Z') || ('0' <= c && c <= '9') || c == '_' || c == '-';
        proof {
            if !ok {
                assert(!ident_char(value@[i as int]));
            }
        }
        i = i + 1;
    }
    if ok {
        proof {
            assert(i == value@.len());
        }
        Ok(())
    } else {
        let mut m = chars_of(label);
        append_str(&mut m, " 只能包含字母、数字、下划线和连字符: ");
        append_chars(&mut m, value);
        proof {
            assert(m@ =~= msg_ident(value@, label@));
        }
        Err(m)
    }
}

/// Checks that `value` is a non-empty identifier of ASCII letters, digits,
/// `_` and `-`; the error names `label` and the value.
pub fn validate_identifier(value: &str, label: &str) -> (r: Result<(), String>)
    ensures
        r is Ok <==> ident_ok(value@),
        r matches Err(e) ==> e@ == msg_ident(value@, label@),
{
    let v = chars_of(value);
    match ident_check(v.as_slice(), label) {
        Ok(()) => Ok(()),
        Err(m) => Err(string_from(m.as_slice())),
    }
}

/// Number of decimal digits at the end of `s`.
pub open spec fn trailing_digits(s: Seq<char>) -> nat
    decreases s.len(),
{
    if s.len() == 0 || !is_dec_digit(s.last()) {
        0
    } else {
        1 + trailing_digits(s.drop_last())
    }
}

/// The number the trailing digits of `s` spell, when there are some and
/// it fits in `u32`.
pub open spec fn trailing_num(s: Seq<char>) -> Option<u32> {
    let d = s.skip(s.len() - trailing_digits(s));
    if d.len() > 0 && dec_number(d) <= u32::MAX {
        Some(dec_number(d) as u32)
    } else {
        None
    }
}

proof fn lemma_trailing_digits(s: Seq<char>)
    ensures
        trailing_digits(s) <= s.len(),
        all_dec(s.skip(s.len() - trailing_digits(s))),
        trailing_digits(s) < s.len() ==> !is_dec_digit(s[s.len() - trailing_digits(s) - 1]),
    decreases s.len(),
{
    if s.len() > 0 && is_dec_digit(s.last()) {
        lemma_trailing_digits(s.drop_last());
        let n = trailing_digits(s.drop_last());
        assert forall|i: int| 0 <= i < s.skip(s.len() - trailing_digits(s)).len() implies is_dec_digit(
            #[trigger] s.skip(s.len() - trailing_digits(s))[i],
        ) by {
            if i < n {
                assert(s.skip(s.len() - trailing_digits(s))[i] == s.drop_last().skip(s.drop_last().len() - n)[i]);
            }
        }
    }
}

/// The number at the end of `value` (`UART2` gives 2).
fn trailing_number(value: &[char]) -> (r: Option<u32>)
    ensures
        r == trailing_num(value@),
{
    let mut k = value.len();
    proof {
        lemma_trailing_digits(value@);
        assert(value@.take(value@.len() as int) =~= value@);
    }
    while k > 0 && '0' <= value[k - 1] && value[k - 1] <= '9'
        invariant
            k <= value@.len(),
            trailing_digits(value@) == (value@.len() - k) + trailing_digits(value@.take(k as int)),
        decreases k,
    {
        proof {
            assert(value@.take(k as int).drop_last() =~= value@.take(k - 1));
        }
        k = k - 1;
    }
    proof {
        assert(trailing_digits(value@.take(k as int)) == 0);
        assert(value@.skip(value@.len() - trailing_digits(value@)) =~= value@.subrange(k as int, value@.len() as int));
    }
    if k == value.len() {
        return None;
    }
    match dec_usize(value, k, value.len()) {
        Some(n) => if n <= 0xFFFF_FFFF {
            Some(n as u32)
        } else {
            None
        },
        None => {
            proof {
                lemma_trailing_digits(value@);
            }
            None
        },
    }
}

/// `char::to_ascii_uppercase`.
pub open spec fn upper_char(c: char) -> char {
    if 'a' <= c <= 'z' {
        ((c as u32) - 32) as char
    } else {
        c
    }
}

/// `str::to_ascii_uppercase`.
pub open spec fn to_ascii_uppercase(s: Seq<char>) -> Seq<char> {
    s.map_values(|c: char| upper_char(c))
}

fn ascii_upper(s: &[char]) -> (r: Vec<char>)
    ensures
        r@ == to_ascii_uppercase(s@),
{
    let mut r: Vec<char> = Vec::new();
    let mut i: usize = 0;
    while i < s.len()
        invariant
            i <= s@.len(),
            r@ == to_ascii_uppercase(s@.take(i as int)),
        decreases s.len() - i,
    {
        let c = s[i];
        let u = if 'a' <= c && c <= 'z' {
            ((c as u8) - 32) as char
        } else {
            c
        };
        r.push(u);
        proof {
            assert(r@ =~= to_ascii_uppercase(s@.take(i + 1)));
        }
        i = i + 1;
    }
    proof {
        assert(s@.take(i as int) =~= s@);
    }
    r
}

/// The text before the first `_` (all of `s` when there is none).
pub open spec fn head(s: Seq<char>) -> Seq<char> {
    s.take(find_char(s, '_') as int)
}

/// The text after the first `_`, when there is one.
pub open spec fn tail(s: Seq<char>) -> Option<Seq<char>> {
    if find_char(s, '_') < s.len() {
        Some(s.skip(find_char(s, '_') as int + 1))
    } else {
        None
    }
}

/// A capability inferred from a pin function name.
pub struct CapV {
    pub function: Seq<char>,
    pub class: Seq<char>,
    pub peripheral: Option<Seq<char>>,
    pub signal: Option<Seq<char>>,
    pub route: Option<Seq<char>>,
}

pub open spec fn cap_view(c: Capability) -> CapV {
    CapV {
        function: c.function@,
        class: c.class@,
        peripheral: opt_chars(c.peripheral),
        signal: opt_chars(c.signal),
        route: opt_chars(c.route),
    }
}

pub open spec fn caps_view(v: Seq<Capability>) -> Seq<CapV> {
    v.map_values(|c: Capability| cap_view(c))
}

/// Class, peripheral and signal of the upper-cased pin function `u`:
/// `GPIO…` is gpio; `A<n>_<ch>…` is channel `CH<ch>` of `ADC<n>`; other
/// `A…` names are analog; otherwise the text before the first `_` names
/// the peripheral and the text after it the signal.
pub open spec fn infer_kind(u: Seq<char>) -> (Seq<char>, Option<Seq<char>>, Option<Seq<char>>) {
    if starts_with(u, "GPIO"@) {
        ("gpio"@, None, None)
    } else if u.len() > 0 && u[0] == 'A' {
        let rest = u.drop_first();
        if tail(rest) is Some && all_dec(head(rest)) {
            ("adc"@, Some("ADC"@ + head(rest)), Some("CH"@ + head(tail(rest)->0)))
        } else {
            ("analog"@, None, None)
        }
    } else {
        let prefix = head(u);
        let sig = match tail(u) {
            Some(v) => Some(if v == "SCLK"@ { "SCK"@ } else { v }),
            None => None,
        };
        if starts_with(prefix, "I2C"@) {
            ("i2c"@, Some(prefix), sig)
        } else if starts_with(prefix, "UART"@) {
            ("uart"@, Some(prefix), sig)
        } else if starts_with(prefix, "SPI"@) {
            ("spi"@, Some(prefix), sig)
        } else if starts_with(prefix, "CANFD"@) {
            (
                "can"@,
                Some("CAN"@ + prefix.skip(5)),
                match sig {
                    Some(v) => Some(if starts_with(v, "CAN"@) { v.skip(3) } else { v }),
                    None => None,
                },
            )
        } else if starts_with(prefix, "TIMA"@) || starts_with(prefix, "TIMG"@) {
            ("timer"@, Some(prefix), sig)
        } else if starts_with(prefix, "COMP"@) {
            ("comp"@, Some(prefix), sig)
        } else if starts_with(prefix, "DAC"@) {
            ("dac"@, Some("DAC0"@), sig)
        } else {
            ("system"@, None, sig)
        }
    }
}

/// The capabilities a chip pin function name gives: one, or for a timer
/// also its PWM use; the route is the peripheral in lower case.
pub open spec fn inferred(f: Seq<char>) -> Seq<CapV> {
    let k = infer_kind(to_ascii_uppercase(f));
    let route = match k.1 {
        Some(x) => Some(to_ascii_lowercase(x)),
        None => None,
    };
    let base = CapV { function: f, class: k.0, peripheral: k.1, signal: k.2, route };
    if k.0 == "timer"@ {
        seq![base, CapV { function: f, class: "pwm"@, peripheral: k.1, signal: k.2, route }]
    } else {
        seq![base]
    }
}

fn find_underscore(s: &[char]) -> (r: usize)
    ensures
        r == find_char(s@, '_'),
        r <= s@.len(),
{
    proof {
        crate::text::lemma_find_char(s@, '_');
    }
    let mut k: usize = 0;
    while k < s.len() && s[k] != '_'
        invariant
            k <= s@.len(),
            k <= find_char(s@, '_'),
            find_char(s@, '_') <= s@.len(),
            forall|j: int| 0 <= j < find_char(s@, '_') ==> #[trigger] s@[j] != '_',
            find_char(s@, '_') < s@.len() ==> s@[find_char(s@, '_') as int] == '_',
        decreases s.len() - k,
    {
        k = k + 1;
    }
    k
}

fn all_digits(s: &[char]) -> (r: bool)
    ensures
        r == all_dec(s@),
{
    let mut i: usize = 0;
    while i < s.len()
        invariant
            i <= s@.len(),
            forall|j: int| 0 <= j < i ==> is_dec_digit(#[trigger] s@[j]),
        decreases s.len() - i,
    {
        if !('0' <= s[i] && s[i] <= '9') {
            return false;
        }
        i = i + 1;
    }
    true
}

fn lit_then(head_s: &str, rest: &[char]) -> (r: Vec<char>)
    ensures
        r@ == head_s@ + rest@,
{
    let mut v = chars_of(head_s);
    append_chars(&mut v, rest);
    v
}

fn infer_kind_exec(u: &[char]) -> (r: (Vec<char>, Option<Vec<char>>, Option<Vec<char>>))
    ensures
        (r.0@, opt_chars(r.1), opt_chars(r.2)) == infer_kind(u@),
{
    if starts_with_chars(u, chars_of("GPIO").as_slice()) {
        return (chars_of("gpio"), None, None);
    }
    if u.len() > 0 && u[0] == 'A' {
        let rest = sub_chars(u, 1, u.len());
        proof {
            assert(rest@ =~= u@.drop_first());
        }
        let h = find_underscore(rest.as_slice());
        let hd = sub_chars(rest.as_slice(), 0, h);
        proof {
            assert(hd@ =~= head(rest@));
        }
        if h < rest.len() && all_digits(hd.as_slice()) {
            let t = sub_chars(rest.as_slice(), h + 1, rest.len());
            proof {
                assert(t@ =~= tail(rest@)->0);
            }
            let h2 = find_underscore(t.as_slice());
            let ch = sub_chars(t.as_slice(), 0, h2);
            proof {
                assert(ch@ =~= head(t@));
            }
            return (chars_of("adc"), Some(lit_then("ADC", hd.as_slice())), Some(lit_then("CH", ch.as_slice())));
        }
        return (chars_of("analog"), None, None);
    }
    let h = find_underscore(u);
    let prefix = sub_chars(u, 0, h);
    proof {
        assert(prefix@ =~= head(u@));
    }
    let sig: Option<Vec<char>> = if h < u.len() {
        let v = sub_chars(u, h + 1, u.len());
        proof {
            assert(v@ =~= tail(u@)->0);
        }
        if word_is(v.as_slice(), "SCLK") {
            Some(chars_of("SCK"))
        } else {
            Some(v)
        }
    } else {
        None
    };
    let p = prefix.as_slice();
    proof {
        reveal_strlit("CANFD");
        reveal_strlit("CAN");
    }
    if starts_with_chars(p, chars_of("I2C").as_slice()) {
        (chars_of("i2c"), Some(clone_chars(&prefix)), sig)
    } else if starts_with_chars(p, chars_of("UART").as_slice()) {
        (chars_of("uart"), Some(clone_chars(&prefix)), sig)
    } else if starts_with_chars(p, chars_of("SPI").as_slice()) {
        (chars_of("spi"), Some(clone_chars(&prefix)), sig)
    } else if starts_with_chars(p, chars_of("CANFD").as_slice()) {
        let inst = sub_chars(p, 5, p.len());
        proof {
            assert(inst@ =~= prefix@.skip(5));
        }
        let s2 = match sig {
            Some(v) => if starts_with_chars(v.as_slice(), chars_of("CAN").as_slice()) {
                let w = sub_chars(v.as_slice(), 3, v.len());
                proof {
                    assert(w@ =~= v@.skip(3));
                }
                Some(w)
            } else {
                Some(v)
            },
            None => None,
        };
        (chars_of("can"), Some(lit_then("CAN", inst.as_slice())), s2)
    } else if starts_with_chars(p, chars_of("TIMA").as_slice()) || starts_with_chars(p, chars_of("TIMG").as_slice()) {
        (chars_of("timer"), Some(clone_chars(&prefix)), sig)
    } else if starts_with_chars(p, chars_of("COMP").as_slice()) {
        (chars_of("comp"), Some(clone_chars(&prefix)), sig)
    } else if starts_with_chars(p, chars_of("DAC").as_slice()) {
        (chars_of("dac"), Some(chars_of("DAC0")), sig)
    } else {
        (chars_of("system"), None, sig)
    }
}

/// The capabilities the chip pin function `function` gives (see [`inferred`]).
fn infer_capabilities(function: &[char]) -> (r: Vec<Capability>)
    ensures
        caps_view(r@) == inferred(function@),
{
    let u = ascii_upper(function);
    let (class, peripheral, signal) = infer_kind_exec(u.as_slice());
    let route = match &peripheral {
        Some(x) => Some(ascii_lower(x.as_slice())),
        None => None,
    };
    let is_timer = word_is(class.as_slice(), "timer");
    let base = Capability {
        function: sub_chars(function, 0, function.len()),
        class,
        peripheral: opt_clone(&peripheral),
        signal: opt_clone(&signal),
        route: opt_clone(&route),
    };
    proof {
        assert(function@.subrange(0, function@.len() as int) =~= function@);
    }
    let mut out: Vec<Capability> = Vec::new();
    out.push(base);
    if is_timer {
        let pwm = Capability {
            function: sub_chars(function, 0, function.len()),
            class: chars_of("pwm"),
            peripheral,
            signal,
            route,
        };
        out.push(pwm);
    }
    proof {
        assert(caps_view(out@) =~= inferred(function@));
    }
    out
}

// ─── views of a built profile ───────────────────────────────────────────

pub struct CapReqV {
    pub class: Option<Seq<char>>,
    pub function: Option<Seq<char>>,
    pub peripheral: Option<Seq<char>>,
    pub signal: Option<Seq<char>>,
    pub route: Option<Seq<char>>,
}

pub struct ResV {
    pub kind: Seq<char>,
    pub scope: Seq<char>,
    pub capability: CapReqV,
    pub bindings: Seq<(Seq<char>, Seq<char>)>,
    pub allow_reserved: bool,
    pub allow_releasable: bool,
}

pub struct ParamV {
    pub name: Seq<char>,
    pub ty: Seq<char>,
    pub optional: bool,
    pub variadic: bool,
    pub resource: Option<ResV>,
}

pub struct FunctionV {
    pub name: Seq<char>,
    pub description: Seq<char>,
    pub overloads: Seq<Seq<ParamV>>,
}

pub struct ModuleV {
    pub name: Seq<char>,
    pub description: Seq<char>,
    pub functions: Seq<FunctionV>,
}

pub struct PeriphV {
    pub id: Seq<char>,
    pub class: Seq<char>,
    pub instance: i64,
    pub signals: Seq<Seq<char>>,
}

pub struct ChipPinV {
    pub name: Seq<char>,
    pub caps: Seq<CapV>,
}

pub struct BoardPinV {
    pub id: Seq<char>,
    pub name: Seq<char>,
    pub aliases: Seq<Seq<char>>,
    pub chip_pin: Seq<char>,
    pub available: bool,
    pub allow_classes: Option<Seq<Seq<char>>>,
    pub deny_functions: Seq<Seq<char>>,
    pub preference: i64,
    pub reserved: Option<(Seq<char>, Seq<char>)>,
    pub occupied: Option<(Seq<char>, bool)>,
}

/// The whole content of a profile.
pub struct ProfileV {
    pub board_id: Seq<char>,
    pub chip_id: Seq<char>,
    pub api_id: Seq<char>,
    pub globals: Seq<FunctionV>,
    pub modules: Seq<ModuleV>,
    pub chip_pins: Seq<ChipPinV>,
    pub peripherals: Seq<PeriphV>,
    pub board_pins: Seq<BoardPinV>,
}

pub open spec fn capreq_view(r: CapabilityRequirement) -> CapReqV {
    CapReqV {
        class: opt_chars(r.class),
        function: opt_chars(r.function),
        peripheral: opt_chars(r.peripheral),
        signal: opt_chars(r.signal),
        route: opt_chars(r.route),
    }
}

pub open spec fn res_view(r: ResourceRequirement) -> ResV {
    ResV {
        kind: r.kind@,
        scope: r.scope@,
        capability: capreq_view(r.capability),
        bindings: pairs_view(r.bindings@),
        allow_reserved: r.allow_reserved,
        allow_releasable: r.allow_releasable,
    }
}

pub open spec fn param_view(x: ApiParam) -> ParamV {
    ParamV {
        name: x.name@,
        ty: x.ty@,
        optional: x.optional,
        variadic: x.variadic,
        resource: match x.resource {
            Some(r) => Some(res_view(r)),
            None => None,
        },
    }
}

pub open spec fn params_view(v: Seq<ApiParam>) -> Seq<ParamV> {
    v.map_values(|x: ApiParam| param_view(x))
}

pub open spec fn overloads_view(v: Seq<ApiOverload>) -> Seq<Seq<ParamV>> {
    v.map_values(|o: ApiOverload| params_view(o.params@))
}

pub open spec fn function_view(f: ApiFunction) -> FunctionV {
    FunctionV { name: f.name@, description: f.description@, overloads: overloads_view(f.overloads@) }
}

pub open spec fn functions_view(v: Seq<ApiFunction>) -> Seq<FunctionV> {
    v.map_values(|f: ApiFunction| function_view(f))
}

pub open spec fn module_view(m: ApiModule) -> ModuleV {
    ModuleV { name: m.name@, description: m.description@, functions: functions_view(m.functions@) }
}

pub open spec fn modules_view(v: Seq<ApiModule>) -> Seq<ModuleV> {
    v.map_values(|m: ApiModule| module_view(m))
}

pub open spec fn periph_view(x: Peripheral) -> PeriphV {
    PeriphV { id: x.id@, class: x.class@, instance: x.instance, signals: strs_view(x.signals@) }
}

pub open spec fn periphs_view(v: Seq<Peripheral>) -> Seq<PeriphV> {
    v.map_values(|x: Peripheral| periph_view(x))
}

pub open spec fn chip_pin_view(x: ChipPin) -> ChipPinV {
    ChipPinV { name: x.name@, caps: caps_view(x.capabilities@) }
}

pub open spec fn chip_pins_view(v: Seq<ChipPin>) -> Seq<ChipPinV> {
    v.map_values(|x: ChipPin| chip_pin_view(x))
}

pub open spec fn board_pin_view(x: BoardPin) -> BoardPinV {
    BoardPinV {
        id: x.id@,
        name: x.name@,
        aliases: strs_view(x.aliases@),
        chip_pin: x.chip_pin@,
        available: x.available,
        allow_classes: match x.allow_classes {
            Some(c) => Some(strs_view(c@)),
            None => None,
        },
        deny_functions: strs_view(x.deny_functions@),
        preference: x.preference,
        reserved: match x.reserved {
            Some(r) => Some((r.0@, r.1@)),
            None => None,
        },
        occupied: match x.occupied {
            Some(o) => Some((o.0@, o.1)),
            None => None,
        },
    }
}

pub open spec fn board_pins_view(v: Seq<BoardPin>) -> Seq<BoardPinV> {
    v.map_values(|x: BoardPin| board_pin_view(x))
}

/// The whole content of the profile `p`.
pub closed spec fn profile_view(p: TargetProfile) -> ProfileV {
    ProfileV {
        board_id: p.board_id@,
        chip_id: p.chip_id@,
        api_id: p.api_id@,
        globals: functions_view(p.globals_spec()),
        modules: modules_view(p.modules_spec()),
        chip_pins: chip_pins_view(p.chip_pins_spec()),
        peripherals: periphs_view(p.peripherals_spec()),
        board_pins: board_pins_view(p.board_pins_spec()),
    }
}

// ─── building a profile: the chip ───────────────────────────────────────

/// All capabilities the pin functions `fns` give, in order.
pub open spec fn flat_inferred(fns: Seq<Seq<char>>) -> Seq<CapV>
    decreases fns.len(),
{
    if fns.len() == 0 {
        Seq::empty()
    } else {
        flat_inferred(fns.drop_last()) + inferred(fns.last())
    }
}

/// Position of the peripheral `id`.
pub open spec fn periph_pos(ps: Seq<PeriphV>, id: Seq<char>) -> Option<int> {
    find_first(ps, |x: PeriphV| x.id == id)
}

/// The peripheral list after a capability is seen: a new peripheral (its
/// class from this capability, its instance the trailing number of its id
/// or 0) or one more signal of a known one.
pub open spec fn note_periph(ps: Seq<PeriphV>, c: CapV) -> Seq<PeriphV> {
    match c.peripheral {
        None => ps,
        Some(id) => match periph_pos(ps, id) {
            None => ps.push(PeriphV {
                id,
                class: c.class,
                instance: match trailing_num(id) {
                    Some(n) => n as i64,
                    None => 0,
                },
                signals: match c.signal {
                    Some(sg) => seq![sg],
                    None => Seq::empty(),
                },
            }),
            Some(i) => match c.signal {
                Some(sg) => if ps[i].signals.contains(sg) {
                    ps
                } else {
                    ps.update(i, PeriphV { signals: ps[i].signals.push(sg), ..ps[i] })
                },
                None => ps,
            },
        },
    }
}

/// The peripheral list after all of `cs` are seen.
pub open spec fn note_periphs(ps: Seq<PeriphV>, cs: Seq<CapV>) -> Seq<PeriphV>
    decreases cs.len(),
{
    if cs.len() == 0 {
        ps
    } else {
        note_periph(note_periphs(ps, cs.drop_last()), cs.last())
    }
}

/// The first pin function that is blank or repeats an earlier one.
pub open spec fn bad_function(fns: Seq<Seq<char>>) -> Option<int> {
    find_first(
        Seq::new(fns.len(), |j: int| j),
        |j: int| trim(fns[j]).len() == 0 || fns.take(j).contains(fns[j]),
    )
}

/// Chip pins and peripherals from the chip file's pin table, or the
/// first problem in it.
pub open spec fn chip_stage(pins: Seq<(Seq<char>, Seq<Seq<char>>)>) -> Result<(Seq<ChipPinV>, Seq<PeriphV>), Seq<char>>
    decreases pins.len(),
{
    if pins.len() == 0 {
        Ok((Seq::empty(), Seq::empty()))
    } else {
        match chip_stage(pins.drop_last()) {
            Err(e) => Err(e),
            Ok(st) => {
                let name = pins.last().0;
                let fns = pins.last().1;
                if fns.len() == 0 {
                    Err("芯片引脚 "@ + name + " 的功能复用列表不能为空"@)
                } else if exists|i: int| 0 <= i < st.0.len() && (#[trigger] st.0[i]).name == name {
                    Err("芯片文件存在重复引脚 "@ + name)
                } else {
                    match bad_function(fns) {
                        Some(j) => Err("芯片引脚 "@ + name + " 包含空值或重复功能 "@ + fns[j]),
                        None => Ok((
                            st.0.push(ChipPinV { name, caps: flat_inferred(fns) }),
                            note_periphs(st.1, flat_inferred(fns)),
                        )),
                    }
                }
            },
        }
    }
}

/// The chip file's pin table as plain values.
pub open spec fn pin_table(v: Seq<(String, Vec<String>)>) -> Seq<(Seq<char>, Seq<Seq<char>>)> {
    v.map_values(|x: (String, Vec<String>)| (x.0@, strings_view(x.1@)))
}

fn strings_chars(v: &Vec<String>) -> (r: Vec<Vec<char>>)
    ensures
        strs_view(r@) == strings_view(v@),
{
    let mut r: Vec<Vec<char>> = Vec::new();
    let mut i: usize = 0;
    while i < v.len()
        invariant
            i <= v@.len(),
            strs_view(r@) == strings_view(v@).take(i as int),
        decreases v.len() - i,
    {
        let c = chars_of(v[i].as_str());
        let ghost before = r@;
        r.push(c);
        proof {
            assert(c@ == strings_view(v@)[i as int]);
            assert(strs_view(r@) =~= strs_view(before).push(c@));
            assert(strs_view(r@) =~= strings_view(v@).take(i + 1));
        }
        i = i + 1;
    }
    proof {
        assert(strings_view(v@).take(i as int) =~= strings_view(v@));
    }
    r
}

fn first_bad_function(fns: &Vec<Vec<char>>) -> (r: Option<usize>)
    ensures
        match r {
            Some(j) => bad_function(strs_view(fns@)) == Some(j as int) && j < fns@.len(),
            None => bad_function(strs_view(fns@)) is None,
        },
{
    let ghost f = strs_view(fns@);
    let ghost idx = Seq::new(f.len(), |j: int| j);
    let ghost p = |j: int| trim(f[j]).len() == 0 || f.take(j).contains(f[j]);
    let mut seen: Vec<Vec<char>> = Vec::new();
    let mut k: usize = 0;
    while k < fns.len()
        invariant
            k <= fns@.len(),
            f == strs_view(fns@),
            idx == Seq::new(f.len(), |j: int| j),
            p == (|j: int| trim(f[j]).len() == 0 || f.take(j).contains(f[j])),
            strs_view(seen@) == f.take(k as int),
            forall|j: int| 0 <= j < k ==> !p(#[trigger] idx[j]),
        decreases fns.len() - k,
    {
        let (a, b) = trim_bounds(fns[k].as_slice(), 0, fns[k].len());
        proof {
            assert(fns@[k as int]@.subrange(0, fns@[k as int]@.len() as int) =~= fns@[k as int]@);
            assert(idx[k as int] == k);
            assert(f[k as int] == fns@[k as int]@);
        }
        if a == b || has_str(&seen, fns[k].as_slice()) {
            proof {
                lemma_find_first(idx, p, k as int);
            }
            return Some(k);
        }
        let x = clone_chars(&fns[k]);
        let ghost before = seen@;
        seen.push(x);
        proof {
            assert(strs_view(seen@) =~= strs_view(before).push(x@));
            assert(strs_view(seen@) =~= f.take(k + 1));
        }
        k = k + 1;
    }
    proof {
        lemma_find_first(idx, p, k as int);
    }
    None
}

fn find_periph_id(ps: &Vec<Peripheral>, id: &[char]) -> (r: Option<usize>)
    ensures
        match r {
            Some(i) => i < ps@.len() && periph_pos(periphs_view(ps@), id@) == Some(i as int),
            None => periph_pos(periphs_view(ps@), id@) is None,
        },
{
    let ghost pv = periphs_view(ps@);
    let ghost p = |x: PeriphV| x.id == id@;
    let mut k: usize = 0;
    while k < ps.len()
        invariant
            k <= ps@.len(),
            pv == periphs_view(ps@),
            p == (|x: PeriphV| x.id == id@),
            forall|j: int| 0 <= j < k ==> !p(#[trigger] pv[j]),
        decreases ps.len() - k,
    {
        if chars_eq(ps[k].id.as_slice(), id) {
            proof {
                lemma_find_first(pv, p, k as int);
            }
            return Some(k);
        }
        k = k + 1;
    }
    proof {
        lemma_find_first(pv, p, k as int);
    }
    None
}

fn note_peripheral(ps: &mut Vec<Peripheral>, c: &Capability)
    ensures
        periphs_view(final(ps)@) == note_periph(periphs_view(old(ps)@), cap_view(*c)),
{
    let id = match &c.peripheral {
        Some(id) => id,
        None => return,
    };
    match find_periph_id(ps, id.as_slice()) {
        None => {
            let instance: i64 = match trailing_number(id.as_slice()) {
                Some(n) => n as i64,
                None => 0,
            };
            let mut signals: Vec<Vec<char>> = Vec::new();
            match &c.signal {
                Some(sg) => signals.push(clone_chars(sg)),
                None => {},
            }
            let x = Peripheral { id: clone_chars(id), class: clone_chars(&c.class), instance, signals };
            let ghost before = ps@;
            ps.push(x);
            proof {
                assert(strs_view(x.signals@) =~= match cap_view(*c).signal {
                    Some(sg) => seq![sg],
                    None => Seq::<Seq<char>>::empty(),
                });
                assert(periphs_view(ps@) =~= periphs_view(before).push(periph_view(x)));
            }
        },
        Some(i) => {
            match &c.signal {
                Some(sg) => {
                    if !has_str(&ps[i].signals, sg.as_slice()) {
                        let ghost before = ps@;
                        let mut x = ps.remove(i);
                        let ghost x0 = x;
                        x.signals.push(clone_chars(sg));
                        ps.insert(i, x);
                        proof {
                            assert(strs_view(x.signals@) =~= strs_view(x0.signals@).push(sg@));
                            assert(ps@ =~= before.update(i as int, x));
                            assert(periphs_view(ps@) =~= periphs_view(before).update(i as int, periph_view(x)));
                        }
                    }
                },
                None => {},
            }
        },
    }
}

/// Chip pins and peripherals from the chip's pin table (see [`chip_stage`]).
fn build_chip_pins(pins: &Vec<(String, Vec<String>)>) -> (r: Result<(Vec<ChipPin>, Vec<Peripheral>), Vec<char>>)
    ensures
        match r {
            Ok(st) => chip_stage(pin_table(pins@)) == Ok::<(Seq<ChipPinV>, Seq<PeriphV>), Seq<char>>(
                (chip_pins_view(st.0@), periphs_view(st.1@)),
            ),
            Err(e) => chip_stage(pin_table(pins@)) == Err::<(Seq<ChipPinV>, Seq<PeriphV>), Seq<char>>(e@),
        },
{
    let ghost t = pin_table(pins@);
    let mut cps: Vec<ChipPin> = Vec::new();
    let mut ps: Vec<Peripheral> = Vec::new();
    let mut k: usize = 0;
    proof {
        assert(t.take(0) =~= Seq::<(Seq<char>, Seq<Seq<char>>)>::empty());
        assert(chip_pins_view(cps@) =~= Seq::<ChipPinV>::empty());
        assert(periphs_view(ps@) =~= Seq::<PeriphV>::empty());
    }
    while k < pins.len()
        invariant
            k <= pins@.len(),
            t == pin_table(pins@),
            chip_stage(t.take(k as int)) == Ok::<(Seq<ChipPinV>, Seq<PeriphV>), Seq<char>>(
                (chip_pins_view(cps@), periphs_view(ps@)),
            ),
        decreases pins.len() - k,
    {
        proof {
            assert(t.take(k + 1).drop_last() =~= t.take(k as int));
            assert(t.take(k + 1).last() == (pins@[k as int].0@, strings_view(pins@[k as int].1@)));
        }
        let name = chars_of(pins[k].0.as_str());
        let fns = strings_chars(&pins[k].1);
        proof {
            assert(strs_view(fns@) == t[k as int].1);
            assert(name@ == t[k as int].0);
        }
        if fns.len() == 0 {
            let m = join3("芯片引脚 ", name.as_slice(), " 的功能复用列表不能为空");
            proof {
                lemma_chip_stage_err(t, k + 1);
            }
            return Err(m);
        }
        let ghost cv = chip_pins_view(cps@);
        let mut j: usize = 0;
        while j < cps.len()
            invariant
                j <= cps@.len(),
                cv == chip_pins_view(cps@),
                forall|i: int| 0 <= i < j ==> (#[trigger] cv[i]).name != name@,
                k < pins@.len(),
                t == pin_table(pins@),
                name@ == t[k as int].0,
                chip_stage(t.take(k as int)) == Ok::<(Seq<ChipPinV>, Seq<PeriphV>), Seq<char>>(
                    (chip_pins_view(cps@), periphs_view(ps@)),
                ),
                t.take(k + 1).drop_last() == t.take(k as int),
                t.take(k + 1).last() == t[k as int],
                strs_view(fns@) == t[k as int].1,
                fns@.len() > 0,
            decreases cps.len() - j,
        {
            if chars_eq(cps[j].name.as_slice(), name.as_slice()) {
                proof {
                    assert(cv[j as int].name == name@);
                }
                let mut m = chars_of("芯片文件存在重复引脚 ");
                append_chars(&mut m, name.as_slice());
                proof {
                    lemma_chip_stage_err(t, k + 1);
                }
                return Err(m);
            }
            j = j + 1;
        }
        match first_bad_function(&fns) {
            Some(b) => {
                let mut m = join3("芯片引脚 ", name.as_slice(), " 包含空值或重复功能 ");
                append_chars(&mut m, fns[b].as_slice());
                proof {
                    lemma_chip_stage_err(t, k + 1);
                }
                return Err(m);
            },
            None => {},
        }
        let ghost fv = strs_view(fns@);
        let ghost ps0 = periphs_view(ps@);
        let mut caps: Vec<Capability> = Vec::new();
        let mut i: usize = 0;
        proof {
            assert(fv.take(0) =~= Seq::<Seq<char>>::empty());
            assert(caps_view(caps@) =~= Seq::<CapV>::empty());
        }
        while i < fns.len()
            invariant
                i <= fns@.len(),
                fv == strs_view(fns@),
                caps_view(caps@) == flat_inferred(fv.take(i as int)),
                periphs_view(ps@) == note_periphs(ps0, flat_inferred(fv.take(i as int))),
            decreases fns.len() - i,
        {
            proof {
                assert(fv.take(i + 1).drop_last() =~= fv.take(i as int));
                assert(fv.take(i + 1).last() == fns@[i as int]@);
            }
            let more = infer_capabilities(fns[i].as_slice());
            let mut q: usize = 0;
            let ghost c0 = caps_view(caps@);
            let ghost p0 = periphs_view(ps@);
            proof {
                assert(more@.take(0) =~= Seq::<Capability>::empty());
                assert(c0 + caps_view(more@.take(0)) =~= c0);
                lemma_note_periphs_append(ps0, flat_inferred(fv.take(i as int)), caps_view(more@.take(0)));
            }
            while q < more.len()
                invariant
                    q <= more@.len(),
                    caps_view(caps@) == c0 + caps_view(more@.take(q as int)),
                    periphs_view(ps@) == note_periphs(p0, caps_view(more@.take(q as int))),
                decreases more.len() - q,
            {
                proof {
                    assert(more@.take(q + 1).drop_last() =~= more@.take(q as int));
                    assert(caps_view(more@.take(q + 1)) =~= caps_view(more@.take(q as int)).push(cap_view(more@[q as int])));
                    assert(caps_view(more@.take(q + 1)).drop_last() =~= caps_view(more@.take(q as int)));
                }
                note_peripheral(&mut ps, &more[q]);
                let c = Capability {
                    function: clone_chars(&more[q].function),
                    class: clone_chars(&more[q].class),
                    peripheral: opt_clone(&more[q].peripheral),
                    signal: opt_clone(&more[q].signal),
                    route: opt_clone(&more[q].route),
                };
                let ghost before = caps@;
                caps.push(c);
                proof {
                    assert(cap_view(c) == cap_view(more@[q as int]));
                    assert(caps_view(caps@) =~= caps_view(before).push(cap_view(c)));
                }
                q = q + 1;
            }
            proof {
                assert(more@.take(q as int) =~= more@);
                lemma_note_periphs_append(ps0, flat_inferred(fv.take(i as int)), caps_view(more@));
            }
            i = i + 1;
        }
        proof {
            assert(fv.take(i as int) =~= fv);
            assert(fv == strings_view(pins@[k as int].1@));
        }
        let ghost before = cps@;
        let cp = ChipPin { name, capabilities: caps };
        cps.push(cp);
        proof {
            assert(chip_pins_view(cps@) =~= chip_pins_view(before).push(chip_pin_view(cp)));
        }
        k = k + 1;
    }
    proof {
        assert(t.take(k as int) =~= t);
    }
    Ok((cps, ps))
}

proof fn lemma_chip_stage_err(t: Seq<(Seq<char>, Seq<Seq<char>>)>, k: int)
    requires
        0 <= k <= t.len(),
        chip_stage(t.take(k)) is Err,
    ensures
        chip_stage(t) == chip_stage(t.take(k)),
    decreases t.len() - k,
{
    if k < t.len() {
        assert(t.take(k + 1).drop_last() =~= t.take(k));
        lemma_chip_stage_err(t, k + 1);
    } else {
        assert(t.take(k) =~= t);
    }
}

proof fn lemma_note_periphs_append(ps: Seq<PeriphV>, a: Seq<CapV>, b: Seq<CapV>)
    ensures
        note_periphs(ps, a + b) == note_periphs(note_periphs(ps, a), b),
    decreases b.len(),
{
    if b.len() == 0 {
        assert(a + b =~= a);
    } else {
        lemma_note_periphs_append(ps, a, b.drop_last());
        assert((a + b).drop_last() =~= a + b.drop_last());
        assert((a + b).last() == b.last());
    }
}

// ─── JSON values ────────────────────────────────────────────────────────

/// A JSON value as the metadata logic reads it.
#[derive(Debug)]
pub enum Json {
    Null,
    Bool(bool),
    /// A number: itself when it is an integer that fits `i64`, and its
    /// text as JSON writes it.
    Number(Option<i64>, Vec<char>),
    Str(Vec<char>),
    Array(Vec<Json>),
    /// Members in order; keys are distinct.
    Object(Vec<JsonMember>),
}

/// A member of a JSON object.
#[derive(Debug)]
pub struct JsonMember {
    pub key: Vec<char>,
    pub value: Json,
}

/// The member `key` of the member list `m`.
pub open spec fn member(m: Seq<JsonMember>, key: Seq<char>) -> Option<Json>
    decreases m.len(),
{
    if m.len() == 0 {
        None
    } else if m[0].key@ == key {
        Some(m[0].value)
    } else {
        member(m.drop_first(), key)
    }
}

/// `Value::get`: the member `key` of an object.
pub open spec fn jget(v: Json, key: Seq<char>) -> Option<Json> {
    match v {
        Json::Object(m) => member(m@, key),
        _ => None,
    }
}

/// `Value::as_str` of an optional value.
pub open spec fn jstr(v: Option<Json>) -> Option<Seq<char>> {
    match v {
        Some(Json::Str(x)) => Some(x@),
        _ => None,
    }
}

/// `Value::as_bool` of an optional value.
pub open spec fn jbool(v: Option<Json>) -> Option<bool> {
    match v {
        Some(Json::Bool(b)) => Some(b),
        _ => None,
    }
}

/// `Value::as_bool`, `false` when absent.
pub open spec fn jflag(v: Option<Json>) -> bool {
    match jbool(v) {
        Some(b) => b,
        None => false,
    }
}

/// The member `key` of a member list.
pub(crate) fn member_of<'a>(m: &'a Vec<JsonMember>, key: &[char]) -> (r: Option<&'a Json>)
    ensures
        match r {
            Some(x) => member(m@, key@) == Some(*x),
            None => member(m@, key@) is None,
        },
{
    let mut i: usize = 0;
    proof {
        assert(m@.skip(0) =~= m@);
    }
    while i < m.len()
        invariant
            i <= m@.len(),
            member(m@, key@) == member(m@.skip(i as int), key@),
        decreases m.len() - i,
    {
        proof {
            assert(m@.skip(i as int).drop_first() =~= m@.skip(i + 1));
            assert(m@.skip(i as int)[0] == m@[i as int]);
        }
        if chars_eq(m[i].key.as_slice(), key) {
            return Some(&m[i].value);
        }
        i = i + 1;
    }
    None
}

/// `Value::get`.
pub fn json_get<'a>(v: &'a Json, key: &str) -> (r: Option<&'a Json>)
    ensures
        match r {
            Some(x) => jget(*v, key@) == Some(*x),
            None => jget(*v, key@) is None,
        },
{
    match v {
        Json::Object(m) => {
            let k = chars_of(key);
            member_of(m, k.as_slice())
        },
        _ => None,
    }
}

/// `Value::as_str` of an optional value.
pub(crate) fn json_str(v: Option<&Json>) -> (r: Option<Vec<char>>)
    ensures
        opt_chars(r) == jstr(match v {
            Some(x) => Some(*x),
            None => None,
        }),
{
    match v {
        Some(Json::Str(x)) => Some(clone_chars(x)),
        _ => None,
    }
}

/// `Value::as_bool`, `false` when absent.
fn json_flag(v: Option<&Json>) -> (r: bool)
    ensures
        r == jflag(match v {
            Some(x) => Some(*x),
            None => None,
        }),
{
    match v {
        Some(Json::Bool(b)) => *b,
        _ => false,
    }
}

/// The string members of an object, as (key, value).
pub open spec fn str_members(m: Seq<JsonMember>) -> Seq<(Seq<char>, Seq<char>)>
    decreases m.len(),
{
    if m.len() == 0 {
        Seq::empty()
    } else {
        match m.last().value {
            Json::Str(x) => str_members(m.drop_last()).push((m.last().key@, x@)),
            _ => str_members(m.drop_last()),
        }
    }
}

/// A string field of the optional object `cap`.
pub open spec fn cap_field(cap: Option<Json>, key: Seq<char>) -> Option<Seq<char>> {
    match cap {
        Some(c) => jstr(jget(c, key)),
        None => None,
    }
}

/// The resource requirement a parameter's `resource` object states: its
/// `kind` and `scope` (required strings), the capability fields, the
/// string-valued `bindings`, and the two flags (`false` when absent).
pub open spec fn resource_of(v: Json) -> Result<ResV, Seq<char>> {
    match jstr(jget(v, "kind"@)) {
        None => Err("缺少字符串字段 kind"@),
        Some(kind) => match jstr(jget(v, "scope"@)) {
            None => Err("缺少字符串字段 scope"@),
            Some(scope) => {
                let cap = jget(v, "capability"@);
                Ok(ResV {
                    kind,
                    scope,
                    capability: CapReqV {
                        class: cap_field(cap, "class"@),
                        function: cap_field(cap, "function"@),
                        peripheral: cap_field(cap, "peripheral"@),
                        signal: cap_field(cap, "signal"@),
                        route: cap_field(cap, "route"@),
                    },
                    bindings: match jget(v, "bindings"@) {
                        Some(Json::Object(m)) => str_members(m@),
                        _ => Seq::empty(),
                    },
                    allow_reserved: jflag(jget(v, "allow_reserved"@)),
                    allow_releasable: jflag(jget(v, "allow_releasable"@)),
                })
            },
        },
    }
}

fn cap_str(cap: Option<&Json>, key: &str) -> (r: Option<Vec<char>>)
    ensures
        opt_chars(r) == cap_field(match cap {
            Some(x) => Some(*x),
            None => None,
        }, key@),
{
    match cap {
        Some(c) => json_str(json_get(c, key)),
        None => None,
    }
}

fn string_members(m: &Vec<JsonMember>) -> (r: Vec<(Vec<char>, Vec<char>)>)
    ensures
        pairs_view(r@) == str_members(m@),
{
    let mut r: Vec<(Vec<char>, Vec<char>)> = Vec::new();
    let mut i: usize = 0;
    proof {
        assert(m@.take(0) =~= Seq::<JsonMember>::empty());
        assert(pairs_view(r@) =~= Seq::<(Seq<char>, Seq<char>)>::empty());
    }
    while i < m.len()
        invariant
            i <= m@.len(),
            pairs_view(r@) == str_members(m@.take(i as int)),
        decreases m.len() - i,
    {
        proof {
            assert(m@.take(i + 1).drop_last() =~= m@.take(i as int));
            assert(m@.take(i + 1).last() == m@[i as int]);
        }
        match &m[i].value {
            Json::Str(x) => {
                let ghost before = r@;
                r.push((clone_chars(&m[i].key), clone_chars(x)));
                proof {
                    assert(pairs_view(r@) =~= pairs_view(before).push((m@[i as int].key@, x@)));
                }
            },
            _ => {},
        }
        i = i + 1;
    }
    proof {
        assert(m@.take(i as int) =~= m@);
    }
    r
}

/// The resource requirement the JSON object `v` states (see [`resource_of`]).
fn parse_resource(v: &Json) -> (r: Result<ResourceRequirement, Vec<char>>)
    ensures
        match r {
            Ok(x) => resource_of(*v) == Ok::<ResV, Seq<char>>(res_view(x)),
            Err(e) => resource_of(*v) == Err::<ResV, Seq<char>>(e@),
        },
{
    let cap = json_get(v, "capability");
    let bindings = match json_get(v, "bindings") {
        Some(Json::Object(m)) => string_members(m),
        _ => {
            let b: Vec<(Vec<char>, Vec<char>)> = Vec::new();
            proof {
                assert(pairs_view(b@) =~= Seq::<(Seq<char>, Seq<char>)>::empty());
            }
            b
        },
    };
    let kind = match json_str(json_get(v, "kind")) {
        Some(k) => k,
        None => return Err(chars_of("缺少字符串字段 kind")),
    };
    let scope = match json_str(json_get(v, "scope")) {
        Some(k) => k,
        None => return Err(chars_of("缺少字符串字段 scope")),
    };
    let x = ResourceRequirement {
        kind,
        scope,
        capability: CapabilityRequirement {
            class: cap_str(cap, "class"),
            function: cap_str(cap, "function"),
            peripheral: cap_str(cap, "peripheral"),
            signal: cap_str(cap, "signal"),
            route: cap_str(cap, "route"),
        },
        bindings,
        allow_reserved: json_flag(json_get(v, "allow_reserved")),
        allow_releasable: json_flag(json_get(v, "allow_releasable")),
    };
    Ok(x)
}

// ─── building a profile: the three simple files ─────────────────────────

/// The chip file: its name and each pin's function list, pins in
/// ascending order of name.
pub struct SimpleChip {
    pub name: String,
    pub pins: Vec<(String, Vec<String>)>,
}

/// The board's exposed pins: names that equal chip pin names, or a table
/// from exposed name to chip pin (ascending by exposed name).
pub enum SimpleBoardPins {
    Direct(Vec<String>),
    Mapped(Vec<(String, String)>),
}

/// An external flash on the board and the chip pins it holds (a table
/// from the flash signal to the chip pin, ascending by signal).
pub struct SimpleFlash {
    pub name: String,
    pub storage: String,
    pub luac: bool,
    pub pins: Vec<(String, String)>,
}

/// The board file.
pub struct SimpleBoard {
    pub name: String,
    pub chip: String,
    pub pins: SimpleBoardPins,
    pub flash: Option<SimpleFlash>,
}

/// One parameter of an API overload; `resource` is the JSON object that
/// describes the hardware resource the parameter names, if any.
pub struct SimpleParam {
    pub name: String,
    pub ty: String,
    pub optional: bool,
    pub variadic: bool,
    pub resource: Option<Json>,
}

/// One overload: its parameters and the types it returns.
pub struct SimpleOverload {
    pub params: Vec<SimpleParam>,
    pub returns: Vec<String>,
}

pub struct SimpleFunction {
    pub name: String,
    pub description: String,
    pub overloads: Vec<SimpleOverload>,
}

pub struct SimpleModule {
    pub name: String,
    pub description: String,
    pub functions: Vec<SimpleFunction>,
}

/// The API file: the chip it is for (or an id whose first `.`-separated
/// part names it), the ids of its declared types and enums, its global
/// functions and its modules.
pub struct SimpleApi {
    pub chip: String,
    pub id: String,
    pub types: Vec<String>,
    pub enums: Vec<String>,
    pub globals: Vec<SimpleFunction>,
    pub modules: Vec<SimpleModule>,
}

/// The chip an API file declares.
pub open spec fn api_chip(api: SimpleApi) -> Seq<char> {
    if api.chip@.len() == 0 {
        api.id@.take(find_char(api.id@, '.') as int)
    } else {
        api.chip@
    }
}

/// The first problem among the three files' headers.
pub open spec fn header_problem(chip: SimpleChip, board: SimpleBoard, api: SimpleApi) -> Option<Seq<char>> {
    if chip.name@ != board.chip@ {
        Some("三文件不一致：开发板引用 "@ + board.chip@ + "，芯片文件声明 "@ + chip.name@)
    } else if api_chip(api) != chip.name@ {
        Some("三文件不一致：芯片为 "@ + chip.name@ + "，API 声明 "@ + api.chip@)
    } else if !ident_ok(chip.name@) {
        Some(msg_ident(chip.name@, "芯片 name"@))
    } else if chip.pins@.len() == 0 {
        Some("芯片文件 pins 不能为空"@)
    } else {
        None
    }
}

/// The chip has a pin named `n`.
pub open spec fn has_chip_pin(cps: Seq<ChipPinV>, n: Seq<char>) -> bool {
    exists|i: int| 0 <= i < cps.len() && (#[trigger] cps[i]).name == n
}

/// The chip pins the board's flash holds.
pub open spec fn flash_pin_names(board: SimpleBoard) -> Seq<Seq<char>> {
    match board.flash {
        Some(f) => f.pins@.map_values(|x: (String, String)| x.1@),
        None => Seq::empty(),
    }
}

/// The first problem with the board's flash.
pub open spec fn flash_problem(board: SimpleBoard, cps: Seq<ChipPinV>) -> Option<Seq<char>> {
    match board.flash {
        None => None,
        Some(f) => if trim(f.name@).len() == 0 || f.storage@ != "external"@ || !f.luac {
            Some("开发板 flash 必须声明非空 name、storage=external 和 luac=true"@)
        } else {
            match find_first(flash_pin_names(board), |n: Seq<char>| !has_chip_pin(cps, n)) {
                Some(i) => Some("开发板 flash 引用了芯片中不存在的引脚 "@ + flash_pin_names(board)[i]),
                None => None,
            }
        },
    }
}

/// The board's exposed pins as (exposed name, chip pin).
pub open spec fn pin_pairs(board: SimpleBoard) -> Seq<(Seq<char>, Seq<char>)> {
    match board.pins {
        SimpleBoardPins::Direct(v) => v@.map_values(|x: String| (x@, x@)),
        SimpleBoardPins::Mapped(v) => v@.map_values(|x: (String, String)| (x.0@, x.1@)),
    }
}

/// Board pins for the exposed pins `pairs`, or the first problem.
pub open spec fn board_stage(
    pairs: Seq<(Seq<char>, Seq<char>)>,
    cps: Seq<ChipPinV>,
    flash: Seq<Seq<char>>,
) -> Result<Seq<BoardPinV>, Seq<char>>
    decreases pairs.len(),
{
    if pairs.len() == 0 {
        Ok(Seq::empty())
    } else {
        match board_stage(pairs.drop_last(), cps, flash) {
            Err(e) => Err(e),
            Ok(bps) => {
                let name = pairs.last().0;
                let cp = pairs.last().1;
                if exists|i: int| 0 <= i < bps.len() && (#[trigger] bps[i]).name == name {
                    Err("开发板存在重复引出脚名称 "@ + name)
                } else if !has_chip_pin(cps, cp) {
                    Err("开发板引出脚 "@ + name + " 引用了芯片中不存在的引脚 "@ + cp)
                } else {
                    Ok(bps.push(BoardPinV {
                        id: name,
                        name,
                        aliases: Seq::empty(),
                        chip_pin: cp,
                        available: true,
                        allow_classes: None,
                        deny_functions: Seq::empty(),
                        preference: 0,
                        reserved: None,
                        occupied: if flash.contains(cp) {
                            Some(("external-flash"@, false))
                        } else {
                            None
                        },
                    }))
                }
            },
        }
    }
}

/// The board's pins, or the first problem with its flash or pins.
pub open spec fn board_part(board: SimpleBoard, cps: Seq<ChipPinV>) -> Result<Seq<BoardPinV>, Seq<char>> {
    match flash_problem(board, cps) {
        Some(e) => Err(e),
        None => if pin_pairs(board).len() == 0 {
            Err("开发板 pins 不能为空"@)
        } else {
            board_stage(pin_pairs(board), cps, flash_pin_names(board))
        },
    }
}

fn header_check(chip: &SimpleChip, board: &SimpleBoard, api: &SimpleApi) -> (r: Result<(), Vec<char>>)
    ensures
        match r {
            Ok(()) => header_problem(*chip, *board, *api) is None,
            Err(e) => header_problem(*chip, *board, *api) == Some(e@),
        },
{
    let cname = chars_of(chip.name.as_str());
    let bchip = chars_of(board.chip.as_str());
    if !chars_eq(cname.as_slice(), bchip.as_slice()) {
        let mut m = join3("三文件不一致：开发板引用 ", bchip.as_slice(), "，芯片文件声明 ");
        append_chars(&mut m, cname.as_slice());
        return Err(m);
    }
    let achip = chars_of(api.chip.as_str());
    let declared = if achip.len() == 0 {
        let id = chars_of(api.id.as_str());
        let mut k: usize = 0;
        proof {
            crate::text::lemma_find_char(id@, '.');
        }
        while k < id.len() && id[k] != '.'
            invariant
                k <= id@.len(),
                k <= find_char(id@, '.'),
                forall|j: int| 0 <= j < find_char(id@, '.') ==> #[trigger] id@[j] != '.',
                find_char(id@, '.') < id@.len() ==> id@[find_char(id@, '.') as int] == '.',
                find_char(id@, '.') <= id@.len(),
            decreases id.len() - k,
        {
            k = k + 1;
        }
        sub_chars(id.as_slice(), 0, k)
    } else {
        clone_chars(&achip)
    };
    proof {
        assert(declared@ =~= api_chip(*api));
    }
    if !chars_eq(declared.as_slice(), cname.as_slice()) {
        let mut m = join3("三文件不一致：芯片为 ", cname.as_slice(), "，API 声明 ");
        append_chars(&mut m, achip.as_slice());
        return Err(m);
    }
    match ident_check(cname.as_slice(), "芯片 name") {
        Err(m) => return Err(m),
        Ok(()) => {},
    }
    if chip.pins.len() == 0 {
        return Err(chars_of("芯片文件 pins 不能为空"));
    }
    Ok(())
}

fn chip_pin_exists(cps: &Vec<ChipPin>, n: &[char]) -> (r: bool)
    ensures
        r == has_chip_pin(chip_pins_view(cps@), n@),
{
    let ghost cv = chip_pins_view(cps@);
    let mut k: usize = 0;
    while k < cps.len()
        invariant
            k <= cps@.len(),
            cv == chip_pins_view(cps@),
            forall|j: int| 0 <= j < k ==> (#[trigger] cv[j]).name != n@,
        decreases cps.len() - k,
    {
        if chars_eq(cps[k].name.as_slice(), n) {
            proof {
                assert(cv[k as int].name == n@);
            }
            return true;
        }
        k = k + 1;
    }
    false
}

fn flash_names(board: &SimpleBoard) -> (r: Vec<Vec<char>>)
    ensures
        strs_view(r@) == flash_pin_names(*board),
{
    let mut r: Vec<Vec<char>> = Vec::new();
    match &board.flash {
        None => {
            proof {
                assert(strs_view(r@) =~= Seq::<Seq<char>>::empty());
            }
        },
        Some(f) => {
            let ghost fv = f.pins@.map_values(|x: (String, String)| x.1@);
            let mut i: usize = 0;
            while i < f.pins.len()
                invariant
                    i <= f.pins@.len(),
                    fv == f.pins@.map_values(|x: (String, String)| x.1@),
                    strs_view(r@) == fv.take(i as int),
                decreases f.pins.len() - i,
            {
                let c = chars_of(f.pins[i].1.as_str());
                let ghost before = r@;
                r.push(c);
                proof {
                    assert(strs_view(r@) =~= strs_view(before).push(c@));
                    assert(strs_view(r@) =~= fv.take(i + 1));
                }
                i = i + 1;
            }
            proof {
                assert(fv.take(i as int) =~= fv);
            }
        },
    }
    r
}

fn pairs_of(board: &SimpleBoard) -> (r: Vec<(Vec<char>, Vec<char>)>)
    ensures
        pairs_view(r@) == pin_pairs(*board),
{
    let mut r: Vec<(Vec<char>, Vec<char>)> = Vec::new();
    let ghost target = pin_pairs(*board);
    match &board.pins {
        SimpleBoardPins::Direct(v) => {
            let mut i: usize = 0;
            while i < v.len()
                invariant
                    i <= v@.len(),
                    target == v@.map_values(|x: String| (x@, x@)),
                    pairs_view(r@) == target.take(i as int),
                decreases v.len() - i,
            {
                let a = chars_of(v[i].as_str());
                let b = chars_of(v[i].as_str());
                let ghost before = r@;
                r.push((a, b));
                proof {
                    assert(pairs_view(r@) =~= pairs_view(before).push((a@, b@)));
                    assert(pairs_view(r@) =~= target.take(i + 1));
                }
                i = i + 1;
            }
            proof {
                assert(target.take(i as int) =~= target);
            }
        },
        SimpleBoardPins::Mapped(v) => {
            let mut i: usize = 0;
            while i < v.len()
                invariant
                    i <= v@.len(),
                    target == v@.map_values(|x: (String, String)| (x.0@, x.1@)),
                    pairs_view(r@) == target.take(i as int),
                decreases v.len() - i,
            {
                let a = chars_of(v[i].0.as_str());
                let b = chars_of(v[i].1.as_str());
                let ghost before = r@;
                r.push((a, b));
                proof {
                    assert(pairs_view(r@) =~= pairs_view(before).push((a@, b@)));
                    assert(pairs_view(r@) =~= target.take(i + 1));
                }
                i = i + 1;
            }
            proof {
                assert(target.take(i as int) =~= target);
            }
        },
    }
    r
}

proof fn lemma_board_stage_err(t: Seq<(Seq<char>, Seq<char>)>, cps: Seq<ChipPinV>, flash: Seq<Seq<char>>, k: int)
    requires
        0 <= k <= t.len(),
        board_stage(t.take(k), cps, flash) is Err,
    ensures
        board_stage(t, cps, flash) == board_stage(t.take(k), cps, flash),
    decreases t.len() - k,
{
    if k < t.len() {
        assert(t.take(k + 1).drop_last() =~= t.take(k));
        lemma_board_stage_err(t, cps, flash, k + 1);
    } else {
        assert(t.take(k) =~= t);
    }
}

/// The board's pins (see [`board_part`]).
fn build_board_pins(board: &SimpleBoard, cps: &Vec<ChipPin>) -> (r: Result<Vec<BoardPin>, Vec<char>>)
    ensures
        match r {
            Ok(bps) => board_part(*board, chip_pins_view(cps@)) == Ok::<Seq<BoardPinV>, Seq<char>>(board_pins_view(bps@)),
            Err(e) => board_part(*board, chip_pins_view(cps@)) == Err::<Seq<BoardPinV>, Seq<char>>(e@),
        },
{
    let ghost cv = chip_pins_view(cps@);
    let flash = flash_names(board);
    match &board.flash {
        None => {},
        Some(f) => {
            let fname = chars_of(f.name.as_str());
            let (a, b) = trim_bounds(fname.as_slice(), 0, fname.len());
            proof {
                assert(fname@.subrange(0, fname@.len() as int) =~= fname@);
            }
            if a == b || !word_is(chars_of(f.storage.as_str()).as_slice(), "external") || !f.luac {
                return Err(chars_of("开发板 flash 必须声明非空 name、storage=external 和 luac=true"));
            }
            let ghost fl = flash_pin_names(*board);
            let ghost p = |n: Seq<char>| !has_chip_pin(cv, n);
            let mut i: usize = 0;
            while i < flash.len()
                invariant
                    i <= flash@.len(),
                    fl == strs_view(flash@),
                    fl == flash_pin_names(*board),
                    board.flash == Some(*f),
                    !(trim(f.name@).len() == 0 || f.storage@ != "external"@ || !f.luac),
                    cv == chip_pins_view(cps@),
                    p == (|n: Seq<char>| !has_chip_pin(cv, n)),
                    forall|j: int| 0 <= j < i ==> !p(#[trigger] fl[j]),
                decreases flash.len() - i,
            {
                if !chip_pin_exists(cps, flash[i].as_slice()) {
                    proof {
                        lemma_find_first(fl, p, i as int);
                    }
                    let mut m = chars_of("开发板 flash 引用了芯片中不存在的引脚 ");
                    append_chars(&mut m, flash[i].as_slice());
                    return Err(m);
                }
                i = i + 1;
            }
            proof {
                lemma_find_first(fl, p, i as int);
            }
        },
    }
    let pairs = pairs_of(board);
    if pairs.len() == 0 {
        return Err(chars_of("开发板 pins 不能为空"));
    }
    let ghost t = pairs_view(pairs@);
    let ghost fl = strs_view(flash@);
    let mut bps: Vec<BoardPin> = Vec::new();
    let mut k: usize = 0;
    proof {
        assert(t.take(0) =~= Seq::<(Seq<char>, Seq<char>)>::empty());
        assert(board_pins_view(bps@) =~= Seq::<BoardPinV>::empty());
    }
    while k < pairs.len()
        invariant
            k <= pairs@.len(),
            t == pairs_view(pairs@),
            t == pin_pairs(*board),
            t.len() > 0,
            fl == strs_view(flash@),
            fl == flash_pin_names(*board),
            flash_problem(*board, cv) is None,
            cv == chip_pins_view(cps@),
            board_stage(t.take(k as int), cv, fl) == Ok::<Seq<BoardPinV>, Seq<char>>(board_pins_view(bps@)),
        decreases pairs.len() - k,
    {
        proof {
            assert(t.take(k + 1).drop_last() =~= t.take(k as int));
            assert(t.take(k + 1).last() == (pairs@[k as int].0@, pairs@[k as int].1@));
        }
        let name = &pairs[k].0;
        let cp = &pairs[k].1;
        let ghost bv = board_pins_view(bps@);
        let mut j: usize = 0;
        while j < bps.len()
            invariant
                j <= bps@.len(),
                bv == board_pins_view(bps@),
                forall|i: int| 0 <= i < j ==> (#[trigger] bv[i]).name != name@,
                k < pairs@.len(),
                t == pairs_view(pairs@),
                t == pin_pairs(*board),
                fl == flash_pin_names(*board),
                flash_problem(*board, cv) is None,
                cv == chip_pins_view(cps@),
                board_stage(t.take(k as int), cv, fl) == Ok::<Seq<BoardPinV>, Seq<char>>(board_pins_view(bps@)),
                t.take(k + 1).drop_last() == t.take(k as int),
                t.take(k + 1).last() == (name@, cp@),
            decreases bps.len() - j,
        {
            if chars_eq(bps[j].name.as_slice(), name.as_slice()) {
                proof {
                    assert(bv[j as int].name == name@);
                    lemma_board_stage_err(t, cv, fl, k + 1);
                }
                let mut m = chars_of("开发板存在重复引出脚名称 ");
                append_chars(&mut m, name.as_slice());
                return Err(m);
            }
            j = j + 1;
        }
        if !chip_pin_exists(cps, cp.as_slice()) {
            proof {
                lemma_board_stage_err(t, cv, fl, k + 1);
            }
            let mut m = join3("开发板引出脚 ", name.as_slice(), " 引用了芯片中不存在的引脚 ");
            append_chars(&mut m, cp.as_slice());
            return Err(m);
        }
        let occupied = if has_str(&flash, cp.as_slice()) {
            Some((chars_of("external-flash"), false))
        } else {
            None
        };
        let bp = BoardPin {
            id: clone_chars(name),
            name: clone_chars(name),
            aliases: Vec::new(),
            chip_pin: clone_chars(cp),
            available: true,
            allow_classes: None,
            deny_functions: Vec::new(),
            preference: 0,
            reserved: None,
            occupied,
        };
        let ghost before = bps@;
        bps.push(bp);
        proof {
            assert(strs_view(bp.aliases@) =~= Seq::<Seq<char>>::empty());
            assert(strs_view(bp.deny_functions@) =~= Seq::<Seq<char>>::empty());
            assert(board_pins_view(bps@) =~= board_pins_view(before).push(board_pin_view(bp)));
        }
        k = k + 1;
    }
    proof {
        assert(t.take(k as int) =~= t);
    }
    Ok(bps)
}

// ─── building a profile: the API ────────────────────────────────────────

/// The type names every API may use.
pub open spec fn builtin_type(ty: Seq<char>) -> bool {
    ty == "nil"@ || ty == "boolean"@ || ty == "integer"@ || ty == "number"@ || ty == "string"@ || ty == "table"@
        || ty == "function"@ || ty == "userdata"@ || ty == "thread"@ || ty == "any"@
}

/// A built-in type or one the API declares.
pub open spec fn type_known(ty: Seq<char>, declared: Seq<Seq<char>>) -> bool {
    builtin_type(ty) || declared.contains(ty)
}

/// The ids of the API's declared types and enums.
pub open spec fn declared_types(api: SimpleApi) -> Seq<Seq<char>> {
    strings_view(api.types@) + strings_view(api.enums@)
}

pub open spec fn msg_type(fname: Seq<char>, ty: Seq<char>) -> Seq<char> {
    "API 函数 "@ + fname + " 引用了未知类型 "@ + ty
}

/// One parameter of function `fname`, after the parameters `earlier` of
/// the same overload.
pub open spec fn param_stage(fname: Seq<char>, prm: SimpleParam, earlier: Seq<ParamV>, declared: Seq<Seq<char>>) -> Result<
    ParamV,
    Seq<char>,
> {
    if !ident_ok(prm.name@) {
        Err(msg_ident(prm.name@, "API 参数名"@))
    } else if exists|i: int| 0 <= i < earlier.len() && (#[trigger] earlier[i]).name == prm.name@ {
        Err("API 函数 "@ + fname + " 存在重复参数 "@ + prm.name@)
    } else if !type_known(prm.ty@, declared) {
        Err(msg_type(fname, prm.ty@))
    } else {
        match prm.resource {
            None => Ok(ParamV { name: prm.name@, ty: prm.ty@, optional: prm.optional, variadic: prm.variadic, resource: None }),
            Some(j) => match resource_of(j) {
                Err(e) => Err(e),
                Ok(r) => Ok(
                    ParamV { name: prm.name@, ty: prm.ty@, optional: prm.optional, variadic: prm.variadic, resource: Some(r) },
                ),
            },
        }
    }
}

/// The parameters of one overload of `fname`.
pub open spec fn params_stage(fname: Seq<char>, ps: Seq<SimpleParam>, declared: Seq<Seq<char>>) -> Result<Seq<ParamV>, Seq<char>>
    decreases ps.len(),
{
    if ps.len() == 0 {
        Ok(Seq::empty())
    } else {
        match params_stage(fname, ps.drop_last(), declared) {
            Err(e) => Err(e),
            Ok(v) => match param_stage(fname, ps.last(), v, declared) {
                Err(e) => Err(e),
                Ok(x) => Ok(v.push(x)),
            },
        }
    }
}

/// One overload of `fname`: its parameters, then its return types.
pub open spec fn overload_stage(fname: Seq<char>, ov: SimpleOverload, declared: Seq<Seq<char>>) -> Result<Seq<ParamV>, Seq<char>> {
    match params_stage(fname, ov.params@, declared) {
        Err(e) => Err(e),
        Ok(ps) => match find_first(strings_view(ov.returns@), |t: Seq<char>| !type_known(t, declared)) {
            Some(i) => Err(msg_type(fname, strings_view(ov.returns@)[i])),
            None => Ok(ps),
        },
    }
}

pub open spec fn overloads_stage(fname: Seq<char>, ovs: Seq<SimpleOverload>, declared: Seq<Seq<char>>) -> Result<
    Seq<Seq<ParamV>>,
    Seq<char>,
>
    decreases ovs.len(),
{
    if ovs.len() == 0 {
        Ok(Seq::empty())
    } else {
        match overloads_stage(fname, ovs.drop_last(), declared) {
            Err(e) => Err(e),
            Ok(v) => match overload_stage(fname, ovs.last(), declared) {
                Err(e) => Err(e),
                Ok(x) => Ok(v.push(x)),
            },
        }
    }
}

/// One API function.
pub open spec fn function_stage(f: SimpleFunction, declared: Seq<Seq<char>>) -> Result<FunctionV, Seq<char>> {
    if !ident_ok(f.name@) {
        Err(msg_ident(f.name@, "API 函数名"@))
    } else if f.overloads@.len() == 0 {
        Err("API 函数 "@ + f.name@ + " 没有 overloads"@)
    } else {
        match overloads_stage(f.name@, f.overloads@, declared) {
            Err(e) => Err(e),
            Ok(o) => Ok(FunctionV {
                name: f.name@,
                description: if f.description@.len() == 0 {
                    "firmware API"@
                } else {
                    f.description@
                },
                overloads: o,
            }),
        }
    }
}

/// A list of API functions; a repeated name gives `dup`.
pub open spec fn functions_stage(fs: Seq<SimpleFunction>, declared: Seq<Seq<char>>, dup: Seq<char>) -> Result<
    Seq<FunctionV>,
    Seq<char>,
>
    decreases fs.len(),
{
    if fs.len() == 0 {
        Ok(Seq::empty())
    } else {
        match functions_stage(fs.drop_last(), declared, dup) {
            Err(e) => Err(e),
            Ok(v) => match function_stage(fs.last(), declared) {
                Err(e) => Err(e),
                Ok(x) => if exists|i: int| 0 <= i < v.len() && (#[trigger] v[i]).name == x.name {
                    Err(dup)
                } else {
                    Ok(v.push(x))
                },
            },
        }
    }
}

/// One API module.
pub open spec fn module_stage(m: SimpleModule, declared: Seq<Seq<char>>) -> Result<ModuleV, Seq<char>> {
    if !ident_ok(m.name@) {
        Err(msg_ident(m.name@, "API 模块名"@))
    } else {
        match functions_stage(m.functions@, declared, "API 模块 "@ + m.name@ + " 存在重复函数"@) {
            Err(e) => Err(e),
            Ok(fs) => if fs.len() == 0 {
                Err("API 模块 "@ + m.name@ + " 不能为空"@)
            } else {
                Ok(ModuleV {
                    name: m.name@,
                    description: if m.description@.len() == 0 {
                        "firmware module"@
                    } else {
                        m.description@
                    },
                    functions: fs,
                })
            },
        }
    }
}

pub open spec fn modules_stage(ms: Seq<SimpleModule>, declared: Seq<Seq<char>>) -> Result<Seq<ModuleV>, Seq<char>>
    decreases ms.len(),
{
    if ms.len() == 0 {
        Ok(Seq::empty())
    } else {
        match modules_stage(ms.drop_last(), declared) {
            Err(e) => Err(e),
            Ok(v) => match module_stage(ms.last(), declared) {
                Err(e) => Err(e),
                Ok(x) => if exists|i: int| 0 <= i < v.len() && (#[trigger] v[i]).name == x.name {
                    Err("API 存在重复模块 "@ + x.name)
                } else {
                    Ok(v.push(x))
                },
            },
        }
    }
}

/// The first problem `f` finds among the elements of `s`, in order.
pub open spec fn first_some<A>(s: Seq<A>, f: spec_fn(A) -> Option<Seq<char>>) -> Option<Seq<char>>
    decreases s.len(),
{
    if s.len() == 0 {
        None
    } else {
        match first_some(s.drop_last(), f) {
            Some(e) => Some(e),
            None => f(s.last()),
        }
    }
}

proof fn lemma_first_some_prefix<A>(s: Seq<A>, f: spec_fn(A) -> Option<Seq<char>>, k: int)
    requires
        0 <= k <= s.len(),
        first_some(s.take(k), f) is Some,
    ensures
        first_some(s, f) == first_some(s.take(k), f),
    decreases s.len() - k,
{
    if k < s.len() {
        assert(s.take(k + 1).drop_last() =~= s.take(k));
        lemma_first_some_prefix(s, f, k + 1);
    } else {
        assert(s.take(k) =~= s);
    }
}

/// `c` meets every requirement `r` states.
pub open spec fn capv_matches(c: CapV, r: CapReqV) -> bool {
    &&& (r.class is None || r.class == Some(c.class))
    &&& (r.function is None || r.function == Some(c.function))
    &&& (r.peripheral is None || c.peripheral == r.peripheral)
    &&& (r.signal is None || c.signal == r.signal)
    &&& (r.route is None || c.route == r.route)
}

/// The peripheral has the class `req` asks for, if any.
pub open spec fn class_ok(req: Option<Seq<char>>, x: PeriphV) -> bool {
    req is None || req == Some(x.class)
}

/// The chip pin has a capability meeting `r`.
pub open spec fn pin_meets(cp: ChipPinV, r: CapReqV) -> bool {
    exists|j: int| 0 <= j < cp.caps.len() && capv_matches(#[trigger] cp.caps[j], r)
}

/// The board pin is available and its chip pin has a capability meeting `r`.
pub open spec fn board_pin_meets(bp: BoardPinV, cps: Seq<ChipPinV>, r: CapReqV) -> bool {
    bp.available && match find_first(cps, |x: ChipPinV| x.name == bp.chip_pin) {
        Some(i) => pin_meets(cps[i], r),
        None => false,
    }
}

/// The problem with a resource parameter `pname` of function `fname`: no
/// peripheral of the required class, no chip pin with the required
/// capability, or (for a board-exposed pin) no available board pin.
pub open spec fn param_problem(
    fname: Seq<char>,
    prm: ParamV,
    ps: Seq<PeriphV>,
    cps: Seq<ChipPinV>,
    bps: Seq<BoardPinV>,
) -> Option<Seq<char>> {
    match prm.resource {
        None => None,
        Some(res) => if res.kind == "peripheral"@ && !(exists|i: int| 0 <= i < ps.len() && class_ok(res.capability.class, #[trigger] ps[i])) {
            Some("META001: API "@ + fname + "."@ + prm.name + " 没有兼容的芯片外设"@)
        } else if res.kind == "pin"@ {
            if !(exists|i: int| 0 <= i < cps.len() && pin_meets(#[trigger] cps[i], res.capability)) {
                Some("META001: API "@ + fname + "."@ + prm.name + " 的引脚能力无法由 Chip 提供"@)
            } else if res.scope == "board.exposed"@ && !(exists|b: int|
                0 <= b < bps.len() && board_pin_meets(#[trigger] bps[b], cps, res.capability)) {
                Some("META001: API "@ + fname + "."@ + prm.name + " 在 Board 上没有可用引出脚"@)
            } else {
                None
            }
        } else {
            None
        }
    }
}

/// The first resource problem of function `f`.
pub open spec fn function_problem(f: FunctionV, ps: Seq<PeriphV>, cps: Seq<ChipPinV>, bps: Seq<BoardPinV>) -> Option<Seq<char>> {
    first_some(f.overloads, |ov: Seq<ParamV>| first_some(ov, |prm: ParamV| param_problem(f.name, prm, ps, cps, bps)))
}

/// The first resource problem of the API: global functions first, then
/// each module's functions.
pub open spec fn api_problem(
    gs: Seq<FunctionV>,
    ms: Seq<ModuleV>,
    ps: Seq<PeriphV>,
    cps: Seq<ChipPinV>,
    bps: Seq<BoardPinV>,
) -> Option<Seq<char>> {
    match first_some(gs, |f: FunctionV| function_problem(f, ps, cps, bps)) {
        Some(e) => Some(e),
        None => first_some(ms, |m: ModuleV| first_some(m.functions, |f: FunctionV| function_problem(f, ps, cps, bps))),
    }
}

/// The profile the three simple files describe, or the first problem.
pub open spec fn simple_profile(chip: SimpleChip, board: SimpleBoard, api: SimpleApi) -> Result<ProfileV, Seq<char>> {
    match header_problem(chip, board, api) {
        Some(e) => Err(e),
        None => match chip_stage(pin_table(chip.pins@)) {
            Err(e) => Err(e),
            Ok(cs) => match board_part(board, cs.0) {
                Err(e) => Err(e),
                Ok(bps) => match functions_stage(api.globals@, declared_types(api), "API 存在重复全局函数"@) {
                    Err(e) => Err(e),
                    Ok(gs) => match modules_stage(api.modules@, declared_types(api)) {
                        Err(e) => Err(e),
                        Ok(ms) => match api_problem(gs, ms, cs.1, cs.0, bps) {
                            Some(e) => Err(e),
                            None => Ok(ProfileV {
                                board_id: board.name@,
                                chip_id: chip.name@,
                                api_id: chip.name@ + "_lua"@,
                                globals: gs,
                                modules: ms,
                                chip_pins: cs.0,
                                peripherals: cs.1,
                                board_pins: bps,
                            }),
                        },
                    },
                },
            },
        },
    }
}

proof fn lemma_params_err(fname: Seq<char>, ps: Seq<SimpleParam>, declared: Seq<Seq<char>>, k: int)
    requires
        0 <= k <= ps.len(),
        params_stage(fname, ps.take(k), declared) is Err,
    ensures
        params_stage(fname, ps, declared) == params_stage(fname, ps.take(k), declared),
    decreases ps.len() - k,
{
    if k < ps.len() {
        assert(ps.take(k + 1).drop_last() =~= ps.take(k));
        lemma_params_err(fname, ps, declared, k + 1);
    } else {
        assert(ps.take(k) =~= ps);
    }
}

proof fn lemma_overloads_err(fname: Seq<char>, ovs: Seq<SimpleOverload>, declared: Seq<Seq<char>>, k: int)
    requires
        0 <= k <= ovs.len(),
        overloads_stage(fname, ovs.take(k), declared) is Err,
    ensures
        overloads_stage(fname, ovs, declared) == overloads_stage(fname, ovs.take(k), declared),
    decreases ovs.len() - k,
{
    if k < ovs.len() {
        assert(ovs.take(k + 1).drop_last() =~= ovs.take(k));
        lemma_overloads_err(fname, ovs, declared, k + 1);
    } else {
        assert(ovs.take(k) =~= ovs);
    }
}

proof fn lemma_functions_err(fs: Seq<SimpleFunction>, declared: Seq<Seq<char>>, dup: Seq<char>, k: int)
    requires
        0 <= k <= fs.len(),
        functions_stage(fs.take(k), declared, dup) is Err,
    ensures
        functions_stage(fs, declared, dup) == functions_stage(fs.take(k), declared, dup),
    decreases fs.len() - k,
{
    if k < fs.len() {
        assert(fs.take(k + 1).drop_last() =~= fs.take(k));
        lemma_functions_err(fs, declared, dup, k + 1);
    } else {
        assert(fs.take(k) =~= fs);
    }
}

proof fn lemma_modules_err(ms: Seq<SimpleModule>, declared: Seq<Seq<char>>, k: int)
    requires
        0 <= k <= ms.len(),
        modules_stage(ms.take(k), declared) is Err,
    ensures
        modules_stage(ms, declared) == modules_stage(ms.take(k), declared),
    decreases ms.len() - k,
{
    if k < ms.len() {
        assert(ms.take(k + 1).drop_last() =~= ms.take(k));
        lemma_modules_err(ms, declared, k + 1);
    } else {
        assert(ms.take(k) =~= ms);
    }
}

fn type_is_known(ty: &[char], declared: &Vec<Vec<char>>) -> (r: bool)
    ensures
        r == type_known(ty@, strs_view(declared@)),
{
    word_is(ty, "nil") || word_is(ty, "boolean") || word_is(ty, "integer") || word_is(ty, "number") || word_is(ty, "string")
        || word_is(ty, "table") || word_is(ty, "function") || word_is(ty, "userdata") || word_is(ty, "thread")
        || word_is(ty, "any") || has_str(declared, ty)
}

fn msg_type_exec(fname: &[char], ty: &[char]) -> (r: Vec<char>)
    ensures
        r@ == msg_type(fname@, ty@),
{
    let mut m = join3("API 函数 ", fname, " 引用了未知类型 ");
    append_chars(&mut m, ty);
    m
}

fn convert_param(fname: &[char], prm: &SimpleParam, earlier: &Vec<ApiParam>, declared: &Vec<Vec<char>>) -> (r: Result<ApiParam, Vec<char>>)
    ensures
        match r {
            Ok(x) => param_stage(fname@, *prm, params_view(earlier@), strs_view(declared@)) == Ok::<ParamV, Seq<char>>(param_view(x)),
            Err(e) => param_stage(fname@, *prm, params_view(earlier@), strs_view(declared@)) == Err::<ParamV, Seq<char>>(e@),
        },
{
    let name = chars_of(prm.name.as_str());
    match ident_check(name.as_slice(), "API 参数名") {
        Err(m) => return Err(m),
        Ok(()) => {},
    }
    let ghost ev = params_view(earlier@);
    let mut j: usize = 0;
    while j < earlier.len()
        invariant
            j <= earlier@.len(),
            ev == params_view(earlier@),
            forall|i: int| 0 <= i < j ==> (#[trigger] ev[i]).name != name@,
            name@ == prm.name@,
            ident_ok(name@),
        decreases earlier.len() - j,
    {
        if chars_eq(earlier[j].name.as_slice(), name.as_slice()) {
            proof {
                assert(ev[j as int].name == name@);
            }
            let mut m = join3("API 函数 ", fname, " 存在重复参数 ");
            append_chars(&mut m, name.as_slice());
            return Err(m);
        }
        j = j + 1;
    }
    let ty = chars_of(prm.ty.as_str());
    if !type_is_known(ty.as_slice(), declared) {
        return Err(msg_type_exec(fname, ty.as_slice()));
    }
    let resource = match &prm.resource {
        None => None,
        Some(v) => match parse_resource(v) {
            Err(e) => return Err(e),
            Ok(x) => Some(x),
        },
    };
    Ok(ApiParam { name, ty, optional: prm.optional, variadic: prm.variadic, resource })
}

fn convert_overload(fname: &[char], ov: &SimpleOverload, declared: &Vec<Vec<char>>) -> (r: Result<ApiOverload, Vec<char>>)
    ensures
        match r {
            Ok(x) => overload_stage(fname@, *ov, strs_view(declared@)) == Ok::<Seq<ParamV>, Seq<char>>(params_view(x.params@)),
            Err(e) => overload_stage(fname@, *ov, strs_view(declared@)) == Err::<Seq<ParamV>, Seq<char>>(e@),
        },
{
    let ghost dv = strs_view(declared@);
    let mut params: Vec<ApiParam> = Vec::new();
    let mut k: usize = 0;
    proof {
        assert(ov.params@.take(0) =~= Seq::<SimpleParam>::empty());
        assert(params_view(params@) =~= Seq::<ParamV>::empty());
    }
    while k < ov.params.len()
        invariant
            k <= ov.params@.len(),
            dv == strs_view(declared@),
            params_stage(fname@, ov.params@.take(k as int), dv) == Ok::<Seq<ParamV>, Seq<char>>(params_view(params@)),
        decreases ov.params.len() - k,
    {
        proof {
            assert(ov.params@.take(k + 1).drop_last() =~= ov.params@.take(k as int));
            assert(ov.params@.take(k + 1).last() == ov.params@[k as int]);
        }
        match convert_param(fname, &ov.params[k], &params, declared) {
            Err(e) => {
                proof {
                    lemma_params_err(fname@, ov.params@, dv, k + 1);
                }
                return Err(e);
            },
            Ok(x) => {
                let ghost before = params@;
                params.push(x);
                proof {
                    assert(params_view(params@) =~= params_view(before).push(param_view(x)));
                }
            },
        }
        k = k + 1;
    }
    proof {
        assert(ov.params@.take(k as int) =~= ov.params@);
    }
    let ghost rv = strings_view(ov.returns@);
    let ghost p = |t: Seq<char>| !type_known(t, dv);
    let mut i: usize = 0;
    while i < ov.returns.len()
        invariant
            i <= ov.returns@.len(),
            rv == strings_view(ov.returns@),
            dv == strs_view(declared@),
            params_stage(fname@, ov.params@, dv) == Ok::<Seq<ParamV>, Seq<char>>(params_view(params@)),
            p == (|t: Seq<char>| !type_known(t, dv)),
            forall|j: int| 0 <= j < i ==> !p(#[trigger] rv[j]),
        decreases ov.returns.len() - i,
    {
        let ty = chars_of(ov.returns[i].as_str());
        if !type_is_known(ty.as_slice(), declared) {
            proof {
                lemma_find_first(rv, p, i as int);
            }
            return Err(msg_type_exec(fname, ty.as_slice()));
        }
        i = i + 1;
    }
    proof {
        lemma_find_first(rv, p, i as int);
    }
    Ok(ApiOverload { params })
}

/// Converts one API function of the simple API file (see [`function_stage`]).
fn convert_simple_function(f: &SimpleFunction, declared: &Vec<Vec<char>>) -> (r: Result<ApiFunction, Vec<char>>)
    ensures
        match r {
            Ok(x) => function_stage(*f, strs_view(declared@)) == Ok::<FunctionV, Seq<char>>(function_view(x)),
            Err(e) => function_stage(*f, strs_view(declared@)) == Err::<FunctionV, Seq<char>>(e@),
        },
{
    let ghost dv = strs_view(declared@);
    let name = chars_of(f.name.as_str());
    match ident_check(name.as_slice(), "API 函数名") {
        Err(m) => return Err(m),
        Ok(()) => {},
    }
    if f.overloads.len() == 0 {
        return Err(join3("API 函数 ", name.as_slice(), " 没有 overloads"));
    }
    let mut overloads: Vec<ApiOverload> = Vec::new();
    let mut k: usize = 0;
    proof {
        assert(f.overloads@.take(0) =~= Seq::<SimpleOverload>::empty());
        assert(overloads_view(overloads@) =~= Seq::<Seq<ParamV>>::empty());
    }
    while k < f.overloads.len()
        invariant
            k <= f.overloads@.len(),
            dv == strs_view(declared@),
            name@ == f.name@,
            ident_ok(f.name@),
            f.overloads@.len() > 0,
            overloads_stage(name@, f.overloads@.take(k as int), dv) == Ok::<Seq<Seq<ParamV>>, Seq<char>>(overloads_view(overloads@)),
        decreases f.overloads.len() - k,
    {
        proof {
            assert(f.overloads@.take(k + 1).drop_last() =~= f.overloads@.take(k as int));
            assert(f.overloads@.take(k + 1).last() == f.overloads@[k as int]);
        }
        match convert_overload(name.as_slice(), &f.overloads[k], declared) {
            Err(e) => {
                proof {
                    lemma_overloads_err(name@, f.overloads@, dv, k + 1);
                }
                return Err(e);
            },
            Ok(x) => {
                let ghost before = overloads@;
                overloads.push(x);
                proof {
                    assert(overloads_view(overloads@) =~= overloads_view(before).push(params_view(x.params@)));
                }
            },
        }
        k = k + 1;
    }
    proof {
        assert(f.overloads@.take(k as int) =~= f.overloads@);
    }
    let given = chars_of(f.description.as_str());
    let description = if given.len() == 0 {
        chars_of("firmware API")
    } else {
        given
    };
    Ok(ApiFunction { name, description, overloads })
}

fn convert_functions(fs: &Vec<SimpleFunction>, declared: &Vec<Vec<char>>, dup: &[char]) -> (r: Result<Vec<ApiFunction>, Vec<char>>)
    ensures
        match r {
            Ok(v) => functions_stage(fs@, strs_view(declared@), dup@) == Ok::<Seq<FunctionV>, Seq<char>>(functions_view(v@)),
            Err(e) => functions_stage(fs@, strs_view(declared@), dup@) == Err::<Seq<FunctionV>, Seq<char>>(e@),
        },
{
    let ghost dv = strs_view(declared@);
    let mut out: Vec<ApiFunction> = Vec::new();
    let mut k: usize = 0;
    proof {
        assert(fs@.take(0) =~= Seq::<SimpleFunction>::empty());
        assert(functions_view(out@) =~= Seq::<FunctionV>::empty());
    }
    while k < fs.len()
        invariant
            k <= fs@.len(),
            dv == strs_view(declared@),
            functions_stage(fs@.take(k as int), dv, dup@) == Ok::<Seq<FunctionV>, Seq<char>>(functions_view(out@)),
        decreases fs.len() - k,
    {
        proof {
            assert(fs@.take(k + 1).drop_last() =~= fs@.take(k as int));
            assert(fs@.take(k + 1).last() == fs@[k as int]);
        }
        match convert_simple_function(&fs[k], declared) {
            Err(e) => {
                proof {
                    lemma_functions_err(fs@, dv, dup@, k + 1);
                }
                return Err(e);
            },
            Ok(x) => {
                let ghost ov = functions_view(out@);
                let mut j: usize = 0;
                while j < out.len()
                    invariant
                        j <= out@.len(),
                        ov == functions_view(out@),
                        forall|i: int| 0 <= i < j ==> (#[trigger] ov[i]).name != x.name@,
                        k < fs@.len(),
                        dv == strs_view(declared@),
                        functions_stage(fs@.take(k as int), dv, dup@) == Ok::<Seq<FunctionV>, Seq<char>>(functions_view(out@)),
                        fs@.take(k + 1).drop_last() == fs@.take(k as int),
                        fs@.take(k + 1).last() == fs@[k as int],
                        function_stage(fs@[k as int], dv) == Ok::<FunctionV, Seq<char>>(function_view(x)),
                    decreases out.len() - j,
                {
                    if chars_eq(out[j].name.as_slice(), x.name.as_slice()) {
                        proof {
                            assert(ov[j as int].name == x.name@);
                        }
                        let e = clone_slice(dup);
                        proof {
                            assert(functions_stage(fs@.take(k + 1), dv, dup@) == Err::<Seq<FunctionV>, Seq<char>>(dup@));
                            lemma_functions_err(fs@, dv, dup@, k + 1);
                        }
                        return Err(e);
                    }
                    j = j + 1;
                }
                let ghost before = out@;
                out.push(x);
                proof {
                    assert(functions_view(out@) =~= functions_view(before).push(function_view(x)));
                }
            },
        }
        k = k + 1;
    }
    proof {
        assert(fs@.take(k as int) =~= fs@);
    }
    Ok(out)
}

fn clone_slice(x: &[char]) -> (r: Vec<char>)
    ensures
        r@ == x@,
{
    proof {
        assert(x@.subrange(0, x@.len() as int) =~= x@);
    }
    sub_chars(x, 0, x.len())
}

fn convert_modules(ms: &Vec<SimpleModule>, declared: &Vec<Vec<char>>) -> (r: Result<Vec<ApiModule>, Vec<char>>)
    ensures
        match r {
            Ok(v) => modules_stage(ms@, strs_view(declared@)) == Ok::<Seq<ModuleV>, Seq<char>>(modules_view(v@)),
            Err(e) => modules_stage(ms@, strs_view(declared@)) == Err::<Seq<ModuleV>, Seq<char>>(e@),
        },
{
    let ghost dv = strs_view(declared@);
    let mut out: Vec<ApiModule> = Vec::new();
    let mut k: usize = 0;
    proof {
        assert(ms@.take(0) =~= Seq::<SimpleModule>::empty());
        assert(modules_view(out@) =~= Seq::<ModuleV>::empty());
    }
    while k < ms.len()
        invariant
            k <= ms@.len(),
            dv == strs_view(declared@),
            modules_stage(ms@.take(k as int), dv) == Ok::<Seq<ModuleV>, Seq<char>>(modules_view(out@)),
        decreases ms.len() - k,
    {
        proof {
            assert(ms@.take(k + 1).drop_last() =~= ms@.take(k as int));
            assert(ms@.take(k + 1).last() == ms@[k as int]);
        }
        let m = &ms[k];
        let name = chars_of(m.name.as_str());
        match ident_check(name.as_slice(), "API 模块名") {
            Err(e) => {
                proof {
                    lemma_modules_err(ms@, dv, k + 1);
                }
                return Err(e);
            },
            Ok(()) => {},
        }
        let dup = join3("API 模块 ", name.as_slice(), " 存在重复函数");
        let functions = match convert_functions(&m.functions, declared, dup.as_slice()) {
            Err(e) => {
                proof {
                    lemma_modules_err(ms@, dv, k + 1);
                }
                return Err(e);
            },
            Ok(v) => v,
        };
        if functions.len() == 0 {
            proof {
                lemma_modules_err(ms@, dv, k + 1);
            }
            return Err(join3("API 模块 ", name.as_slice(), " 不能为空"));
        }
        let given = chars_of(m.description.as_str());
        let description = if given.len() == 0 {
            chars_of("firmware module")
        } else {
            given
        };
        let x = ApiModule { name, description, functions };
        proof {
            assert(module_stage(ms@[k as int], dv) == Ok::<ModuleV, Seq<char>>(module_view(x)));
        }
        let ghost ov = modules_view(out@);
        let mut j: usize = 0;
        while j < out.len()
            invariant
                j <= out@.len(),
                ov == modules_view(out@),
                forall|i: int| 0 <= i < j ==> (#[trigger] ov[i]).name != x.name@,
                k < ms@.len(),
                dv == strs_view(declared@),
                modules_stage(ms@.take(k as int), dv) == Ok::<Seq<ModuleV>, Seq<char>>(modules_view(out@)),
                ms@.take(k + 1).drop_last() == ms@.take(k as int),
                ms@.take(k + 1).last() == ms@[k as int],
                module_stage(ms@[k as int], dv) == Ok::<ModuleV, Seq<char>>(module_view(x)),
            decreases out.len() - j,
        {
            if chars_eq(out[j].name.as_slice(), x.name.as_slice()) {
                proof {
                    assert(ov[j as int].name == x.name@);
                    lemma_modules_err(ms@, dv, k + 1);
                }
                let mut e = chars_of("API 存在重复模块 ");
                append_chars(&mut e, x.name.as_slice());
                return Err(e);
            }
            j = j + 1;
        }
        let ghost before = out@;
        out.push(x);
        proof {
            assert(modules_view(out@) =~= modules_view(before).push(module_view(x)));
        }
        k = k + 1;
    }
    proof {
        assert(ms@.take(k as int) =~= ms@);
    }
    Ok(out)
}

fn any_periph_of_class(ps: &Vec<Peripheral>, class: &Option<Vec<char>>) -> (r: bool)
    ensures
        r == exists|i: int| 0 <= i < periphs_view(ps@).len() && class_ok(opt_chars(*class), #[trigger] periphs_view(ps@)[i]),
{
    let mut k: usize = 0;
    while k < ps.len()
        invariant
            k <= ps@.len(),
            periphs_view(ps@).len() == ps@.len(),
            forall|i: int| 0 <= i < k ==> !class_ok(opt_chars(*class), #[trigger] periphs_view(ps@)[i]),
        decreases ps.len() - k,
    {
        let hit = req_met(class, Some(ps[k].class.as_slice()));
        proof {
            assert(periphs_view(ps@)[k as int].class == ps@[k as int].class@);
            assert(hit == class_ok(opt_chars(*class), periphs_view(ps@)[k as int]));
        }
        if hit {
            return true;
        }
        k = k + 1;
    }
    false
}

fn chip_pin_meets(cp: &ChipPin, r: &CapabilityRequirement) -> (b: bool)
    ensures
        b == pin_meets(chip_pin_view(*cp), capreq_view(*r)),
{
    let ghost cv = caps_view(cp.capabilities@);
    let mut j: usize = 0;
    while j < cp.capabilities.len()
        invariant
            j <= cp.capabilities@.len(),
            cv == caps_view(cp.capabilities@),
            forall|i: int| 0 <= i < j ==> !capv_matches(#[trigger] cv[i], capreq_view(*r)),
        decreases cp.capabilities.len() - j,
    {
        let m = capability_matches(&cp.capabilities[j], r);
        proof {
            assert(cap_matches(cp.capabilities@[j as int], *r) == capv_matches(cv[j as int], capreq_view(*r)));
        }
        if m {
            proof {
                assert(capv_matches(chip_pin_view(*cp).caps[j as int], capreq_view(*r)));
            }
            return true;
        }
        j = j + 1;
    }
    proof {
        assert(cv.len() == cp.capabilities@.len());
    }
    false
}

fn find_chip_pin_v(cps: &Vec<ChipPin>, n: &[char]) -> (r: Option<usize>)
    ensures
        match r {
            Some(i) => i < cps@.len() && find_first(chip_pins_view(cps@), |x: ChipPinV| x.name == n@) == Some(i as int),
            None => find_first(chip_pins_view(cps@), |x: ChipPinV| x.name == n@) is None,
        },
{
    let ghost cv = chip_pins_view(cps@);
    let ghost p = |x: ChipPinV| x.name == n@;
    let mut k: usize = 0;
    while k < cps.len()
        invariant
            k <= cps@.len(),
            cv == chip_pins_view(cps@),
            p == (|x: ChipPinV| x.name == n@),
            forall|j: int| 0 <= j < k ==> !p(#[trigger] cv[j]),
        decreases cps.len() - k,
    {
        if chars_eq(cps[k].name.as_slice(), n) {
            proof {
                lemma_find_first(cv, p, k as int);
            }
            return Some(k);
        }
        k = k + 1;
    }
    proof {
        lemma_find_first(cv, p, k as int);
    }
    None
}

fn any_board_pin_meets(bps: &Vec<BoardPin>, cps: &Vec<ChipPin>, r: &CapabilityRequirement) -> (b: bool)
    ensures
        b == exists|i: int|
            0 <= i < board_pins_view(bps@).len() && board_pin_meets(
                #[trigger] board_pins_view(bps@)[i],
                chip_pins_view(cps@),
                capreq_view(*r),
            ),
{
    let ghost bv = board_pins_view(bps@);
    let ghost cv = chip_pins_view(cps@);
    let mut k: usize = 0;
    while k < bps.len()
        invariant
            k <= bps@.len(),
            bv == board_pins_view(bps@),
            cv == chip_pins_view(cps@),
            forall|i: int| 0 <= i < k ==> !board_pin_meets(#[trigger] bv[i], cv, capreq_view(*r)),
        decreases bps.len() - k,
    {
        if bps[k].available {
            match find_chip_pin_v(cps, bps[k].chip_pin.as_slice()) {
                Some(ci) => {
                    if chip_pin_meets(&cps[ci], r) {
                        proof {
                            assert(board_pin_meets(bv[k as int], cv, capreq_view(*r)));
                        }
                        return true;
                    }
                },
                None => {},
            }
        }
        proof {
            assert(!board_pin_meets(bv[k as int], cv, capreq_view(*r)));
        }
        k = k + 1;
    }
    false
}

fn any_chip_pin_meets(cps: &Vec<ChipPin>, r: &CapabilityRequirement) -> (b: bool)
    ensures
        b == exists|i: int| 0 <= i < chip_pins_view(cps@).len() && pin_meets(#[trigger] chip_pins_view(cps@)[i], capreq_view(*r)),
{
    let ghost cv = chip_pins_view(cps@);
    let mut k: usize = 0;
    while k < cps.len()
        invariant
            k <= cps@.len(),
            cv == chip_pins_view(cps@),
            forall|i: int| 0 <= i < k ==> !pin_meets(#[trigger] cv[i], capreq_view(*r)),
        decreases cps.len() - k,
    {
        if chip_pin_meets(&cps[k], r) {
            proof {
                assert(pin_meets(chip_pins_view(cps@)[k as int], capreq_view(*r)));
            }
            return true;
        }
        k = k + 1;
    }
    proof {
        assert(cv.len() == cps@.len());
    }
    false
}

fn api_msg(fname: &[char], pname: &[char], tail: &str) -> (r: Vec<char>)
    ensures
        r@ == "META001: API "@ + fname@ + "."@ + pname@ + tail@,
{
    let mut m = chars_of("META001: API ");
    append_chars(&mut m, fname);
    append_str(&mut m, ".");
    append_chars(&mut m, pname);
    append_str(&mut m, tail);
    m
}

fn param_problem_exec(fname: &[char], prm: &ApiParam, ps: &Vec<Peripheral>, cps: &Vec<ChipPin>, bps: &Vec<BoardPin>) -> (r: Option<
    Vec<char>,
>)
    ensures
        opt_chars(r) == param_problem(fname@, param_view(*prm), periphs_view(ps@), chip_pins_view(cps@), board_pins_view(bps@)),
{
    let res = match &prm.resource {
        None => return None,
        Some(res) => res,
    };
    proof {
        reveal_strlit("pin");
        reveal_strlit("peripheral");
        assert(param_view(*prm).resource == Some(res_view(*res)));
    }
    if word_is(res.kind.as_slice(), "peripheral") && !any_periph_of_class(ps, &res.capability.class) {
        return Some(api_msg(fname, prm.name.as_slice(), " 没有兼容的芯片外设"));
    }
    if word_is(res.kind.as_slice(), "pin") {
        if !any_chip_pin_meets(cps, &res.capability) {
            return Some(api_msg(fname, prm.name.as_slice(), " 的引脚能力无法由 Chip 提供"));
        }
        if word_is(res.scope.as_slice(), "board.exposed") && !any_board_pin_meets(bps, cps, &res.capability) {
            return Some(api_msg(fname, prm.name.as_slice(), " 在 Board 上没有可用引出脚"));
        }
    }
    None
}

fn function_problem_exec(f: &ApiFunction, ps: &Vec<Peripheral>, cps: &Vec<ChipPin>, bps: &Vec<BoardPin>) -> (r: Option<Vec<char>>)
    ensures
        opt_chars(r) == function_problem(function_view(*f), periphs_view(ps@), chip_pins_view(cps@), board_pins_view(bps@)),
{
    let ghost pv = periphs_view(ps@);
    let ghost cv = chip_pins_view(cps@);
    let ghost bv = board_pins_view(bps@);
    let ghost fname = f.name@;
    let ghost ovs = overloads_view(f.overloads@);
    let ghost g = |ov: Seq<ParamV>| first_some(ov, |prm: ParamV| param_problem(fname, prm, pv, cv, bv));
    let mut k: usize = 0;
    proof {
        assert(ovs.take(0) =~= Seq::<Seq<ParamV>>::empty());
    }
    while k < f.overloads.len()
        invariant
            k <= f.overloads@.len(),
            ovs == overloads_view(f.overloads@),
            fname == f.name@,
            pv == periphs_view(ps@),
            cv == chip_pins_view(cps@),
            bv == board_pins_view(bps@),
            g == (|ov: Seq<ParamV>| first_some(ov, |prm: ParamV| param_problem(fname, prm, pv, cv, bv))),
            first_some(ovs.take(k as int), g) is None,
        decreases f.overloads.len() - k,
    {
        proof {
            assert(ovs.take(k + 1).drop_last() =~= ovs.take(k as int));
            assert(ovs.take(k + 1).last() == ovs[k as int]);
        }
        let params = &f.overloads[k].params;
        let ghost pvs = params_view(params@);
        let ghost h = |prm: ParamV| param_problem(fname, prm, pv, cv, bv);
        let mut j: usize = 0;
        proof {
            assert(pvs.take(0) =~= Seq::<ParamV>::empty());
            assert(pvs == ovs[k as int]);
        }
        while j < params.len()
            invariant
                j <= params@.len(),
                pvs == params_view(params@),
                k < f.overloads@.len(),
                ovs == overloads_view(f.overloads@),
                pvs == ovs[k as int],
                g == (|ov: Seq<ParamV>| first_some(ov, |prm: ParamV| param_problem(fname, prm, pv, cv, bv))),
                first_some(ovs.take(k as int), g) is None,
                ovs.take(k + 1).drop_last() == ovs.take(k as int),
                ovs.take(k + 1).last() == ovs[k as int],
                fname == f.name@,
                pv == periphs_view(ps@),
                cv == chip_pins_view(cps@),
                bv == board_pins_view(bps@),
                h == (|prm: ParamV| param_problem(fname, prm, pv, cv, bv)),
                first_some(pvs.take(j as int), h) is None,
            decreases params.len() - j,
        {
            proof {
                assert(pvs.take(j + 1).drop_last() =~= pvs.take(j as int));
                assert(pvs.take(j + 1).last() == param_view(params@[j as int]));
            }
            match param_problem_exec(f.name.as_slice(), &params[j], ps, cps, bps) {
                Some(e) => {
                    proof {
                        lemma_first_some_prefix(pvs, h, j + 1);
                        assert(g(ovs[k as int]) == Some(e@));
                        lemma_first_some_prefix(ovs, g, k + 1);
                    }
                    return Some(e);
                },
                None => {},
            }
            j = j + 1;
        }
        proof {
            assert(pvs.take(j as int) =~= pvs);
            assert(g(ovs[k as int]) is None);
        }
        k = k + 1;
    }
    proof {
        assert(ovs.take(k as int) =~= ovs);
    }
    None
}

/// Checks that every resource parameter of the API can be served by the
/// chip and board (see [`api_problem`]).
fn validate_api_resources(
    globals: &Vec<ApiFunction>,
    modules: &Vec<ApiModule>,
    ps: &Vec<Peripheral>,
    cps: &Vec<ChipPin>,
    bps: &Vec<BoardPin>,
) -> (r: Result<(), Vec<char>>)
    ensures
        match r {
            Ok(()) => api_problem(
                functions_view(globals@),
                modules_view(modules@),
                periphs_view(ps@),
                chip_pins_view(cps@),
                board_pins_view(bps@),
            ) is None,
            Err(e) => api_problem(
                functions_view(globals@),
                modules_view(modules@),
                periphs_view(ps@),
                chip_pins_view(cps@),
                board_pins_view(bps@),
            ) == Some(e@),
        },
{
    let ghost pv = periphs_view(ps@);
    let ghost cv = chip_pins_view(cps@);
    let ghost bv = board_pins_view(bps@);
    let ghost gs = functions_view(globals@);
    let ghost fp = |f: FunctionV| function_problem(f, pv, cv, bv);
    let mut k: usize = 0;
    proof {
        assert(gs.take(0) =~= Seq::<FunctionV>::empty());
    }
    while k < globals.len()
        invariant
            k <= globals@.len(),
            gs == functions_view(globals@),
            pv == periphs_view(ps@),
            cv == chip_pins_view(cps@),
            bv == board_pins_view(bps@),
            fp == (|f: FunctionV| function_problem(f, pv, cv, bv)),
            first_some(gs.take(k as int), fp) is None,
        decreases globals.len() - k,
    {
        proof {
            assert(gs.take(k + 1).drop_last() =~= gs.take(k as int));
            assert(gs.take(k + 1).last() == function_view(globals@[k as int]));
        }
        match function_problem_exec(&globals[k], ps, cps, bps) {
            Some(e) => {
                proof {
                    lemma_first_some_prefix(gs, fp, k + 1);
                }
                return Err(e);
            },
            None => {},
        }
        k = k + 1;
    }
    proof {
        assert(gs.take(k as int) =~= gs);
    }
    let ghost mv = modules_view(modules@);
    let ghost mp = |m: ModuleV| first_some(m.functions, |f: FunctionV| function_problem(f, pv, cv, bv));
    let mut i: usize = 0;
    proof {
        assert(mv.take(0) =~= Seq::<ModuleV>::empty());
    }
    while i < modules.len()
        invariant
            i <= modules@.len(),
            mv == modules_view(modules@),
            gs == functions_view(globals@),
            pv == periphs_view(ps@),
            cv == chip_pins_view(cps@),
            bv == board_pins_view(bps@),
            fp == (|f: FunctionV| function_problem(f, pv, cv, bv)),
            first_some(gs, fp) is None,
            mp == (|m: ModuleV| first_some(m.functions, |f: FunctionV| function_problem(f, pv, cv, bv))),
            first_some(mv.take(i as int), mp) is None,
        decreases modules.len() - i,
    {
        proof {
            assert(mv.take(i + 1).drop_last() =~= mv.take(i as int));
            assert(mv.take(i + 1).last() == module_view(modules@[i as int]));
        }
        let fs = &modules[i].functions;
        let ghost fv = functions_view(fs@);
        let mut j: usize = 0;
        proof {
            assert(fv.take(0) =~= Seq::<FunctionV>::empty());
        }
        while j < fs.len()
            invariant
                j <= fs@.len(),
                fv == functions_view(fs@),
                i < modules@.len(),
                mv == modules_view(modules@),
                fv == mv[i as int].functions,
                mp == (|m: ModuleV| first_some(m.functions, |f: FunctionV| function_problem(f, pv, cv, bv))),
                first_some(mv.take(i as int), mp) is None,
                mv.take(i + 1).drop_last() == mv.take(i as int),
                mv.take(i + 1).last() == mv[i as int],
                gs == functions_view(globals@),
                first_some(gs, fp) is None,
                pv == periphs_view(ps@),
                cv == chip_pins_view(cps@),
                bv == board_pins_view(bps@),
                fp == (|f: FunctionV| function_problem(f, pv, cv, bv)),
                first_some(fv.take(j as int), fp) is None,
            decreases fs.len() - j,
        {
            proof {
                assert(fv.take(j + 1).drop_last() =~= fv.take(j as int));
                assert(fv.take(j + 1).last() == function_view(fs@[j as int]));
            }
            match function_problem_exec(&fs[j], ps, cps, bps) {
                Some(e) => {
                    proof {
                        lemma_first_some_prefix(fv, fp, j + 1);
                        assert(mp(mv[i as int]) == Some(e@));
                        lemma_first_some_prefix(mv, mp, i + 1);
                    }
                    return Err(e);
                },
                None => {},
            }
            j = j + 1;
        }
        proof {
            assert(fv.take(j as int) =~= fv);
            assert(mp(mv[i as int]) is None);
        }
        i = i + 1;
    }
    proof {
        assert(mv.take(i as int) =~= mv);
    }
    Ok(())
}

fn declared_list(api: &SimpleApi) -> (r: Vec<Vec<char>>)
    ensures
        strs_view(r@) == declared_types(*api),
{
    let mut a = strings_chars(&api.types);
    let b = strings_chars(&api.enums);
    let ghost av = a@;
    let mut i: usize = 0;
    while i < b.len()
        invariant
            i <= b@.len(),
            strs_view(a@) == strs_view(av) + strs_view(b@).take(i as int),
        decreases b.len() - i,
    {
        let x = clone_chars(&b[i]);
        let ghost before = a@;
        a.push(x);
        proof {
            assert(strs_view(a@) =~= strs_view(before).push(x@));
            assert(strs_view(a@) =~= strs_view(av) + strs_view(b@).take(i + 1));
        }
        i = i + 1;
    }
    proof {
        assert(strs_view(b@).take(i as int) =~= strs_view(b@));
    }
    a
}

/// Builds the target profile from the three simple files, checking that
/// they agree: the board's chip and the API's chip name the chip file, the
/// chip's pin table is well formed, the board's pins and flash exist on the
/// chip, the API is well formed and every resource parameter can be served
/// (see [`simple_profile`]).
pub fn build_simple_profile(_board_id: &str, chip: SimpleChip, board: SimpleBoard, api: SimpleApi) -> (r: Result<
    TargetProfile,
    String,
>)
    ensures
        match r {
            Ok(p) => simple_profile(chip, board, api) == Ok::<ProfileV, Seq<char>>(profile_view(p)),
            Err(e) => simple_profile(chip, board, api) == Err::<ProfileV, Seq<char>>(e@),
        },
{
    match build_simple(&chip, &board, &api) {
        Ok(p) => Ok(p),
        Err(e) => Err(string_from(e.as_slice())),
    }
}

fn build_simple(chip: &SimpleChip, board: &SimpleBoard, api: &SimpleApi) -> (r: Result<TargetProfile, Vec<char>>)
    ensures
        match r {
            Ok(p) => simple_profile(*chip, *board, *api) == Ok::<ProfileV, Seq<char>>(profile_view(p)),
            Err(e) => simple_profile(*chip, *board, *api) == Err::<ProfileV, Seq<char>>(e@),
        },
{
    match header_check(chip, board, api) {
        Err(e) => return Err(e),
        Ok(()) => {},
    }
    let (chip_pins, peripherals) = match build_chip_pins(&chip.pins) {
        Err(e) => return Err(e),
        Ok(st) => st,
    };
    let board_pins = match build_board_pins(board, &chip_pins) {
        Err(e) => return Err(e),
        Ok(b) => b,
    };
    let declared = declared_list(api);
    let dup = chars_of("API 存在重复全局函数");
    let globals = match convert_functions(&api.globals, &declared, dup.as_slice()) {
        Err(e) => return Err(e),
        Ok(g) => g,
    };
    let modules = match convert_modules(&api.modules, &declared) {
        Err(e) => return Err(e),
        Ok(m) => m,
    };
    match validate_api_resources(&globals, &modules, &peripherals, &chip_pins, &board_pins) {
        Err(e) => return Err(e),
        Ok(()) => {},
    }
    let mut api_id = chars_of(chip.name.as_str());
    append_str(&mut api_id, "_lua");
    let board_id = string_from(chars_of(board.name.as_str()).as_slice());
    let chip_id = string_from(chars_of(chip.name.as_str()).as_slice());
    let api_id = string_from(api_id.as_slice());
    proof {
        let v = ProfileV {
            board_id: board_id@,
            chip_id: chip_id@,
            api_id: api_id@,
            globals: functions_view(globals@),
            modules: modules_view(modules@),
            chip_pins: chip_pins_view(chip_pins@),
            peripherals: periphs_view(peripherals@),
            board_pins: board_pins_view(board_pins@),
        };
        assert(v =~~= simple_profile(*chip, *board, *api)->Ok_0);
        crate::profile_names::law_simple_profile_names_unique(*chip, *board, *api);
        assert(names_unique(v));
    }
    let p = TargetProfile {
        board_id,
        chip_id,
        api_id,
        globals,
        modules,
        chip_pins,
        peripherals,
        board_pins,
    };
    proof {
        assert(profile_view(p) =~~= simple_profile(*chip, *board, *api)->Ok_0);
    }
    Ok(p)
}

/// Loads the board `board_id`: its file name must be an identifier, the
/// board's chip must be one too (it names the chip and API files), and the
/// three files must agree (see [`build_simple_profile`]).
pub fn load_board(board_id: &str, board: SimpleBoard, chip: SimpleChip, api: SimpleApi) -> (r: Result<TargetProfile, String>)
    ensures
        !ident_ok(board_id@) ==> (r matches Err(e) && e@ == msg_ident(board_id@, "开发板文件名"@)),
        ident_ok(board_id@) && !ident_ok(board.chip@) ==> (r matches Err(e) && e@ == msg_ident(board.chip@, "开发板 chip"@)),
        ident_ok(board_id@) && ident_ok(board.chip@) ==> match r {
            Ok(p) => simple_profile(chip, board, api) == Ok::<ProfileV, Seq<char>>(profile_view(p)),
            Err(e) => simple_profile(chip, board, api) == Err::<ProfileV, Seq<char>>(e@),
        },
{
    validate_identifier(board_id, "开发板文件名")?;
    validate_identifier(board.chip.as_str(), "开发板 chip")?;
    build_simple_profile(board_id, chip, board, api)
}

// ─── building a profile from the standard metadata files ────────────────

/// `Value::as_array` of an optional value.
pub open spec fn jarr(v: Option<Json>) -> Option<Seq<Json>> {
    match v {
        Some(Json::Array(a)) => Some(a@),
        _ => None,
    }
}

/// `Value::as_i64` of an optional value.
pub open spec fn jint(v: Option<Json>) -> Option<i64> {
    match v {
        Some(Json::Number(Some(n), _)) => Some(n),
        _ => None,
    }
}

/// The array member `key`, or nothing when it is absent or no array.
pub open spec fn opt_arr(v: Json, key: Seq<char>) -> Seq<Json> {
    match jarr(jget(v, key)) {
        Some(a) => a,
        None => Seq::empty(),
    }
}

/// The string elements of an array, in order.
pub open spec fn str_elems(a: Seq<Json>) -> Seq<Seq<char>>
    decreases a.len(),
{
    if a.len() == 0 {
        Seq::empty()
    } else {
        match a.last() {
            Json::Str(x) => str_elems(a.drop_last()).push(x@),
            _ => str_elems(a.drop_last()),
        }
    }
}

/// `s` without repeats, first occurrences kept in order (a set of strings).
pub open spec fn dedup(s: Seq<Seq<char>>) -> Seq<Seq<char>>
    decreases s.len(),
{
    if s.len() == 0 {
        Seq::empty()
    } else if dedup(s.drop_last()).contains(s.last()) {
        dedup(s.drop_last())
    } else {
        dedup(s.drop_last()).push(s.last())
    }
}

pub open spec fn msg_str(key: Seq<char>) -> Seq<char> {
    "缺少字符串字段 "@ + key
}

pub open spec fn msg_arr(key: Seq<char>) -> Seq<char> {
    "缺少数组字段 "@ + key
}

pub open spec fn msg_obj(key: Seq<char>) -> Seq<char> {
    "缺少对象字段 "@ + key
}

pub open spec fn msg_int(key: Seq<char>) -> Seq<char> {
    "缺少整数字段 "@ + key
}

/// The required string member `key`.
fn req_str(v: &Json, key: &str) -> (r: Result<Vec<char>, Vec<char>>)
    ensures
        match r {
            Ok(x) => jstr(jget(*v, key@)) == Some(x@),
            Err(e) => jstr(jget(*v, key@)) is None && e@ == msg_str(key@),
        },
{
    match json_str(json_get(v, key)) {
        Some(x) => Ok(x),
        None => {
            let mut m = chars_of("缺少字符串字段 ");
            append_str(&mut m, key);
            Err(m)
        },
    }
}

/// The optional string member `key`.
fn opt_string(v: &Json, key: &str) -> (r: Option<Vec<char>>)
    ensures
        opt_chars(r) == jstr(jget(*v, key@)),
{
    json_str(json_get(v, key))
}

/// The required array member `key`.
fn req_arr<'a>(v: &'a Json, key: &str) -> (r: Result<&'a Vec<Json>, Vec<char>>)
    ensures
        match r {
            Ok(a) => jarr(jget(*v, key@)) == Some(a@),
            Err(e) => jarr(jget(*v, key@)) is None && e@ == msg_arr(key@),
        },
{
    match json_get(v, key) {
        Some(Json::Array(a)) => Ok(a),
        _ => {
            let mut m = chars_of("缺少数组字段 ");
            append_str(&mut m, key);
            Err(m)
        },
    }
}

/// The array member `key`, if there is one.
pub(crate) fn opt_array<'a>(v: &'a Json, key: &str) -> (r: Option<&'a Vec<Json>>)
    ensures
        match r {
            Some(a) => opt_arr(*v, key@) == a@,
            None => opt_arr(*v, key@) == Seq::<Json>::empty(),
        },
{
    match json_get(v, key) {
        Some(Json::Array(a)) => Some(a),
        _ => None,
    }
}

/// The required integer member `key`.
fn req_int(v: &Json, key: &str) -> (r: Result<i64, Vec<char>>)
    ensures
        match r {
            Ok(n) => jint(jget(*v, key@)) == Some(n),
            Err(e) => jint(jget(*v, key@)) is None && e@ == msg_int(key@),
        },
{
    match json_get(v, key) {
        Some(Json::Number(Some(n), _)) => Ok(*n),
        _ => {
            let mut m = chars_of("缺少整数字段 ");
            append_str(&mut m, key);
            Err(m)
        },
    }
}

pub(crate) fn string_elems(a: &Vec<Json>) -> (r: Vec<Vec<char>>)
    ensures
        strs_view(r@) == str_elems(a@),
{
    let mut r: Vec<Vec<char>> = Vec::new();
    let mut i: usize = 0;
    proof {
        assert(a@.take(0) =~= Seq::<Json>::empty());
        assert(strs_view(r@) =~= Seq::<Seq<char>>::empty());
    }
    while i < a.len()
        invariant
            i <= a@.len(),
            strs_view(r@) == str_elems(a@.take(i as int)),
        decreases a.len() - i,
    {
        proof {
            assert(a@.take(i + 1).drop_last() =~= a@.take(i as int));
            assert(a@.take(i + 1).last() == a@[i as int]);
        }
        match &a[i] {
            Json::Str(x) => {
                let y = clone_chars(x);
                let ghost before = r@;
                r.push(y);
                proof {
                    assert(strs_view(r@) =~= strs_view(before).push(y@));
                }
            },
            _ => {},
        }
        i = i + 1;
    }
    proof {
        assert(a@.take(i as int) =~= a@);
    }
    r
}

fn dedup_strs(v: &Vec<Vec<char>>) -> (r: Vec<Vec<char>>)
    ensures
        strs_view(r@) == dedup(strs_view(v@)),
{
    let ghost sv = strs_view(v@);
    let mut r: Vec<Vec<char>> = Vec::new();
    let mut i: usize = 0;
    proof {
        assert(sv.take(0) =~= Seq::<Seq<char>>::empty());
        assert(strs_view(r@) =~= Seq::<Seq<char>>::empty());
    }
    while i < v.len()
        invariant
            i <= v@.len(),
            sv == strs_view(v@),
            strs_view(r@) == dedup(sv.take(i as int)),
        decreases v.len() - i,
    {
        proof {
            assert(sv.take(i + 1).drop_last() =~= sv.take(i as int));
            assert(sv.take(i + 1).last() == v@[i as int]@);
        }
        if !has_str(&r, v[i].as_slice()) {
            let y = clone_chars(&v[i]);
            let ghost before = r@;
            r.push(y);
            proof {
                assert(strs_view(r@) =~= strs_view(before).push(y@));
            }
        }
        i = i + 1;
    }
    proof {
        assert(sv.take(i as int) =~= sv);
    }
    r
}

/// The peripherals an array of peripheral objects lists, or the first
/// problem: a missing field or a repeated id.
pub open spec fn json_periphs(vs: Seq<Json>) -> Result<Seq<PeriphV>, Seq<char>>
    decreases vs.len(),
{
    if vs.len() == 0 {
        Ok(Seq::empty())
    } else {
        match json_periphs(vs.drop_last()) {
            Err(e) => Err(e),
            Ok(ps) => {
                let v = vs.last();
                match jstr(jget(v, "id"@)) {
                    None => Err(msg_str("id"@)),
                    Some(id) => if exists|i: int| 0 <= i < ps.len() && (#[trigger] ps[i]).id == id {
                        Err("META001: 重复 Peripheral ID "@ + id)
                    } else {
                        match jstr(jget(v, "class"@)) {
                            None => Err(msg_str("class"@)),
                            Some(class) => match jint(jget(v, "instance"@)) {
                                None => Err(msg_int("instance"@)),
                                Some(n) => match jarr(jget(v, "signals"@)) {
                                    None => Err(msg_arr("signals"@)),
                                    Some(sig) => Ok(ps.push(PeriphV { id, class, instance: n, signals: dedup(str_elems(sig)) })),
                                },
                            },
                        }
                    },
                }
            },
        }
    }
}

/// The chip's peripherals.
pub open spec fn chip_periphs(chip: Json) -> Result<Seq<PeriphV>, Seq<char>> {
    match jarr(jget(chip, "peripherals"@)) {
        None => Err(msg_arr("peripherals"@)),
        Some(vs) => json_periphs(vs),
    }
}

proof fn lemma_json_periphs_err(vs: Seq<Json>, k: int)
    requires
        0 <= k <= vs.len(),
        json_periphs(vs.take(k)) is Err,
    ensures
        json_periphs(vs) == json_periphs(vs.take(k)),
    decreases vs.len() - k,
{
    if k < vs.len() {
        assert(vs.take(k + 1).drop_last() =~= vs.take(k));
        lemma_json_periphs_err(vs, k + 1);
    } else {
        assert(vs.take(k) =~= vs);
    }
}

/// The chip's peripherals (see [`chip_periphs`]).
fn parse_peripherals(chip: &Json) -> (r: Result<Vec<Peripheral>, Vec<char>>)
    ensures
        match r {
            Ok(ps) => chip_periphs(*chip) == Ok::<Seq<PeriphV>, Seq<char>>(periphs_view(ps@)),
            Err(e) => chip_periphs(*chip) == Err::<Seq<PeriphV>, Seq<char>>(e@),
        },
{
    let vs = req_arr(chip, "peripherals")?;
    let mut out: Vec<Peripheral> = Vec::new();
    let mut k: usize = 0;
    proof {
        assert(vs@.take(0) =~= Seq::<Json>::empty());
        assert(periphs_view(out@) =~= Seq::<PeriphV>::empty());
    }
    while k < vs.len()
        invariant
            k <= vs@.len(),
            jarr(jget(*chip, "peripherals"@)) == Some(vs@),
            json_periphs(vs@.take(k as int)) == Ok::<Seq<PeriphV>, Seq<char>>(periphs_view(out@)),
        decreases vs.len() - k,
    {
        proof {
            assert(vs@.take(k + 1).drop_last() =~= vs@.take(k as int));
            assert(vs@.take(k + 1).last() == vs@[k as int]);
        }
        let v = &vs[k];
        let id = match req_str(v, "id") {
            Ok(x) => x,
            Err(e) => {
                proof {
                    lemma_json_periphs_err(vs@, k + 1);
                }
                return Err(e);
            },
        };
        match find_periph_id(&out, id.as_slice()) {
            Some(j) => {
                proof {
                    assert(periphs_view(out@)[j as int].id == id@);
                    lemma_json_periphs_err(vs@, k + 1);
                }
                let mut m = chars_of("META001: 重复 Peripheral ID ");
                append_chars(&mut m, id.as_slice());
                return Err(m);
            },
            None => {
                proof {
                    if exists|i: int| 0 <= i < periphs_view(out@).len() && (#[trigger] periphs_view(out@)[i]).id == id@ {
                        let i = choose|i: int| 0 <= i < periphs_view(out@).len() && (#[trigger] periphs_view(out@)[i]).id == id@;
                        lemma_exists_first(periphs_view(out@), |x: PeriphV| x.id == id@, i);
                    }
                }
            },
        }
        let class = match req_str(v, "class") {
            Ok(x) => x,
            Err(e) => {
                proof {
                    lemma_json_periphs_err(vs@, k + 1);
                }
                return Err(e);
            },
        };
        let instance = match req_int(v, "instance") {
            Ok(x) => x,
            Err(e) => {
                proof {
                    lemma_json_periphs_err(vs@, k + 1);
                }
                return Err(e);
            },
        };
        let sig = match req_arr(v, "signals") {
            Ok(x) => x,
            Err(e) => {
                proof {
                    lemma_json_periphs_err(vs@, k + 1);
                }
                return Err(e);
            },
        };
        let signals = dedup_strs(&string_elems(sig));
        let x = Peripheral { id, class, instance, signals };
        let ghost before = out@;
        out.push(x);
        proof {
            assert(periphs_view(out@) =~= periphs_view(before).push(periph_view(x)));
        }
        k = k + 1;
    }
    proof {
        assert(vs@.take(k as int) =~= vs@);
    }
    Ok(out)
}

/// When some element satisfies `p`, a first one does.
pub proof fn lemma_exists_first<A>(s: Seq<A>, p: spec_fn(A) -> bool, i: int)
    requires
        0 <= i < s.len(),
        p(s[i]),
    ensures
        exists|j: int| is_first(s, p, j),
    decreases i,
{
    if exists|j: int| 0 <= j < i && p(s[j]) {
        let j = choose|j: int| 0 <= j < i && p(s[j]);
        lemma_exists_first(s, p, j);
    } else {
        assert(is_first(s, p, i));
    }
}

/// The problem (if any) with a capability of chip pin `id` that names the
/// peripheral `per` and signal `sig`: the peripheral must exist and have
/// the signal.
pub open spec fn cap_link_problem(id: Seq<char>, per: Option<Seq<char>>, sig: Option<Seq<char>>, ps: Seq<PeriphV>) -> Option<
    Seq<char>,
> {
    match per {
        None => None,
        Some(pid) => match periph_pos(ps, pid) {
            None => Some("META001: "@ + id + " capability 引用了不存在的外设 "@ + pid),
            Some(i) => match sig {
                None => Some("META001: "@ + id + " capability 引用外设时必须包含 signal"@),
                Some(sg) => if ps[i].signals.contains(sg) {
                    None
                } else {
                    Some("META001: "@ + id + " 的信号 "@ + sg + " 不属于外设 "@ + pid)
                },
            },
        },
    }
}

/// The capabilities listed for chip pin `id` (and their ids), or the first
/// problem.
pub open spec fn json_caps(id: Seq<char>, cs: Seq<Json>, ps: Seq<PeriphV>) -> Result<(Seq<CapV>, Seq<Seq<char>>), Seq<char>>
    decreases cs.len(),
{
    if cs.len() == 0 {
        Ok((Seq::empty(), Seq::empty()))
    } else {
        match json_caps(id, cs.drop_last(), ps) {
            Err(e) => Err(e),
            Ok(st) => {
                let c = cs.last();
                match jstr(jget(c, "id"@)) {
                    None => Err(msg_str("id"@)),
                    Some(cid) => if st.1.contains(cid) {
                        Err("META001: "@ + id + " 存在重复 capability ID "@ + cid)
                    } else {
                        let per = jstr(jget(c, "peripheral"@));
                        let sig = jstr(jget(c, "signal"@));
                        match cap_link_problem(id, per, sig, ps) {
                            Some(e) => Err(e),
                            None => match jstr(jget(c, "function"@)) {
                                None => Err(msg_str("function"@)),
                                Some(f) => match jstr(jget(c, "class"@)) {
                                    None => Err(msg_str("class"@)),
                                    Some(cl) => Ok((
                                        st.0.push(
                                            CapV { function: f, class: cl, peripheral: per, signal: sig, route: jstr(jget(c, "route"@)) },
                                        ),
                                        st.1.push(cid),
                                    )),
                                },
                            },
                        }
                    },
                }
            },
        }
    }
}

/// The chip pins an array of pin objects lists, or the first problem.
pub open spec fn json_chip_pins(vs: Seq<Json>, ps: Seq<PeriphV>) -> Result<Seq<ChipPinV>, Seq<char>>
    decreases vs.len(),
{
    if vs.len() == 0 {
        Ok(Seq::empty())
    } else {
        match json_chip_pins(vs.drop_last(), ps) {
            Err(e) => Err(e),
            Ok(cps) => {
                let v = vs.last();
                match jstr(jget(v, "id"@)) {
                    None => Err(msg_str("id"@)),
                    Some(id) => if exists|i: int| 0 <= i < cps.len() && (#[trigger] cps[i]).name == id {
                        Err("META001: 重复 Chip Pin ID "@ + id)
                    } else {
                        match jarr(jget(v, "capabilities"@)) {
                            None => Err(msg_arr("capabilities"@)),
                            Some(cs) => match json_caps(id, cs, ps) {
                                Err(e) => Err(e),
                                Ok(st) => Ok(cps.push(ChipPinV { name: id, caps: st.0 })),
                            },
                        }
                    },
                }
            },
        }
    }
}

/// The chip's pins.
pub open spec fn chip_pin_list(chip: Json, ps: Seq<PeriphV>) -> Result<Seq<ChipPinV>, Seq<char>> {
    match jarr(jget(chip, "pins"@)) {
        None => Err(msg_arr("pins"@)),
        Some(vs) => json_chip_pins(vs, ps),
    }
}

proof fn lemma_json_caps_err(id: Seq<char>, cs: Seq<Json>, ps: Seq<PeriphV>, k: int)
    requires
        0 <= k <= cs.len(),
        json_caps(id, cs.take(k), ps) is Err,
    ensures
        json_caps(id, cs, ps) == json_caps(id, cs.take(k), ps),
    decreases cs.len() - k,
{
    if k < cs.len() {
        assert(cs.take(k + 1).drop_last() =~= cs.take(k));
        lemma_json_caps_err(id, cs, ps, k + 1);
    } else {
        assert(cs.take(k) =~= cs);
    }
}

proof fn lemma_json_chip_pins_err(vs: Seq<Json>, ps: Seq<PeriphV>, k: int)
    requires
        0 <= k <= vs.len(),
        json_chip_pins(vs.take(k), ps) is Err,
    ensures
        json_chip_pins(vs, ps) == json_chip_pins(vs.take(k), ps),
    decreases vs.len() - k,
{
    if k < vs.len() {
        assert(vs.take(k + 1).drop_last() =~= vs.take(k));
        lemma_json_chip_pins_err(vs, ps, k + 1);
    } else {
        assert(vs.take(k) =~= vs);
    }
}

fn cap_link_check(id: &[char], per: &Option<Vec<char>>, sig: &Option<Vec<char>>, ps: &Vec<Peripheral>) -> (r: Option<Vec<char>>)
    ensures
        opt_chars(r) == cap_link_problem(id@, opt_chars(*per), opt_chars(*sig), periphs_view(ps@)),
{
    let pid = match per {
        None => return None,
        Some(p) => p,
    };
    match find_periph_id(ps, pid.as_slice()) {
        None => {
            let mut m = join3("META001: ", id, " capability 引用了不存在的外设 ");
            append_chars(&mut m, pid.as_slice());
            Some(m)
        },
        Some(i) => match sig {
            None => Some(join3("META001: ", id, " capability 引用外设时必须包含 signal")),
            Some(sg) => {
                let present = has_str(&ps[i].signals, sg.as_slice());
                proof {
                    assert(periphs_view(ps@)[i as int].signals == strs_view(ps@[i as int].signals@));
                }
                if present {
                    None
                } else {
                    let mut m = join3("META001: ", id, " 的信号 ");
                    append_chars(&mut m, sg.as_slice());
                    append_str(&mut m, " 不属于外设 ");
                    append_chars(&mut m, pid.as_slice());
                    Some(m)
                }
            },
        },
    }
}

/// The capabilities listed for chip pin `id` (see [`json_caps`]).
fn parse_capabilities(id: &[char], cs: &Vec<Json>, ps: &Vec<Peripheral>) -> (r: Result<Vec<Capability>, Vec<char>>)
    ensures
        match r {
            Ok(v) => json_caps(id@, cs@, periphs_view(ps@)) is Ok && json_caps(id@, cs@, periphs_view(ps@))->Ok_0.0 == caps_view(v@),
            Err(e) => json_caps(id@, cs@, periphs_view(ps@)) == Err::<(Seq<CapV>, Seq<Seq<char>>), Seq<char>>(e@),
        },
{
    let ghost pv = periphs_view(ps@);
    let mut out: Vec<Capability> = Vec::new();
    let mut ids: Vec<Vec<char>> = Vec::new();
    let mut k: usize = 0;
    proof {
        assert(cs@.take(0) =~= Seq::<Json>::empty());
        assert(caps_view(out@) =~= Seq::<CapV>::empty());
        assert(strs_view(ids@) =~= Seq::<Seq<char>>::empty());
    }
    while k < cs.len()
        invariant
            k <= cs@.len(),
            pv == periphs_view(ps@),
            json_caps(id@, cs@.take(k as int), pv) == Ok::<(Seq<CapV>, Seq<Seq<char>>), Seq<char>>(
                (caps_view(out@), strs_view(ids@)),
            ),
        decreases cs.len() - k,
    {
        proof {
            assert(cs@.take(k + 1).drop_last() =~= cs@.take(k as int));
            assert(cs@.take(k + 1).last() == cs@[k as int]);
        }
        let c = &cs[k];
        let cid = match req_str(c, "id") {
            Ok(x) => x,
            Err(e) => {
                proof {
                    lemma_json_caps_err(id@, cs@, pv, k + 1);
                }
                return Err(e);
            },
        };
        if has_str(&ids, cid.as_slice()) {
            proof {
                lemma_json_caps_err(id@, cs@, pv, k + 1);
            }
            let mut m = join3("META001: ", id, " 存在重复 capability ID ");
            append_chars(&mut m, cid.as_slice());
            return Err(m);
        }
        let per = opt_string(c, "peripheral");
        let sig = opt_string(c, "signal");
        match cap_link_check(id, &per, &sig, ps) {
            Some(e) => {
                proof {
                    lemma_json_caps_err(id@, cs@, pv, k + 1);
                }
                return Err(e);
            },
            None => {},
        }
        let function = match req_str(c, "function") {
            Ok(x) => x,
            Err(e) => {
                proof {
                    lemma_json_caps_err(id@, cs@, pv, k + 1);
                }
                return Err(e);
            },
        };
        let class = match req_str(c, "class") {
            Ok(x) => x,
            Err(e) => {
                proof {
                    lemma_json_caps_err(id@, cs@, pv, k + 1);
                }
                return Err(e);
            },
        };
        let route = opt_string(c, "route");
        let x = Capability { function, class, peripheral: per, signal: sig, route };
        let ghost before = out@;
        let ghost before_ids = ids@;
        out.push(x);
        ids.push(cid);
        proof {
            assert(caps_view(out@) =~= caps_view(before).push(cap_view(x)));
            assert(strs_view(ids@) =~= strs_view(before_ids).push(cid@));
        }
        k = k + 1;
    }
    proof {
        assert(cs@.take(k as int) =~= cs@);
    }
    Ok(out)
}

/// The chip's pins (see [`chip_pin_list`]).
fn parse_chip_pins(chip: &Json, ps: &Vec<Peripheral>) -> (r: Result<Vec<ChipPin>, Vec<char>>)
    ensures
        match r {
            Ok(v) => chip_pin_list(*chip, periphs_view(ps@)) == Ok::<Seq<ChipPinV>, Seq<char>>(chip_pins_view(v@)),
            Err(e) => chip_pin_list(*chip, periphs_view(ps@)) == Err::<Seq<ChipPinV>, Seq<char>>(e@),
        },
{
    let ghost pv = periphs_view(ps@);
    let vs = req_arr(chip, "pins")?;
    let mut out: Vec<ChipPin> = Vec::new();
    let mut k: usize = 0;
    proof {
        assert(vs@.take(0) =~= Seq::<Json>::empty());
        assert(chip_pins_view(out@) =~= Seq::<ChipPinV>::empty());
    }
    while k < vs.len()
        invariant
            k <= vs@.len(),
            pv == periphs_view(ps@),
            jarr(jget(*chip, "pins"@)) == Some(vs@),
            json_chip_pins(vs@.take(k as int), pv) == Ok::<Seq<ChipPinV>, Seq<char>>(chip_pins_view(out@)),
        decreases vs.len() - k,
    {
        proof {
            assert(vs@.take(k + 1).drop_last() =~= vs@.take(k as int));
            assert(vs@.take(k + 1).last() == vs@[k as int]);
        }
        let v = &vs[k];
        let id = match req_str(v, "id") {
            Ok(x) => x,
            Err(e) => {
                proof {
                    lemma_json_chip_pins_err(vs@, pv, k + 1);
                }
                return Err(e);
            },
        };
        if chip_pin_exists(&out, id.as_slice()) {
            proof {
                lemma_json_chip_pins_err(vs@, pv, k + 1);
            }
            let mut m = chars_of("META001: 重复 Chip Pin ID ");
            append_chars(&mut m, id.as_slice());
            return Err(m);
        }
        let cs = match req_arr(v, "capabilities") {
            Ok(x) => x,
            Err(e) => {
                proof {
                    lemma_json_chip_pins_err(vs@, pv, k + 1);
                }
                return Err(e);
            },
        };
        let caps = match parse_capabilities(id.as_slice(), cs, ps) {
            Ok(x) => x,
            Err(e) => {
                proof {
                    lemma_json_chip_pins_err(vs@, pv, k + 1);
                }
                return Err(e);
            },
        };
        let x = ChipPin { name: id, capabilities: caps };
        let ghost before = out@;
        out.push(x);
        proof {
            assert(chip_pins_view(out@) =~= chip_pins_view(before).push(chip_pin_view(x)));
        }
        k = k + 1;
    }
    proof {
        assert(vs@.take(k as int) =~= vs@);
    }
    Ok(out)
}

/// The `allow_classes` set of a board pin object: absent, or the string
/// elements of the member when it is an array (else empty).
pub open spec fn allow_set(v: Json) -> Option<Seq<Seq<char>>> {
    match jget(v, "allow_classes"@) {
        Some(x) => Some(dedup(str_elems(match x {
            Json::Array(a) => a@,
            _ => Seq::empty(),
        }))),
        None => None,
    }
}

/// The board pins an array of board pin objects lists, or the first problem.
pub open spec fn json_board_pins(vs: Seq<Json>, cps: Seq<ChipPinV>) -> Result<Seq<BoardPinV>, Seq<char>>
    decreases vs.len(),
{
    if vs.len() == 0 {
        Ok(Seq::empty())
    } else {
        match json_board_pins(vs.drop_last(), cps) {
            Err(e) => Err(e),
            Ok(bps) => {
                let v = vs.last();
                match jstr(jget(v, "id"@)) {
                    None => Err(msg_str("id"@)),
                    Some(id) => if exists|i: int| 0 <= i < bps.len() && (#[trigger] bps[i]).id == id {
                        Err("META001: 重复 Board Pin ID "@ + id)
                    } else {
                        match jstr(jget(v, "chip_pin"@)) {
                            None => Err(msg_str("chip_pin"@)),
                            Some(cp) => if !has_chip_pin(cps, cp) {
                                Err("META001: Board pin "@ + id + " 引用了不存在的 Chip pin "@ + cp)
                            } else {
                                match jstr(jget(v, "name"@)) {
                                    None => Err(msg_str("name"@)),
                                    Some(name) => Ok(bps.push(BoardPinV {
                                        id,
                                        name,
                                        aliases: str_elems(opt_arr(v, "aliases"@)),
                                        chip_pin: cp,
                                        available: jflag(jget(v, "available"@)),
                                        allow_classes: allow_set(v),
                                        deny_functions: dedup(str_elems(opt_arr(v, "deny_functions"@))),
                                        preference: match jint(jget(v, "preference"@)) {
                                            Some(n) => n,
                                            None => 0,
                                        },
                                        reserved: None,
                                        occupied: None,
                                    })),
                                }
                            },
                        }
                    },
                }
            },
        }
    }
}

/// Every board pin on chip pin `cp` marked reserved with `sev` and `reason`.
pub open spec fn mark_reserved(bps: Seq<BoardPinV>, cp: Seq<char>, sev: Seq<char>, reason: Seq<char>) -> Seq<BoardPinV> {
    Seq::new(
        bps.len(),
        |i: int|
            if bps[i].chip_pin == cp {
                BoardPinV { reserved: Some((sev, reason)), ..bps[i] }
            } else {
                bps[i]
            },
    )
}

/// Every board pin on chip pin `cp` marked as held by device `dev`.
pub open spec fn mark_occupied(bps: Seq<BoardPinV>, cp: Seq<char>, dev: Seq<char>, rel: bool) -> Seq<BoardPinV> {
    Seq::new(
        bps.len(),
        |i: int|
            if bps[i].chip_pin == cp {
                BoardPinV { occupied: Some((dev, rel)), ..bps[i] }
            } else {
                bps[i]
            },
    )
}

/// The board pins after the reserved-pin entries `rs`.
pub open spec fn apply_reserved(bps: Seq<BoardPinV>, rs: Seq<Json>) -> Result<Seq<BoardPinV>, Seq<char>>
    decreases rs.len(),
{
    if rs.len() == 0 {
        Ok(bps)
    } else {
        match apply_reserved(bps, rs.drop_last()) {
            Err(e) => Err(e),
            Ok(b) => {
                let r = rs.last();
                match jstr(jget(r, "chip_pin"@)) {
                    None => Err(msg_str("chip_pin"@)),
                    Some(cp) => match jstr(jget(r, "reason"@)) {
                        None => Err(msg_str("reason"@)),
                        Some(reason) => match jstr(jget(r, "severity"@)) {
                            None => Err(msg_str("severity"@)),
                            Some(sev) => Ok(mark_reserved(b, cp, sev, reason)),
                        },
                    },
                }
            },
        }
    }
}

/// The board pins after the exclusive connections `cs` of device `dev`.
pub open spec fn apply_connections(bps: Seq<BoardPinV>, dev: Seq<char>, cs: Seq<Json>) -> Result<Seq<BoardPinV>, Seq<char>>
    decreases cs.len(),
{
    if cs.len() == 0 {
        Ok(bps)
    } else {
        match apply_connections(bps, dev, cs.drop_last()) {
            Err(e) => Err(e),
            Ok(b) => {
                let c = cs.last();
                if !jflag(jget(c, "exclusive"@)) {
                    Ok(b)
                } else {
                    match jstr(jget(c, "chip_pin"@)) {
                        None => Err(msg_str("chip_pin"@)),
                        Some(cp) => Ok(mark_occupied(b, cp, dev, jflag(jget(c, "releasable"@)))),
                    }
                }
            },
        }
    }
}

/// The board pins after the on-board devices `ds`.
pub open spec fn apply_devices(bps: Seq<BoardPinV>, ds: Seq<Json>) -> Result<Seq<BoardPinV>, Seq<char>>
    decreases ds.len(),
{
    if ds.len() == 0 {
        Ok(bps)
    } else {
        match apply_devices(bps, ds.drop_last()) {
            Err(e) => Err(e),
            Ok(b) => {
                let d = ds.last();
                match jstr(jget(d, "id"@)) {
                    None => Err(msg_str("id"@)),
                    Some(dev) => apply_connections(b, dev, opt_arr(d, "connections"@)),
                }
            },
        }
    }
}

/// The board's pins, with reservations and on-board devices applied.
pub open spec fn board_pin_list(board: Json, cps: Seq<ChipPinV>) -> Result<Seq<BoardPinV>, Seq<char>> {
    match jarr(jget(board, "pins"@)) {
        None => Err(msg_arr("pins"@)),
        Some(vs) => match json_board_pins(vs, cps) {
            Err(e) => Err(e),
            Ok(bps) => match apply_reserved(bps, opt_arr(board, "reserved_pins"@)) {
                Err(e) => Err(e),
                Ok(b2) => apply_devices(b2, opt_arr(board, "onboard_devices"@)),
            },
        },
    }
}

proof fn lemma_json_board_pins_err(vs: Seq<Json>, cps: Seq<ChipPinV>, k: int)
    requires
        0 <= k <= vs.len(),
        json_board_pins(vs.take(k), cps) is Err,
    ensures
        json_board_pins(vs, cps) == json_board_pins(vs.take(k), cps),
    decreases vs.len() - k,
{
    if k < vs.len() {
        assert(vs.take(k + 1).drop_last() =~= vs.take(k));
        lemma_json_board_pins_err(vs, cps, k + 1);
    } else {
        assert(vs.take(k) =~= vs);
    }
}

proof fn lemma_apply_reserved_err(bps: Seq<BoardPinV>, rs: Seq<Json>, k: int)
    requires
        0 <= k <= rs.len(),
        apply_reserved(bps, rs.take(k)) is Err,
    ensures
        apply_reserved(bps, rs) == apply_reserved(bps, rs.take(k)),
    decreases rs.len() - k,
{
    if k < rs.len() {
        assert(rs.take(k + 1).drop_last() =~= rs.take(k));
        lemma_apply_reserved_err(bps, rs, k + 1);
    } else {
        assert(rs.take(k) =~= rs);
    }
}

proof fn lemma_apply_connections_err(bps: Seq<BoardPinV>, dev: Seq<char>, cs: Seq<Json>, k: int)
    requires
        0 <= k <= cs.len(),
        apply_connections(bps, dev, cs.take(k)) is Err,
    ensures
        apply_connections(bps, dev, cs) == apply_connections(bps, dev, cs.take(k)),
    decreases cs.len() - k,
{
    if k < cs.len() {
        assert(cs.take(k + 1).drop_last() =~= cs.take(k));
        lemma_apply_connections_err(bps, dev, cs, k + 1);
    } else {
        assert(cs.take(k) =~= cs);
    }
}

proof fn lemma_apply_devices_err(bps: Seq<BoardPinV>, ds: Seq<Json>, k: int)
    requires
        0 <= k <= ds.len(),
        apply_devices(bps, ds.take(k)) is Err,
    ensures
        apply_devices(bps, ds) == apply_devices(bps, ds.take(k)),
    decreases ds.len() - k,
{
    if k < ds.len() {
        assert(ds.take(k + 1).drop_last() =~= ds.take(k));
        lemma_apply_devices_err(bps, ds, k + 1);
    } else {
        assert(ds.take(k) =~= ds);
    }
}

fn board_pin_id_exists(bps: &Vec<BoardPin>, id: &[char]) -> (r: bool)
    ensures
        r == exists|i: int| 0 <= i < board_pins_view(bps@).len() && (#[trigger] board_pins_view(bps@)[i]).id == id@,
{
    let mut k: usize = 0;
    while k < bps.len()
        invariant
            k <= bps@.len(),
            board_pins_view(bps@).len() == bps@.len(),
            forall|j: int| 0 <= j < k ==> (#[trigger] board_pins_view(bps@)[j]).id != id@,
        decreases bps.len() - k,
    {
        proof {
            assert(board_pins_view(bps@)[k as int].id == bps@[k as int].id@);
        }
        if chars_eq(bps[k].id.as_slice(), id) {
            return true;
        }
        k = k + 1;
    }
    false
}

/// Marks every board pin on chip pin `cp` reserved or occupied.
fn mark_pins(bps: &mut Vec<BoardPin>, cp: &[char], reserved: &Option<(Vec<char>, Vec<char>)>, occupied: &Option<(Vec<char>, bool)>)
    requires
        reserved is Some || occupied is Some,
    ensures
        reserved matches Some(rv) ==> board_pins_view(final(bps)@) == mark_reserved(board_pins_view(old(bps)@), cp@, rv.0@, rv.1@),
        reserved is None ==> (occupied matches Some(ov) ==> board_pins_view(final(bps)@) == mark_occupied(
            board_pins_view(old(bps)@),
            cp@,
            ov.0@,
            ov.1,
        )),
{
    let ghost o = board_pins_view(old(bps)@);
    let ghost target = match reserved {
        Some(rv) => mark_reserved(o, cp@, rv.0@, rv.1@),
        None => match occupied {
            Some(ov) => mark_occupied(o, cp@, ov.0@, ov.1),
            None => o,
        },
    };
    let mut i: usize = 0;
    while i < bps.len()
        invariant
            i <= bps@.len(),
            bps@.len() == o.len(),
            o == board_pins_view(old(bps)@),
            target.len() == o.len(),
            target == match reserved {
                Some(rv) => mark_reserved(o, cp@, rv.0@, rv.1@),
                None => match occupied {
                    Some(ov) => mark_occupied(o, cp@, ov.0@, ov.1),
                    None => o,
                },
            },
            forall|j: int| 0 <= j < i ==> #[trigger] board_pins_view(bps@)[j] == target[j],
            forall|j: int| i <= j < o.len() ==> #[trigger] board_pins_view(bps@)[j] == o[j],
        decreases bps.len() - i,
    {
        proof {
            assert(board_pins_view(bps@)[i as int] == o[i as int]);
        }
        if chars_eq(bps[i].chip_pin.as_slice(), cp) {
            let ghost before = bps@;
            let mut x = bps.remove(i);
            let ghost x0 = x;
            proof {
                assert(x0 == before[i as int]);
                assert(board_pin_view(x0) == o[i as int]);
                assert(o[i as int].chip_pin == cp@);
            }
            match reserved {
                Some(rv) => x.reserved = Some((clone_chars(&rv.0), clone_chars(&rv.1))),
                None => match occupied {
                    Some(ov) => x.occupied = Some((clone_chars(&ov.0), ov.1)),
                    None => {},
                },
            }
            bps.insert(i, x);
            proof {
                assert(bps@ =~= before.update(i as int, x));
                assert forall|j: int| 0 <= j < bps@.len() && j != i implies #[trigger] board_pins_view(bps@)[j]
                    == board_pins_view(before)[j] by {}
                assert(board_pins_view(bps@)[i as int] == board_pin_view(x));
                assert(board_pin_view(x) =~~= target[i as int]);
            }
        } else {
            proof {
                assert(o[i as int].chip_pin != cp@);
                assert(board_pins_view(bps@)[i as int] == target[i as int]);
            }
        }
        i = i + 1;
    }
    proof {
        assert(board_pins_view(bps@) =~= target);
    }
}

/// The board's pins (see [`board_pin_list`]).
fn parse_board_pins(board: &Json, cps: &Vec<ChipPin>) -> (r: Result<Vec<BoardPin>, Vec<char>>)
    ensures
        match r {
            Ok(v) => board_pin_list(*board, chip_pins_view(cps@)) == Ok::<Seq<BoardPinV>, Seq<char>>(board_pins_view(v@)),
            Err(e) => board_pin_list(*board, chip_pins_view(cps@)) == Err::<Seq<BoardPinV>, Seq<char>>(e@),
        },
{
    let ghost cv = chip_pins_view(cps@);
    let vs = req_arr(board, "pins")?;
    let mut out: Vec<BoardPin> = Vec::new();
    let mut k: usize = 0;
    proof {
        assert(vs@.take(0) =~= Seq::<Json>::empty());
        assert(board_pins_view(out@) =~= Seq::<BoardPinV>::empty());
    }
    while k < vs.len()
        invariant
            k <= vs@.len(),
            cv == chip_pins_view(cps@),
            jarr(jget(*board, "pins"@)) == Some(vs@),
            json_board_pins(vs@.take(k as int), cv) == Ok::<Seq<BoardPinV>, Seq<char>>(board_pins_view(out@)),
        decreases vs.len() - k,
    {
        proof {
            assert(vs@.take(k + 1).drop_last() =~= vs@.take(k as int));
            assert(vs@.take(k + 1).last() == vs@[k as int]);
        }
        let v = &vs[k];
        let id = match req_str(v, "id") {
            Ok(x) => x,
            Err(e) => {
                proof {
                    lemma_json_board_pins_err(vs@, cv, k + 1);
                }
                return Err(e);
            },
        };
        if board_pin_id_exists(&out, id.as_slice()) {
            proof {
                lemma_json_board_pins_err(vs@, cv, k + 1);
            }
            let mut m = chars_of("META001: 重复 Board Pin ID ");
            append_chars(&mut m, id.as_slice());
            return Err(m);
        }
        let cp = match req_str(v, "chip_pin") {
            Ok(x) => x,
            Err(e) => {
                proof {
                    lemma_json_board_pins_err(vs@, cv, k + 1);
                }
                return Err(e);
            },
        };
        if !chip_pin_exists(cps, cp.as_slice()) {
            proof {
                lemma_json_board_pins_err(vs@, cv, k + 1);
            }
            let mut m = join3("META001: Board pin ", id.as_slice(), " 引用了不存在的 Chip pin ");
            append_chars(&mut m, cp.as_slice());
            return Err(m);
        }
        let allow_classes = match json_get(v, "allow_classes") {
            Some(x) => {
                let elems = match x {
                    Json::Array(a) => string_elems(a),
                    _ => {
                        let e: Vec<Vec<char>> = Vec::new();
                        proof {
                            assert(strs_view(e@) =~= str_elems(Seq::<Json>::empty()));
                        }
                        e
                    },
                };
                Some(dedup_strs(&elems))
            },
            None => None,
        };
        let name = match req_str(v, "name") {
            Ok(x) => x,
            Err(e) => {
                proof {
                    lemma_json_board_pins_err(vs@, cv, k + 1);
                }
                return Err(e);
            },
        };
        let aliases = match opt_array(v, "aliases") {
            Some(a) => string_elems(a),
            None => {
                let e: Vec<Vec<char>> = Vec::new();
                proof {
                    assert(strs_view(e@) =~= str_elems(Seq::<Json>::empty()));
                }
                e
            },
        };
        let deny = match opt_array(v, "deny_functions") {
            Some(a) => string_elems(a),
            None => {
                let e: Vec<Vec<char>> = Vec::new();
                proof {
                    assert(strs_view(e@) =~= str_elems(Seq::<Json>::empty()));
                }
                e
            },
        };
        let preference: i64 = match json_get(v, "preference") {
            Some(Json::Number(Some(n), _)) => *n,
            _ => 0,
        };
        let x = BoardPin {
            id,
            name,
            aliases,
            chip_pin: cp,
            available: json_flag(json_get(v, "available")),
            allow_classes,
            deny_functions: dedup_strs(&deny),
            preference,
            reserved: None,
            occupied: None,
        };
        let ghost before = out@;
        out.push(x);
        proof {
            assert(board_pins_view(out@) =~= board_pins_view(before).push(board_pin_view(x)));
        }
        k = k + 1;
    }
    proof {
        assert(vs@.take(k as int) =~= vs@);
    }
    let ghost stage1 = board_pins_view(out@);
    match opt_array(board, "reserved_pins") {
        None => {
            proof {
                assert(apply_reserved(stage1, opt_arr(*board, "reserved_pins"@)) == Ok::<Seq<BoardPinV>, Seq<char>>(stage1));
            }
        },
        Some(rs) => {
            let mut i: usize = 0;
            proof {
                assert(rs@.take(0) =~= Seq::<Json>::empty());
            }
            while i < rs.len()
                invariant
                    i <= rs@.len(),
                    opt_arr(*board, "reserved_pins"@) == rs@,
                    cv == chip_pins_view(cps@),
                    jarr(jget(*board, "pins"@)) == Some(vs@),
                    json_board_pins(vs@, cv) == Ok::<Seq<BoardPinV>, Seq<char>>(stage1),
                    apply_reserved(stage1, rs@.take(i as int)) == Ok::<Seq<BoardPinV>, Seq<char>>(board_pins_view(out@)),
                decreases rs.len() - i,
            {
                proof {
                    assert(rs@.take(i + 1).drop_last() =~= rs@.take(i as int));
                    assert(rs@.take(i + 1).last() == rs@[i as int]);
                }
                let r = &rs[i];
                let cp = match req_str(r, "chip_pin") {
                    Ok(x) => x,
                    Err(e) => {
                        proof {
                            lemma_apply_reserved_err(stage1, rs@, i + 1);
                        }
                        return Err(e);
                    },
                };
                let reason = match req_str(r, "reason") {
                    Ok(x) => x,
                    Err(e) => {
                        proof {
                            lemma_apply_reserved_err(stage1, rs@, i + 1);
                        }
                        return Err(e);
                    },
                };
                let sev = match req_str(r, "severity") {
                    Ok(x) => x,
                    Err(e) => {
                        proof {
                            lemma_apply_reserved_err(stage1, rs@, i + 1);
                        }
                        return Err(e);
                    },
                };
                mark_pins(&mut out, cp.as_slice(), &Some((sev, reason)), &None);
                i = i + 1;
            }
            proof {
                assert(rs@.take(i as int) =~= rs@);
            }
        },
    }
    let ghost stage2 = board_pins_view(out@);
    proof {
        assert(apply_reserved(stage1, opt_arr(*board, "reserved_pins"@)) == Ok::<Seq<BoardPinV>, Seq<char>>(stage2));
    }
    match opt_array(board, "onboard_devices") {
        None => {
            proof {
                assert(apply_devices(stage2, opt_arr(*board, "onboard_devices"@)) == Ok::<Seq<BoardPinV>, Seq<char>>(stage2));
            }
        },
        Some(ds) => {
            let mut i: usize = 0;
            proof {
                assert(ds@.take(0) =~= Seq::<Json>::empty());
            }
            while i < ds.len()
                invariant
                    i <= ds@.len(),
                    opt_arr(*board, "onboard_devices"@) == ds@,
                    cv == chip_pins_view(cps@),
                    jarr(jget(*board, "pins"@)) == Some(vs@),
                    json_board_pins(vs@, cv) == Ok::<Seq<BoardPinV>, Seq<char>>(stage1),
                    apply_reserved(stage1, opt_arr(*board, "reserved_pins"@)) == Ok::<Seq<BoardPinV>, Seq<char>>(stage2),
                    apply_devices(stage2, ds@.take(i as int)) == Ok::<Seq<BoardPinV>, Seq<char>>(board_pins_view(out@)),
                decreases ds.len() - i,
            {
                proof {
                    assert(ds@.take(i + 1).drop_last() =~= ds@.take(i as int));
                    assert(ds@.take(i + 1).last() == ds@[i as int]);
                }
                let d = &ds[i];
                let dev = match req_str(d, "id") {
                    Ok(x) => x,
                    Err(e) => {
                        proof {
                            lemma_apply_devices_err(stage2, ds@, i + 1);
                        }
                        return Err(e);
                    },
                };
                let ghost before = board_pins_view(out@);
                match opt_array(d, "connections") {
                    None => {
                        proof {
                            assert(apply_connections(before, dev@, opt_arr(*d, "connections"@)) == Ok::<Seq<BoardPinV>, Seq<char>>(before));
                        }
                    },
                    Some(cs) => {
                        let mut j: usize = 0;
                        proof {
                            assert(cs@.take(0) =~= Seq::<Json>::empty());
                        }
                        while j < cs.len()
                            invariant
                                j <= cs@.len(),
                                i < ds@.len(),
                                opt_arr(*d, "connections"@) == cs@,
                                apply_connections(before, dev@, cs@.take(j as int)) == Ok::<Seq<BoardPinV>, Seq<char>>(
                                    board_pins_view(out@),
                                ),
                                opt_arr(*board, "onboard_devices"@) == ds@,
                                *d == ds@[i as int],
                                jstr(jget(*d, "id"@)) == Some(dev@),
                                apply_devices(stage2, ds@.take(i as int)) == Ok::<Seq<BoardPinV>, Seq<char>>(before),
                                ds@.take(i + 1).drop_last() == ds@.take(i as int),
                                ds@.take(i + 1).last() == ds@[i as int],
                                cv == chip_pins_view(cps@),
                                jarr(jget(*board, "pins"@)) == Some(vs@),
                                json_board_pins(vs@, cv) == Ok::<Seq<BoardPinV>, Seq<char>>(stage1),
                                apply_reserved(stage1, opt_arr(*board, "reserved_pins"@)) == Ok::<Seq<BoardPinV>, Seq<char>>(stage2),
                            decreases cs.len() - j,
                        {
                            proof {
                                assert(cs@.take(j + 1).drop_last() =~= cs@.take(j as int));
                                assert(cs@.take(j + 1).last() == cs@[j as int]);
                            }
                            let c = &cs[j];
                            if json_flag(json_get(c, "exclusive")) {
                                let cp = match req_str(c, "chip_pin") {
                                    Ok(x) => x,
                                    Err(e) => {
                                        proof {
                                            lemma_apply_connections_err(before, dev@, cs@, j + 1);
                                            lemma_apply_devices_err(stage2, ds@, i + 1);
                                        }
                                        return Err(e);
                                    },
                                };
                                let rel = json_flag(json_get(c, "releasable"));
                                mark_pins(&mut out, cp.as_slice(), &None, &Some((clone_chars(&dev), rel)));
                            }
                            j = j + 1;
                        }
                        proof {
                            assert(cs@.take(j as int) =~= cs@);
                        }
                    },
                }
                i = i + 1;
            }
            proof {
                assert(ds@.take(i as int) =~= ds@);
            }
        },
    }
    Ok(out)
}

/// The chip pin `cp` offers a capability with function `f`.
pub open spec fn chip_pin_has_function(cps: Seq<ChipPinV>, cp: Seq<char>, f: Seq<char>) -> bool {
    match find_first(cps, |x: ChipPinV| x.name == cp) {
        Some(i) => exists|j: int| 0 <= j < cps[i].caps.len() && (#[trigger] cps[i].caps[j]).function == f,
        None => false,
    }
}

/// A board pin has the id `id`.
pub open spec fn has_board_pin_id(bps: Seq<BoardPinV>, id: Seq<char>) -> bool {
    exists|i: int| 0 <= i < bps.len() && (#[trigger] bps[i]).id == id
}

/// The problem with an on-board device connection `c`.
pub open spec fn conn_problem(c: Json, cps: Seq<ChipPinV>, bps: Seq<BoardPinV>) -> Option<Seq<char>> {
    match jstr(jget(c, "chip_pin"@)) {
        None => Some(msg_str("chip_pin"@)),
        Some(cp) => if !has_chip_pin(cps, cp) {
            Some("META001: 板载设备连接引用不存在的 Chip pin "@ + cp)
        } else {
            match jstr(jget(c, "function"@)) {
                Some(f) if !chip_pin_has_function(cps, cp, f) => Some("META001: 板载连接 "@ + cp + " 不支持 function "@ + f),
                _ => match jstr(jget(c, "board_pin"@)) {
                    Some(b) if !has_board_pin_id(bps, b) => Some("META001: 板载设备连接引用不存在的 Board pin "@ + b),
                    _ => None,
                },
            }
        },
    }
}

/// The first problem among the connections of device `d`.
pub open spec fn device_problem(d: Json, cps: Seq<ChipPinV>, bps: Seq<BoardPinV>) -> Option<Seq<char>> {
    first_some(opt_arr(d, "connections"@), |c: Json| conn_problem(c, cps, bps))
}

/// The problem with a reserved-pin entry.
pub open spec fn reserved_problem(r: Json, cps: Seq<ChipPinV>) -> Option<Seq<char>> {
    match jstr(jget(r, "chip_pin"@)) {
        None => Some(msg_str("chip_pin"@)),
        Some(cp) => if has_chip_pin(cps, cp) {
            None
        } else {
            Some("META001: reserved_pins 引用不存在的 Chip pin "@ + cp)
        },
    }
}

/// The ids of the objects in the array member `key`, or the first problem.
pub open spec fn unique_ids(items: Seq<Json>, key: Seq<char>) -> Result<Seq<Seq<char>>, Seq<char>>
    decreases items.len(),
{
    if items.len() == 0 {
        Ok(Seq::empty())
    } else {
        match unique_ids(items.drop_last(), key) {
            Err(e) => Err(e),
            Ok(ids) => match jstr(jget(items.last(), "id"@)) {
                None => Err(msg_str("id"@)),
                Some(id) => if ids.contains(id) {
                    Err("META001: "@ + key + " 存在重复 ID "@ + id)
                } else {
                    Ok(ids.push(id))
                },
            },
        }
    }
}

/// A string member of the optional object `o`.
pub open spec fn sub_str(o: Option<Json>, key: Seq<char>) -> Option<Seq<char>> {
    match o {
        Some(x) => jstr(jget(x, key)),
        None => None,
    }
}

/// The problem with a memory device's interface.
pub open spec fn memory_problem(m: Json, devices: Seq<Seq<char>>, ps: Seq<PeriphV>) -> Option<Seq<char>> {
    match sub_str(jget(m, "interface"@), "device"@) {
        Some(d) if !devices.contains(d) => Some("META001: memory interface 引用不存在的板载设备 "@ + d),
        _ => match sub_str(jget(m, "interface"@), "peripheral"@) {
            Some(p) if !(exists|i: int| 0 <= i < ps.len() && (#[trigger] ps[i]).id == p) => Some(
                "META001: memory interface 引用不存在的芯片外设 "@ + p,
            ),
            _ => None,
        },
    }
}

/// The memory device `storage` is writable (`false` when unknown).
pub open spec fn storage_writable(ms: Seq<Json>, storage: Seq<char>) -> bool {
    match find_first(ms, |m: Json| jstr(jget(m, "id"@)) == Some(storage)) {
        Some(i) => jflag(jget(ms[i], "writable"@)),
        None => false,
    }
}

/// Whether the artifact targets `ts` include Lua bytecode, or the first
/// problem with one of them.
pub open spec fn targets_check(ts: Seq<Json>, memories: Seq<Seq<char>>, ms: Seq<Json>) -> Result<bool, Seq<char>>
    decreases ts.len(),
{
    if ts.len() == 0 {
        Ok(false)
    } else {
        match targets_check(ts.drop_last(), memories, ms) {
            Err(e) => Err(e),
            Ok(seen) => {
                let t = ts.last();
                match jstr(jget(t, "storage"@)) {
                    None => Err(msg_str("storage"@)),
                    Some(st) => if !memories.contains(st) {
                        Err("META001: artifact target 引用不存在的存储 "@ + st)
                    } else if !storage_writable(ms, st) {
                        Err("STORE001: artifact target 指向只读存储 "@ + st)
                    } else {
                        match jstr(jget(t, "kind"@)) {
                            None => Err(msg_str("kind"@)),
                            Some(kind) => Ok(seen || kind == "lua_bytecode"@),
                        }
                    },
                }
            },
        }
    }
}

/// The first problem with the board's devices, reservations, memories and
/// artifact targets.
pub open spec fn board_problem(board: Json, ps: Seq<PeriphV>, cps: Seq<ChipPinV>, bps: Seq<BoardPinV>) -> Option<Seq<char>> {
    match first_some(opt_arr(board, "onboard_devices"@), |d: Json| device_problem(d, cps, bps)) {
        Some(e) => Some(e),
        None => match first_some(opt_arr(board, "reserved_pins"@), |r: Json| reserved_problem(r, cps)) {
            Some(e) => Some(e),
            None => match unique_ids(opt_arr(board, "onboard_devices"@), "onboard_devices"@) {
                Err(e) => Some(e),
                Ok(devices) => match unique_ids(opt_arr(board, "memory_devices"@), "memory_devices"@) {
                    Err(e) => Some(e),
                    Ok(memories) => match unique_ids(opt_arr(board, "artifact_targets"@), "artifact_targets"@) {
                        Err(e) => Some(e),
                        Ok(_) => match first_some(opt_arr(board, "memory_devices"@), |m: Json| memory_problem(m, devices, ps)) {
                            Some(e) => Some(e),
                            None => match targets_check(opt_arr(board, "artifact_targets"@), memories, opt_arr(board, "memory_devices"@)) {
                                Err(e) => Some(e),
                                Ok(seen) => if seen {
                                    None
                                } else {
                                    Some("STORE001: Board 未定义 lua_bytecode artifact target"@)
                                },
                            },
                        },
                    },
                },
            },
        },
    }
}

proof fn lemma_unique_ids_err(items: Seq<Json>, key: Seq<char>, k: int)
    requires
        0 <= k <= items.len(),
        unique_ids(items.take(k), key) is Err,
    ensures
        unique_ids(items, key) == unique_ids(items.take(k), key),
    decreases items.len() - k,
{
    if k < items.len() {
        assert(items.take(k + 1).drop_last() =~= items.take(k));
        lemma_unique_ids_err(items, key, k + 1);
    } else {
        assert(items.take(k) =~= items);
    }
}

proof fn lemma_targets_err(ts: Seq<Json>, memories: Seq<Seq<char>>, ms: Seq<Json>, k: int)
    requires
        0 <= k <= ts.len(),
        targets_check(ts.take(k), memories, ms) is Err,
    ensures
        targets_check(ts, memories, ms) == targets_check(ts.take(k), memories, ms),
    decreases ts.len() - k,
{
    if k < ts.len() {
        assert(ts.take(k + 1).drop_last() =~= ts.take(k));
        lemma_targets_err(ts, memories, ms, k + 1);
    } else {
        assert(ts.take(k) =~= ts);
    }
}

fn chip_pin_function(cps: &Vec<ChipPin>, cp: &[char], f: &[char]) -> (r: bool)
    ensures
        r == chip_pin_has_function(chip_pins_view(cps@), cp@, f@),
{
    match find_chip_pin_v(cps, cp) {
        None => false,
        Some(i) => {
            let caps = &cps[i].capabilities;
            let ghost cv = chip_pins_view(cps@)[i as int].caps;
            let mut j: usize = 0;
            while j < caps.len()
                invariant
                    j <= caps@.len(),
                    i < cps@.len(),
                    caps@ == cps@[i as int].capabilities@,
                    cv == chip_pins_view(cps@)[i as int].caps,
                    cv == caps_view(caps@),
                    find_first(chip_pins_view(cps@), |x: ChipPinV| x.name == cp@) == Some(i as int),
                    forall|q: int| 0 <= q < j ==> (#[trigger] cv[q]).function != f@,
                decreases caps.len() - j,
            {
                if chars_eq(caps[j].function.as_slice(), f) {
                    proof {
                        assert(cv[j as int].function == f@);
                        assert(chip_pins_view(cps@)[i as int].caps[j as int].function == f@);
                    }
                    return true;
                }
                j = j + 1;
            }
            false
        },
    }
}

fn board_id_in(bps: &Vec<BoardPin>, id: &[char]) -> (r: bool)
    ensures
        r == has_board_pin_id(board_pins_view(bps@), id@),
{
    board_pin_id_exists(bps, id)
}

fn conn_check(c: &Json, cps: &Vec<ChipPin>, bps: &Vec<BoardPin>) -> (r: Option<Vec<char>>)
    ensures
        opt_chars(r) == conn_problem(*c, chip_pins_view(cps@), board_pins_view(bps@)),
{
    let cp = match req_str(c, "chip_pin") {
        Ok(x) => x,
        Err(e) => return Some(e),
    };
    if !chip_pin_exists(cps, cp.as_slice()) {
        let mut m = chars_of("META001: 板载设备连接引用不存在的 Chip pin ");
        append_chars(&mut m, cp.as_slice());
        return Some(m);
    }
    match opt_string(c, "function") {
        Some(f) => {
            if !chip_pin_function(cps, cp.as_slice(), f.as_slice()) {
                let mut m = join3("META001: 板载连接 ", cp.as_slice(), " 不支持 function ");
                append_chars(&mut m, f.as_slice());
                return Some(m);
            }
        },
        None => {},
    }
    match opt_string(c, "board_pin") {
        Some(b) => {
            if !board_id_in(bps, b.as_slice()) {
                let mut m = chars_of("META001: 板载设备连接引用不存在的 Board pin ");
                append_chars(&mut m, b.as_slice());
                return Some(m);
            }
        },
        None => {},
    }
    None
}

fn device_check(d: &Json, cps: &Vec<ChipPin>, bps: &Vec<BoardPin>) -> (r: Option<Vec<char>>)
    ensures
        opt_chars(r) == device_problem(*d, chip_pins_view(cps@), board_pins_view(bps@)),
{
    let ghost cv = chip_pins_view(cps@);
    let ghost bv = board_pins_view(bps@);
    let ghost f = |c: Json| conn_problem(c, cv, bv);
    match opt_array(d, "connections") {
        None => {
            proof {
                assert(opt_arr(*d, "connections"@) =~= Seq::<Json>::empty());
            }
            None
        },
        Some(cs) => {
            let mut k: usize = 0;
            proof {
                assert(cs@.take(0) =~= Seq::<Json>::empty());
            }
            while k < cs.len()
                invariant
                    k <= cs@.len(),
                    opt_arr(*d, "connections"@) == cs@,
                    cv == chip_pins_view(cps@),
                    bv == board_pins_view(bps@),
                    f == (|c: Json| conn_problem(c, cv, bv)),
                    first_some(cs@.take(k as int), f) is None,
                decreases cs.len() - k,
            {
                proof {
                    assert(cs@.take(k + 1).drop_last() =~= cs@.take(k as int));
                    assert(cs@.take(k + 1).last() == cs@[k as int]);
                }
                match conn_check(&cs[k], cps, bps) {
                    Some(e) => {
                        proof {
                            lemma_first_some_prefix(cs@, f, k + 1);
                        }
                        return Some(e);
                    },
                    None => {},
                }
                k = k + 1;
            }
            proof {
                assert(cs@.take(k as int) =~= cs@);
            }
            None
        },
    }
}

fn unique_id_list(v: &Json, key: &str) -> (r: Result<Vec<Vec<char>>, Vec<char>>)
    ensures
        match r {
            Ok(ids) => unique_ids(opt_arr(*v, key@), key@) == Ok::<Seq<Seq<char>>, Seq<char>>(strs_view(ids@)),
            Err(e) => unique_ids(opt_arr(*v, key@), key@) == Err::<Seq<Seq<char>>, Seq<char>>(e@),
        },
{
    let mut ids: Vec<Vec<char>> = Vec::new();
    match opt_array(v, key) {
        None => {
            proof {
                assert(strs_view(ids@) =~= Seq::<Seq<char>>::empty());
            }
            Ok(ids)
        },
        Some(items) => {
            let mut k: usize = 0;
            proof {
                assert(items@.take(0) =~= Seq::<Json>::empty());
                assert(strs_view(ids@) =~= Seq::<Seq<char>>::empty());
            }
            while k < items.len()
                invariant
                    k <= items@.len(),
                    opt_arr(*v, key@) == items@,
                    unique_ids(items@.take(k as int), key@) == Ok::<Seq<Seq<char>>, Seq<char>>(strs_view(ids@)),
                decreases items.len() - k,
            {
                proof {
                    assert(items@.take(k + 1).drop_last() =~= items@.take(k as int));
                    assert(items@.take(k + 1).last() == items@[k as int]);
                }
                let id = match req_str(&items[k], "id") {
                    Ok(x) => x,
                    Err(e) => {
                        proof {
                            lemma_unique_ids_err(items@, key@, k + 1);
                        }
                        return Err(e);
                    },
                };
                if has_str(&ids, id.as_slice()) {
                    proof {
                        lemma_unique_ids_err(items@, key@, k + 1);
                    }
                    let mut m = chars_of("META001: ");
                    append_str(&mut m, key);
                    append_str(&mut m, " 存在重复 ID ");
                    append_chars(&mut m, id.as_slice());
                    return Err(m);
                }
                let ghost before = ids@;
                ids.push(id);
                proof {
                    assert(strs_view(ids@) =~= strs_view(before).push(id@));
                }
                k = k + 1;
            }
            proof {
                assert(items@.take(k as int) =~= items@);
            }
            Ok(ids)
        },
    }
}

fn sub_string(o: Option<&Json>, key: &str) -> (r: Option<Vec<char>>)
    ensures
        opt_chars(r) == sub_str(match o {
            Some(x) => Some(*x),
            None => None,
        }, key@),
{
    match o {
        Some(x) => opt_string(x, key),
        None => None,
    }
}

fn memory_check(m: &Json, devices: &Vec<Vec<char>>, ps: &Vec<Peripheral>) -> (r: Option<Vec<char>>)
    ensures
        opt_chars(r) == memory_problem(*m, strs_view(devices@), periphs_view(ps@)),
{
    match sub_string(json_get(m, "interface"), "device") {
        Some(d) => {
            if !has_str(devices, d.as_slice()) {
                let mut msg = chars_of("META001: memory interface 引用不存在的板载设备 ");
                append_chars(&mut msg, d.as_slice());
                return Some(msg);
            }
        },
        None => {},
    }
    match sub_string(json_get(m, "interface"), "peripheral") {
        Some(p) => {
            let found = find_periph_id(ps, p.as_slice());
            proof {
                if found is None {
                    if exists|i: int| 0 <= i < periphs_view(ps@).len() && (#[trigger] periphs_view(ps@)[i]).id == p@ {
                        let i = choose|i: int| 0 <= i < periphs_view(ps@).len() && (#[trigger] periphs_view(ps@)[i]).id == p@;
                        lemma_exists_first(periphs_view(ps@), |x: PeriphV| x.id == p@, i);
                    }
                } else {
                    let i = found->0 as int;
                    assert(periphs_view(ps@)[i].id == p@);
                }
            }
            if found.is_none() {
                let mut msg = chars_of("META001: memory interface 引用不存在的芯片外设 ");
                append_chars(&mut msg, p.as_slice());
                return Some(msg);
            }
        },
        None => {},
    }
    None
}

fn memory_writable(ms: &Vec<Json>, storage: &[char]) -> (r: bool)
    ensures
        r == storage_writable(ms@, storage@),
{
    let ghost p = |m: Json| jstr(jget(m, "id"@)) == Some(storage@);
    let mut k: usize = 0;
    while k < ms.len()
        invariant
            k <= ms@.len(),
            p == (|m: Json| jstr(jget(m, "id"@)) == Some(storage@)),
            forall|j: int| 0 <= j < k ==> !p(#[trigger] ms@[j]),
        decreases ms.len() - k,
    {
        let id = opt_string(&ms[k], "id");
        let hit = match &id {
            Some(x) => chars_eq(x.as_slice(), storage),
            None => false,
        };
        if hit {
            proof {
                lemma_find_first(ms@, p, k as int);
            }
            return json_flag(json_get(&ms[k], "writable"));
        }
        k = k + 1;
    }
    proof {
        lemma_find_first(ms@, p, k as int);
    }
    false
}

/// Checks the board's devices, reservations, memories and artifact
/// targets (see [`board_problem`]).
fn validate_board_resources(board: &Json, ps: &Vec<Peripheral>, cps: &Vec<ChipPin>, bps: &Vec<BoardPin>) -> (r: Result<(), Vec<char>>)
    ensures
        match r {
            Ok(()) => board_problem(*board, periphs_view(ps@), chip_pins_view(cps@), board_pins_view(bps@)) is None,
            Err(e) => board_problem(*board, periphs_view(ps@), chip_pins_view(cps@), board_pins_view(bps@)) == Some(e@),
        },
{
    let ghost pv = periphs_view(ps@);
    let ghost cv = chip_pins_view(cps@);
    let ghost bv = board_pins_view(bps@);
    let ghost fd = |d: Json| device_problem(d, cv, bv);
    let empty: Vec<Json> = Vec::new();
    let ds = match opt_array(board, "onboard_devices") {
        Some(a) => a,
        None => &empty,
    };
    let mut k: usize = 0;
    proof {
        assert(ds@.take(0) =~= Seq::<Json>::empty());
    }
    while k < ds.len()
        invariant
            k <= ds@.len(),
            opt_arr(*board, "onboard_devices"@) == ds@,
            cv == chip_pins_view(cps@),
            bv == board_pins_view(bps@),
            fd == (|d: Json| device_problem(d, cv, bv)),
            first_some(ds@.take(k as int), fd) is None,
        decreases ds.len() - k,
    {
        proof {
            assert(ds@.take(k + 1).drop_last() =~= ds@.take(k as int));
            assert(ds@.take(k + 1).last() == ds@[k as int]);
        }
        match device_check(&ds[k], cps, bps) {
            Some(e) => {
                proof {
                    lemma_first_some_prefix(ds@, fd, k + 1);
                }
                return Err(e);
            },
            None => {},
        }
        k = k + 1;
    }
    proof {
        assert(ds@.take(k as int) =~= ds@);
        assert(first_some(opt_arr(*board, "onboard_devices"@), |d: Json| device_problem(d, chip_pins_view(cps@), board_pins_view(bps@))) is None);
    }
    let ghost fr = |r: Json| reserved_problem(r, cv);
    let rs = match opt_array(board, "reserved_pins") {
        Some(a) => a,
        None => &empty,
    };
    let mut k: usize = 0;
    proof {
        assert(rs@.take(0) =~= Seq::<Json>::empty());
    }
    while k < rs.len()
        invariant
            k <= rs@.len(),
            opt_arr(*board, "reserved_pins"@) == rs@,
            cv == chip_pins_view(cps@),
            fr == (|r: Json| reserved_problem(r, cv)),
            first_some(rs@.take(k as int), fr) is None,
            first_some(opt_arr(*board, "onboard_devices"@), |d: Json| device_problem(d, chip_pins_view(cps@), board_pins_view(bps@))) is None,
        decreases rs.len() - k,
    {
        proof {
            assert(rs@.take(k + 1).drop_last() =~= rs@.take(k as int));
            assert(rs@.take(k + 1).last() == rs@[k as int]);
        }
        let problem = match req_str(&rs[k], "chip_pin") {
            Err(e) => Some(e),
            Ok(cp) => if chip_pin_exists(cps, cp.as_slice()) {
                None
            } else {
                let mut m = chars_of("META001: reserved_pins 引用不存在的 Chip pin ");
                append_chars(&mut m, cp.as_slice());
                Some(m)
            },
        };
        match problem {
            Some(e) => {
                proof {
                    lemma_first_some_prefix(rs@, fr, k + 1);
                }
                return Err(e);
            },
            None => {},
        }
        k = k + 1;
    }
    proof {
        assert(rs@.take(k as int) =~= rs@);
        assert(first_some(opt_arr(*board, "reserved_pins"@), |r: Json| reserved_problem(r, chip_pins_view(cps@))) is None);
    }
    let devices = unique_id_list(board, "onboard_devices")?;
    let memories = unique_id_list(board, "memory_devices")?;
    let _targets = unique_id_list(board, "artifact_targets")?;
    let ms = match opt_array(board, "memory_devices") {
        Some(a) => a,
        None => &empty,
    };
    let ghost fm = |m: Json| memory_problem(m, strs_view(devices@), pv);
    let mut k: usize = 0;
    proof {
        assert(ms@.take(0) =~= Seq::<Json>::empty());
    }
    while k < ms.len()
        invariant
            k <= ms@.len(),
            opt_arr(*board, "memory_devices"@) == ms@,
            pv == periphs_view(ps@),
            fm == (|m: Json| memory_problem(m, strs_view(devices@), pv)),
            first_some(ms@.take(k as int), fm) is None,
            first_some(opt_arr(*board, "onboard_devices"@), |d: Json| device_problem(d, chip_pins_view(cps@), board_pins_view(bps@))) is None,
            first_some(opt_arr(*board, "reserved_pins"@), |r: Json| reserved_problem(r, chip_pins_view(cps@))) is None,
            unique_ids(opt_arr(*board, "onboard_devices"@), "onboard_devices"@) == Ok::<Seq<Seq<char>>, Seq<char>>(strs_view(devices@)),
            unique_ids(opt_arr(*board, "memory_devices"@), "memory_devices"@) == Ok::<Seq<Seq<char>>, Seq<char>>(strs_view(memories@)),
            unique_ids(opt_arr(*board, "artifact_targets"@), "artifact_targets"@) is Ok,
        decreases ms.len() - k,
    {
        proof {
            assert(ms@.take(k + 1).drop_last() =~= ms@.take(k as int));
            assert(ms@.take(k + 1).last() == ms@[k as int]);
        }
        match memory_check(&ms[k], &devices, ps) {
            Some(e) => {
                proof {
                    lemma_first_some_prefix(ms@, fm, k + 1);
                }
                return Err(e);
            },
            None => {},
        }
        k = k + 1;
    }
    proof {
        assert(ms@.take(k as int) =~= ms@);
        assert(first_some(opt_arr(*board, "memory_devices"@), |m: Json| memory_problem(m, strs_view(devices@), periphs_view(ps@))) is None);
    }
    let ts = match opt_array(board, "artifact_targets") {
        Some(a) => a,
        None => &empty,
    };
    let ghost mv = strs_view(memories@);
    let mut any_bytecode = false;
    let mut k: usize = 0;
    proof {
        assert(ts@.take(0) =~= Seq::<Json>::empty());
    }
    while k < ts.len()
        invariant
            k <= ts@.len(),
            opt_arr(*board, "artifact_targets"@) == ts@,
            opt_arr(*board, "memory_devices"@) == ms@,
            mv == strs_view(memories@),
            targets_check(ts@.take(k as int), mv, ms@) == Ok::<bool, Seq<char>>(any_bytecode),
            first_some(opt_arr(*board, "onboard_devices"@), |d: Json| device_problem(d, chip_pins_view(cps@), board_pins_view(bps@))) is None,
            first_some(opt_arr(*board, "reserved_pins"@), |r: Json| reserved_problem(r, chip_pins_view(cps@))) is None,
            unique_ids(opt_arr(*board, "onboard_devices"@), "onboard_devices"@) == Ok::<Seq<Seq<char>>, Seq<char>>(strs_view(devices@)),
            unique_ids(opt_arr(*board, "memory_devices"@), "memory_devices"@) == Ok::<Seq<Seq<char>>, Seq<char>>(mv),
            unique_ids(opt_arr(*board, "artifact_targets"@), "artifact_targets"@) is Ok,
            first_some(opt_arr(*board, "memory_devices"@), |m: Json| memory_problem(m, strs_view(devices@), periphs_view(ps@))) is None,
        decreases ts.len() - k,
    {
        proof {
            assert(ts@.take(k + 1).drop_last() =~= ts@.take(k as int));
            assert(ts@.take(k + 1).last() == ts@[k as int]);
        }
        let t = &ts[k];
        let st = match req_str(t, "storage") {
            Ok(x) => x,
            Err(e) => {
                proof {
                    lemma_targets_err(ts@, mv, ms@, k + 1);
                }
                return Err(e);
            },
        };
        if !has_str(&memories, st.as_slice()) {
            proof {
                lemma_targets_err(ts@, mv, ms@, k + 1);
            }
            let mut m = chars_of("META001: artifact target 引用不存在的存储 ");
            append_chars(&mut m, st.as_slice());
            return Err(m);
        }
        if !memory_writable(ms, st.as_slice()) {
            proof {
                lemma_targets_err(ts@, mv, ms@, k + 1);
            }
            let mut m = chars_of("STORE001: artifact target 指向只读存储 ");
            append_chars(&mut m, st.as_slice());
            return Err(m);
        }
        let kind = match req_str(t, "kind") {
            Ok(x) => x,
            Err(e) => {
                proof {
                    lemma_targets_err(ts@, mv, ms@, k + 1);
                }
                return Err(e);
            },
        };
        any_bytecode = any_bytecode || word_is(kind.as_slice(), "lua_bytecode");
        k = k + 1;
    }
    proof {
        assert(ts@.take(k as int) =~= ts@);
    }
    if !any_bytecode {
        return Err(chars_of("STORE001: Board 未定义 lua_bytecode artifact target"));
    }
    Ok(())
}

/// The built-in type names, in order.
pub open spec fn builtin_types() -> Seq<Seq<char>> {
    seq!["nil"@, "boolean"@, "integer"@, "number"@, "string"@, "table"@, "function"@, "userdata"@, "thread"@, "any"@]
}

/// `known` followed by the ids of the type definitions `items`, or the
/// first missing or repeated id.
pub open spec fn declared_ids(items: Seq<Json>, known: Seq<Seq<char>>) -> Result<Seq<Seq<char>>, Seq<char>>
    decreases items.len(),
{
    if items.len() == 0 {
        Ok(known)
    } else {
        match declared_ids(items.drop_last(), known) {
            Err(e) => Err(e),
            Ok(ids) => match jstr(jget(items.last(), "id"@)) {
                None => Err(msg_str("id"@)),
                Some(id) => if ids.contains(id) {
                    Err("META001: API 存在重复类型 ID "@ + id)
                } else {
                    Ok(ids.push(id))
                },
            },
        }
    }
}

/// Every type name the API may use: built-in, declared types, enums.
pub open spec fn type_ids(api: Json) -> Result<Seq<Seq<char>>, Seq<char>> {
    match jarr(jget(api, "types"@)) {
        None => Err(msg_arr("types"@)),
        Some(ts) => match declared_ids(ts, builtin_types()) {
            Err(e) => Err(e),
            Ok(k1) => match jarr(jget(api, "enums"@)) {
                None => Err(msg_arr("enums"@)),
                Some(es) => declared_ids(es, k1),
            },
        },
    }
}

pub open spec fn param_type_problem(p: Json, types: Seq<Seq<char>>) -> Option<Seq<char>> {
    match jstr(jget(p, "type"@)) {
        None => Some(msg_str("type"@)),
        Some(t) => if types.contains(t) {
            None
        } else {
            Some("META001: API 参数引用未知类型 "@ + t)
        },
    }
}

pub open spec fn return_type_problem(r: Json, types: Seq<Seq<char>>) -> Option<Seq<char>> {
    match jstr(jget(r, "type"@)) {
        None => Some(msg_str("type"@)),
        Some(t) => if types.contains(t) {
            None
        } else {
            Some("META001: API 返回值引用未知类型 "@ + t)
        },
    }
}

pub open spec fn overload_type_problem(ov: Json, types: Seq<Seq<char>>) -> Option<Seq<char>> {
    match jarr(jget(ov, "params"@)) {
        None => Some(msg_arr("params"@)),
        Some(ps) => match first_some(ps, |p: Json| param_type_problem(p, types)) {
            Some(e) => Some(e),
            None => match jarr(jget(ov, "returns"@)) {
                None => Some(msg_arr("returns"@)),
                Some(rs) => first_some(rs, |r: Json| return_type_problem(r, types)),
            },
        },
    }
}

pub open spec fn function_type_problem(f: Json, types: Seq<Seq<char>>) -> Option<Seq<char>> {
    match jarr(jget(f, "overloads"@)) {
        None => Some(msg_arr("overloads"@)),
        Some(ovs) => first_some(ovs, |ov: Json| overload_type_problem(ov, types)),
    }
}

/// The first unknown or repeated type in the API: declared ids, then every
/// parameter and return type of the global functions and then of each
/// module's functions.
pub open spec fn api_type_problem(api: Json) -> Option<Seq<char>> {
    match type_ids(api) {
        Err(e) => Some(e),
        Ok(types) => match jarr(jget(api, "globals"@)) {
            None => Some(msg_arr("globals"@)),
            Some(gs) => match jarr(jget(api, "modules"@)) {
                None => Some(msg_arr("modules"@)),
                Some(ms) => match first_some(gs, |f: Json| function_type_problem(f, types)) {
                    Some(e) => Some(e),
                    None => first_some(
                        ms,
                        |m: Json| first_some(opt_arr(m, "functions"@), |f: Json| function_type_problem(f, types)),
                    ),
                },
            },
        },
    }
}

proof fn lemma_declared_ids_err(items: Seq<Json>, known: Seq<Seq<char>>, k: int)
    requires
        0 <= k <= items.len(),
        declared_ids(items.take(k), known) is Err,
    ensures
        declared_ids(items, known) == declared_ids(items.take(k), known),
    decreases items.len() - k,
{
    if k < items.len() {
        assert(items.take(k + 1).drop_last() =~= items.take(k));
        lemma_declared_ids_err(items, known, k + 1);
    } else {
        assert(items.take(k) =~= items);
    }
}

fn collect_declared(items: &Vec<Json>, known: Vec<Vec<char>>) -> (r: Result<Vec<Vec<char>>, Vec<char>>)
    ensures
        match r {
            Ok(v) => declared_ids(items@, strs_view(known@)) == Ok::<Seq<Seq<char>>, Seq<char>>(strs_view(v@)),
            Err(e) => declared_ids(items@, strs_view(known@)) == Err::<Seq<Seq<char>>, Seq<char>>(e@),
        },
{
    let ghost k0 = strs_view(known@);
    let mut ids = known;
    let mut k: usize = 0;
    proof {
        assert(items@.take(0) =~= Seq::<Json>::empty());
    }
    while k < items.len()
        invariant
            k <= items@.len(),
            k0 == strs_view(known@),
            declared_ids(items@.take(k as int), k0) == Ok::<Seq<Seq<char>>, Seq<char>>(strs_view(ids@)),
        decreases items.len() - k,
    {
        proof {
            assert(items@.take(k + 1).drop_last() =~= items@.take(k as int));
            assert(items@.take(k + 1).last() == items@[k as int]);
        }
        let id = match req_str(&items[k], "id") {
            Ok(x) => x,
            Err(e) => {
                proof {
                    lemma_declared_ids_err(items@, k0, k + 1);
                }
                return Err(e);
            },
        };
        if has_str(&ids, id.as_slice()) {
            proof {
                lemma_declared_ids_err(items@, k0, k + 1);
            }
            let mut m = chars_of("META001: API 存在重复类型 ID ");
            append_chars(&mut m, id.as_slice());
            return Err(m);
        }
        let ghost before = ids@;
        ids.push(id);
        proof {
            assert(strs_view(ids@) =~= strs_view(before).push(id@));
        }
        k = k + 1;
    }
    proof {
        assert(items@.take(k as int) =~= items@);
    }
    Ok(ids)
}

fn builtin_list() -> (r: Vec<Vec<char>>)
    ensures
        strs_view(r@) == builtin_types(),
{
    let mut v: Vec<Vec<char>> = Vec::new();
    v.push(chars_of("nil"));
    v.push(chars_of("boolean"));
    v.push(chars_of("integer"));
    v.push(chars_of("number"));
    v.push(chars_of("string"));
    v.push(chars_of("table"));
    v.push(chars_of("function"));
    v.push(chars_of("userdata"));
    v.push(chars_of("thread"));
    v.push(chars_of("any"));
    proof {
        assert(strs_view(v@) =~= builtin_types());
    }
    v
}

fn type_check_list(items: &Vec<Json>, types: &Vec<Vec<char>>, is_param: bool) -> (r: Option<Vec<char>>)
    ensures
        is_param ==> opt_chars(r) == first_some(items@, |p: Json| param_type_problem(p, strs_view(types@))),
        !is_param ==> opt_chars(r) == first_some(items@, |p: Json| return_type_problem(p, strs_view(types@))),
{
    let ghost tv = strs_view(types@);
    let ghost f = if is_param {
        |p: Json| param_type_problem(p, tv)
    } else {
        |p: Json| return_type_problem(p, tv)
    };
    let mut k: usize = 0;
    proof {
        assert(items@.take(0) =~= Seq::<Json>::empty());
    }
    while k < items.len()
        invariant
            k <= items@.len(),
            tv == strs_view(types@),
            f == (if is_param {
                |p: Json| param_type_problem(p, tv)
            } else {
                |p: Json| return_type_problem(p, tv)
            }),
            first_some(items@.take(k as int), f) is None,
        decreases items.len() - k,
    {
        proof {
            assert(items@.take(k + 1).drop_last() =~= items@.take(k as int));
            assert(items@.take(k + 1).last() == items@[k as int]);
        }
        let problem = match req_str(&items[k], "type") {
            Err(e) => Some(e),
            Ok(t) => if has_str(types, t.as_slice()) {
                None
            } else {
                let mut m = if is_param {
                    chars_of("META001: API 参数引用未知类型 ")
                } else {
                    chars_of("META001: API 返回值引用未知类型 ")
                };
                append_chars(&mut m, t.as_slice());
                Some(m)
            },
        };
        match problem {
            Some(e) => {
                proof {
                    lemma_first_some_prefix(items@, f, k + 1);
                }
                return Some(e);
            },
            None => {},
        }
        k = k + 1;
    }
    proof {
        assert(items@.take(k as int) =~= items@);
    }
    None
}

fn function_type_check(fv: &Json, types: &Vec<Vec<char>>) -> (r: Option<Vec<char>>)
    ensures
        opt_chars(r) == function_type_problem(*fv, strs_view(types@)),
{
    let ghost tv = strs_view(types@);
    let ovs = match req_arr(fv, "overloads") {
        Ok(x) => x,
        Err(e) => return Some(e),
    };
    let ghost g = |ov: Json| overload_type_problem(ov, tv);
    let mut k: usize = 0;
    proof {
        assert(ovs@.take(0) =~= Seq::<Json>::empty());
    }
    while k < ovs.len()
        invariant
            k <= ovs@.len(),
            tv == strs_view(types@),
            jarr(jget(*fv, "overloads"@)) == Some(ovs@),
            g == (|ov: Json| overload_type_problem(ov, tv)),
            first_some(ovs@.take(k as int), g) is None,
        decreases ovs.len() - k,
    {
        proof {
            assert(ovs@.take(k + 1).drop_last() =~= ovs@.take(k as int));
            assert(ovs@.take(k + 1).last() == ovs@[k as int]);
        }
        let ov = &ovs[k];
        let problem = match req_arr(ov, "params") {
            Err(e) => Some(e),
            Ok(ps) => match type_check_list(ps, types, true) {
                Some(e) => Some(e),
                None => match req_arr(ov, "returns") {
                    Err(e) => Some(e),
                    Ok(rs) => type_check_list(rs, types, false),
                },
            },
        };
        proof {
            assert(opt_chars(problem) == g(ovs@[k as int]));
        }
        match problem {
            Some(e) => {
                proof {
                    lemma_first_some_prefix(ovs@, g, k + 1);
                }
                return Some(e);
            },
            None => {},
        }
        k = k + 1;
    }
    proof {
        assert(ovs@.take(k as int) =~= ovs@);
    }
    None
}

fn functions_type_check(fs: &Vec<Json>, types: &Vec<Vec<char>>) -> (r: Option<Vec<char>>)
    ensures
        opt_chars(r) == first_some(fs@, |f: Json| function_type_problem(f, strs_view(types@))),
{
    let ghost tv = strs_view(types@);
    let ghost g = |f: Json| function_type_problem(f, tv);
    let mut k: usize = 0;
    proof {
        assert(fs@.take(0) =~= Seq::<Json>::empty());
    }
    while k < fs.len()
        invariant
            k <= fs@.len(),
            tv == strs_view(types@),
            g == (|f: Json| function_type_problem(f, tv)),
            first_some(fs@.take(k as int), g) is None,
        decreases fs.len() - k,
    {
        proof {
            assert(fs@.take(k + 1).drop_last() =~= fs@.take(k as int));
            assert(fs@.take(k + 1).last() == fs@[k as int]);
        }
        match function_type_check(&fs[k], types) {
            Some(e) => {
                proof {
                    lemma_first_some_prefix(fs@, g, k + 1);
                }
                return Some(e);
            },
            None => {},
        }
        k = k + 1;
    }
    proof {
        assert(fs@.take(k as int) =~= fs@);
    }
    None
}

/// Checks that every type the API names is built in or declared once (see
/// [`api_type_problem`]).
pub fn validate_api_type_references(api: &Json) -> (r: Result<(), String>)
    ensures
        match r {
            Ok(()) => api_type_problem(*api) is None,
            Err(e) => api_type_problem(*api) == Some(e@),
        },
{
    match api_type_check(api) {
        None => Ok(()),
        Some(e) => Err(string_from(e.as_slice())),
    }
}

fn api_type_check(api: &Json) -> (r: Option<Vec<char>>)
    ensures
        opt_chars(r) == api_type_problem(*api),
{
    let ts = match req_arr(api, "types") {
        Ok(x) => x,
        Err(e) => return Some(e),
    };
    let k1 = match collect_declared(ts, builtin_list()) {
        Ok(x) => x,
        Err(e) => return Some(e),
    };
    let es = match req_arr(api, "enums") {
        Ok(x) => x,
        Err(e) => return Some(e),
    };
    let types = match collect_declared(es, k1) {
        Ok(x) => x,
        Err(e) => return Some(e),
    };
    let ghost tv = strs_view(types@);
    let gs = match req_arr(api, "globals") {
        Ok(x) => x,
        Err(e) => return Some(e),
    };
    let ms = match req_arr(api, "modules") {
        Ok(x) => x,
        Err(e) => return Some(e),
    };
    match functions_type_check(gs, &types) {
        Some(e) => return Some(e),
        None => {},
    }
    let ghost g = |m: Json| first_some(opt_arr(m, "functions"@), |f: Json| function_type_problem(f, tv));
    let mut k: usize = 0;
    proof {
        assert(ms@.take(0) =~= Seq::<Json>::empty());
    }
    while k < ms.len()
        invariant
            k <= ms@.len(),
            tv == strs_view(types@),
            type_ids(*api) == Ok::<Seq<Seq<char>>, Seq<char>>(tv),
            jarr(jget(*api, "globals"@)) == Some(gs@),
            jarr(jget(*api, "modules"@)) == Some(ms@),
            first_some(gs@, |f: Json| function_type_problem(f, tv)) is None,
            g == (|m: Json| first_some(opt_arr(m, "functions"@), |f: Json| function_type_problem(f, tv))),
            first_some(ms@.take(k as int), g) is None,
        decreases ms.len() - k,
    {
        proof {
            assert(ms@.take(k + 1).drop_last() =~= ms@.take(k as int));
            assert(ms@.take(k + 1).last() == ms@[k as int]);
        }
        let problem = match opt_array(&ms[k], "functions") {
            Some(fs) => functions_type_check(fs, &types),
            None => {
                proof {
                    assert(first_some(opt_arr(ms@[k as int], "functions"@), |f: Json| function_type_problem(f, tv)) is None);
                }
                None
            },
        };
        proof {
            assert(opt_chars(problem) == g(ms@[k as int]));
        }
        match problem {
            Some(e) => {
                proof {
                    lemma_first_some_prefix(ms@, g, k + 1);
                }
                return Some(e);
            },
            None => {},
        }
        k = k + 1;
    }
    proof {
        assert(ms@.take(k as int) =~= ms@);
    }
    None
}

/// The parameters of an overload of `fname`, or the first problem.
pub open spec fn json_params(fname: Seq<char>, ps: Seq<Json>) -> Result<Seq<ParamV>, Seq<char>>
    decreases ps.len(),
{
    if ps.len() == 0 {
        Ok(Seq::empty())
    } else {
        match json_params(fname, ps.drop_last()) {
            Err(e) => Err(e),
            Ok(v) => {
                let p = ps.last();
                match jstr(jget(p, "name"@)) {
                    None => Err(msg_str("name"@)),
                    Some(name) => if exists|i: int| 0 <= i < v.len() && (#[trigger] v[i]).name == name {
                        Err("META001: 函数 "@ + fname + " 存在重复参数 "@ + name)
                    } else {
                        match jstr(jget(p, "type"@)) {
                            None => Err(msg_str("type"@)),
                            Some(ty) => {
                                let optional = jflag(jget(p, "optional"@));
                                let variadic = jflag(jget(p, "variadic"@));
                                match jget(p, "resource"@) {
                                    None => Ok(v.push(ParamV { name, ty, optional, variadic, resource: None })),
                                    Some(r) => match resource_of(r) {
                                        Err(e) => Err(e),
                                        Ok(res) => Ok(v.push(ParamV { name, ty, optional, variadic, resource: Some(res) })),
                                    },
                                }
                            },
                        }
                    },
                }
            },
        }
    }
}

/// The overloads of `fname` (and their ids), or the first problem.
pub open spec fn json_overloads(fname: Seq<char>, ovs: Seq<Json>) -> Result<(Seq<Seq<ParamV>>, Seq<Seq<char>>), Seq<char>>
    decreases ovs.len(),
{
    if ovs.len() == 0 {
        Ok((Seq::empty(), Seq::empty()))
    } else {
        match json_overloads(fname, ovs.drop_last()) {
            Err(e) => Err(e),
            Ok(st) => {
                let ov = ovs.last();
                match jstr(jget(ov, "id"@)) {
                    None => Err(msg_str("id"@)),
                    Some(oid) => if st.1.contains(oid) {
                        Err("META001: 函数 "@ + fname + " 存在重复 overload ID "@ + oid)
                    } else {
                        match jarr(jget(ov, "params"@)) {
                            None => Err(msg_arr("params"@)),
                            Some(ps) => match json_params(fname, ps) {
                                Err(e) => Err(e),
                                Ok(pv) => Ok((st.0.push(pv), st.1.push(oid))),
                            },
                        }
                    },
                }
            },
        }
    }
}

/// An API function object.
pub open spec fn json_function(v: Json) -> Result<FunctionV, Seq<char>> {
    match jstr(jget(v, "name"@)) {
        None => Err(msg_str("name"@)),
        Some(name) => match jarr(jget(v, "overloads"@)) {
            None => Err(msg_arr("overloads"@)),
            Some(ovs) => match json_overloads(name, ovs) {
                Err(e) => Err(e),
                Ok(st) => Ok(FunctionV {
                    name,
                    description: match jstr(jget(v, "description"@)) {
                        Some(d) => d,
                        None => "firmware API"@,
                    },
                    overloads: st.0,
                }),
            },
        },
    }
}

/// A list of API function objects; a repeated name gives `dup`.
pub open spec fn json_functions(fs: Seq<Json>, dup: Seq<char>) -> Result<Seq<FunctionV>, Seq<char>>
    decreases fs.len(),
{
    if fs.len() == 0 {
        Ok(Seq::empty())
    } else {
        match json_functions(fs.drop_last(), dup) {
            Err(e) => Err(e),
            Ok(v) => match json_function(fs.last()) {
                Err(e) => Err(e),
                Ok(x) => if exists|i: int| 0 <= i < v.len() && (#[trigger] v[i]).name == x.name {
                    Err(dup)
                } else {
                    Ok(v.push(x))
                },
            },
        }
    }
}

/// An API module object.
pub open spec fn json_module(m: Json) -> Result<ModuleV, Seq<char>> {
    match jstr(jget(m, "name"@)) {
        None => Err(msg_str("name"@)),
        Some(name) => match jarr(jget(m, "functions"@)) {
            None => Err(msg_arr("functions"@)),
            Some(fs) => match json_functions(fs, "META001: 模块 "@ + name + " 存在重复函数"@) {
                Err(e) => Err(e),
                Ok(v) => Ok(ModuleV {
                    name,
                    description: match jstr(jget(m, "description"@)) {
                        Some(d) => d,
                        None => "module"@,
                    },
                    functions: v,
                }),
            },
        },
    }
}

pub open spec fn json_modules(ms: Seq<Json>) -> Result<Seq<ModuleV>, Seq<char>>
    decreases ms.len(),
{
    if ms.len() == 0 {
        Ok(Seq::empty())
    } else {
        match json_modules(ms.drop_last()) {
            Err(e) => Err(e),
            Ok(v) => match json_module(ms.last()) {
                Err(e) => Err(e),
                Ok(x) => if exists|i: int| 0 <= i < v.len() && (#[trigger] v[i]).name == x.name {
                    Err("META001: API 存在重复模块"@)
                } else {
                    Ok(v.push(x))
                },
            },
        }
    }
}

/// The API's global functions and modules.
pub open spec fn api_parts(api: Json) -> Result<(Seq<FunctionV>, Seq<ModuleV>), Seq<char>> {
    match jarr(jget(api, "globals"@)) {
        None => Err(msg_arr("globals"@)),
        Some(gs) => match json_functions(gs, "META001: API 存在重复全局函数"@) {
            Err(e) => Err(e),
            Ok(g) => match jarr(jget(api, "modules"@)) {
                None => Err(msg_arr("modules"@)),
                Some(ms) => match json_modules(ms) {
                    Err(e) => Err(e),
                    Ok(m) => Ok((g, m)),
                },
            },
        },
    }
}

proof fn lemma_json_params_err(fname: Seq<char>, ps: Seq<Json>, k: int)
    requires
        0 <= k <= ps.len(),
        json_params(fname, ps.take(k)) is Err,
    ensures
        json_params(fname, ps) == json_params(fname, ps.take(k)),
    decreases ps.len() - k,
{
    if k < ps.len() {
        assert(ps.take(k + 1).drop_last() =~= ps.take(k));
        lemma_json_params_err(fname, ps, k + 1);
    } else {
        assert(ps.take(k) =~= ps);
    }
}

proof fn lemma_json_overloads_err(fname: Seq<char>, ovs: Seq<Json>, k: int)
    requires
        0 <= k <= ovs.len(),
        json_overloads(fname, ovs.take(k)) is Err,
    ensures
        json_overloads(fname, ovs) == json_overloads(fname, ovs.take(k)),
    decreases ovs.len() - k,
{
    if k < ovs.len() {
        assert(ovs.take(k + 1).drop_last() =~= ovs.take(k));
        lemma_json_overloads_err(fname, ovs, k + 1);
    } else {
        assert(ovs.take(k) =~= ovs);
    }
}

proof fn lemma_json_functions_err(fs: Seq<Json>, dup: Seq<char>, k: int)
    requires
        0 <= k <= fs.len(),
        json_functions(fs.take(k), dup) is Err,
    ensures
        json_functions(fs, dup) == json_functions(fs.take(k), dup),
    decreases fs.len() - k,
{
    if k < fs.len() {
        assert(fs.take(k + 1).drop_last() =~= fs.take(k));
        lemma_json_functions_err(fs, dup, k + 1);
    } else {
        assert(fs.take(k) =~= fs);
    }
}

proof fn lemma_json_modules_err(ms: Seq<Json>, k: int)
    requires
        0 <= k <= ms.len(),
        json_modules(ms.take(k)) is Err,
    ensures
        json_modules(ms) == json_modules(ms.take(k)),
    decreases ms.len() - k,
{
    if k < ms.len() {
        assert(ms.take(k + 1).drop_last() =~= ms.take(k));
        lemma_json_modules_err(ms, k + 1);
    } else {
        assert(ms.take(k) =~= ms);
    }
}

fn param_name_exists(v: &Vec<ApiParam>, name: &[char]) -> (r: bool)
    ensures
        r == exists|i: int| 0 <= i < params_view(v@).len() && (#[trigger] params_view(v@)[i]).name == name@,
{
    let mut k: usize = 0;
    while k < v.len()
        invariant
            k <= v@.len(),
            params_view(v@).len() == v@.len(),
            forall|j: int| 0 <= j < k ==> (#[trigger] params_view(v@)[j]).name != name@,
        decreases v.len() - k,
    {
        proof {
            assert(params_view(v@)[k as int].name == v@[k as int].name@);
        }
        if chars_eq(v[k].name.as_slice(), name) {
            return true;
        }
        k = k + 1;
    }
    false
}

fn parse_params(fname: &[char], ps: &Vec<Json>) -> (r: Result<Vec<ApiParam>, Vec<char>>)
    ensures
        match r {
            Ok(v) => json_params(fname@, ps@) == Ok::<Seq<ParamV>, Seq<char>>(params_view(v@)),
            Err(e) => json_params(fname@, ps@) == Err::<Seq<ParamV>, Seq<char>>(e@),
        },
{
    let mut out: Vec<ApiParam> = Vec::new();
    let mut k: usize = 0;
    proof {
        assert(ps@.take(0) =~= Seq::<Json>::empty());
        assert(params_view(out@) =~= Seq::<ParamV>::empty());
    }
    while k < ps.len()
        invariant
            k <= ps@.len(),
            json_params(fname@, ps@.take(k as int)) == Ok::<Seq<ParamV>, Seq<char>>(params_view(out@)),
        decreases ps.len() - k,
    {
        proof {
            assert(ps@.take(k + 1).drop_last() =~= ps@.take(k as int));
            assert(ps@.take(k + 1).last() == ps@[k as int]);
        }
        let p = &ps[k];
        let name = match req_str(p, "name") {
            Ok(x) => x,
            Err(e) => {
                proof {
                    lemma_json_params_err(fname@, ps@, k + 1);
                }
                return Err(e);
            },
        };
        if param_name_exists(&out, name.as_slice()) {
            proof {
                lemma_json_params_err(fname@, ps@, k + 1);
            }
            let mut m = join3("META001: 函数 ", fname, " 存在重复参数 ");
            append_chars(&mut m, name.as_slice());
            return Err(m);
        }
        let ty = match req_str(p, "type") {
            Ok(x) => x,
            Err(e) => {
                proof {
                    lemma_json_params_err(fname@, ps@, k + 1);
                }
                return Err(e);
            },
        };
        let optional = json_flag(json_get(p, "optional"));
        let variadic = json_flag(json_get(p, "variadic"));
        let resource = match json_get(p, "resource") {
            None => None,
            Some(rv) => match parse_resource(rv) {
                Ok(x) => Some(x),
                Err(e) => {
                    proof {
                        lemma_json_params_err(fname@, ps@, k + 1);
                    }
                    return Err(e);
                },
            },
        };
        let x = ApiParam { name, ty, optional, variadic, resource };
        let ghost before = out@;
        out.push(x);
        proof {
            assert(params_view(out@) =~= params_view(before).push(param_view(x)));
        }
        k = k + 1;
    }
    proof {
        assert(ps@.take(k as int) =~= ps@);
    }
    Ok(out)
}

/// An API function object (see [`json_function`]).
fn parse_function(v: &Json) -> (r: Result<ApiFunction, Vec<char>>)
    ensures
        match r {
            Ok(f) => json_function(*v) == Ok::<FunctionV, Seq<char>>(function_view(f)),
            Err(e) => json_function(*v) == Err::<FunctionV, Seq<char>>(e@),
        },
{
    let name = req_str(v, "name")?;
    let ovs = req_arr(v, "overloads")?;
    let mut overloads: Vec<ApiOverload> = Vec::new();
    let mut ids: Vec<Vec<char>> = Vec::new();
    let mut k: usize = 0;
    proof {
        assert(ovs@.take(0) =~= Seq::<Json>::empty());
        assert(overloads_view(overloads@) =~= Seq::<Seq<ParamV>>::empty());
        assert(strs_view(ids@) =~= Seq::<Seq<char>>::empty());
    }
    while k < ovs.len()
        invariant
            k <= ovs@.len(),
            jstr(jget(*v, "name"@)) == Some(name@),
            jarr(jget(*v, "overloads"@)) == Some(ovs@),
            json_overloads(name@, ovs@.take(k as int)) == Ok::<(Seq<Seq<ParamV>>, Seq<Seq<char>>), Seq<char>>(
                (overloads_view(overloads@), strs_view(ids@)),
            ),
        decreases ovs.len() - k,
    {
        proof {
            assert(ovs@.take(k + 1).drop_last() =~= ovs@.take(k as int));
            assert(ovs@.take(k + 1).last() == ovs@[k as int]);
        }
        let ov = &ovs[k];
        let oid = match req_str(ov, "id") {
            Ok(x) => x,
            Err(e) => {
                proof {
                    lemma_json_overloads_err(name@, ovs@, k + 1);
                }
                return Err(e);
            },
        };
        if has_str(&ids, oid.as_slice()) {
            proof {
                lemma_json_overloads_err(name@, ovs@, k + 1);
            }
            let mut m = join3("META001: 函数 ", name.as_slice(), " 存在重复 overload ID ");
            append_chars(&mut m, oid.as_slice());
            return Err(m);
        }
        let ps = match req_arr(ov, "params") {
            Ok(x) => x,
            Err(e) => {
                proof {
                    lemma_json_overloads_err(name@, ovs@, k + 1);
                }
                return Err(e);
            },
        };
        let params = match parse_params(name.as_slice(), ps) {
            Ok(x) => x,
            Err(e) => {
                proof {
                    lemma_json_overloads_err(name@, ovs@, k + 1);
                }
                return Err(e);
            },
        };
        let x = ApiOverload { params };
        let ghost before = overloads@;
        let ghost before_ids = ids@;
        overloads.push(x);
        ids.push(oid);
        proof {
            assert(overloads_view(overloads@) =~= overloads_view(before).push(params_view(x.params@)));
            assert(strs_view(ids@) =~= strs_view(before_ids).push(oid@));
        }
        k = k + 1;
    }
    proof {
        assert(ovs@.take(k as int) =~= ovs@);
    }
    let description = match opt_string(v, "description") {
        Some(d) => d,
        None => chars_of("firmware API"),
    };
    Ok(ApiFunction { name, description, overloads })
}

fn function_name_exists(v: &Vec<ApiFunction>, name: &[char]) -> (r: bool)
    ensures
        r == exists|i: int| 0 <= i < functions_view(v@).len() && (#[trigger] functions_view(v@)[i]).name == name@,
{
    let mut k: usize = 0;
    while k < v.len()
        invariant
            k <= v@.len(),
            functions_view(v@).len() == v@.len(),
            forall|j: int| 0 <= j < k ==> (#[trigger] functions_view(v@)[j]).name != name@,
        decreases v.len() - k,
    {
        proof {
            assert(functions_view(v@)[k as int].name == v@[k as int].name@);
        }
        if chars_eq(v[k].name.as_slice(), name) {
            return true;
        }
        k = k + 1;
    }
    false
}

fn parse_functions(fs: &Vec<Json>, dup: &[char]) -> (r: Result<Vec<ApiFunction>, Vec<char>>)
    ensures
        match r {
            Ok(v) => json_functions(fs@, dup@) == Ok::<Seq<FunctionV>, Seq<char>>(functions_view(v@)),
            Err(e) => json_functions(fs@, dup@) == Err::<Seq<FunctionV>, Seq<char>>(e@),
        },
{
    let mut out: Vec<ApiFunction> = Vec::new();
    let mut k: usize = 0;
    proof {
        assert(fs@.take(0) =~= Seq::<Json>::empty());
        assert(functions_view(out@) =~= Seq::<FunctionV>::empty());
    }
    while k < fs.len()
        invariant
            k <= fs@.len(),
            json_functions(fs@.take(k as int), dup@) == Ok::<Seq<FunctionV>, Seq<char>>(functions_view(out@)),
        decreases fs.len() - k,
    {
        proof {
            assert(fs@.take(k + 1).drop_last() =~= fs@.take(k as int));
            assert(fs@.take(k + 1).last() == fs@[k as int]);
        }
        let x = match parse_function(&fs[k]) {
            Ok(x) => x,
            Err(e) => {
                proof {
                    lemma_json_functions_err(fs@, dup@, k + 1);
                }
                return Err(e);
            },
        };
        if function_name_exists(&out, x.name.as_slice()) {
            proof {
                lemma_json_functions_err(fs@, dup@, k + 1);
            }
            return Err(clone_slice(dup));
        }
        let ghost before = out@;
        out.push(x);
        proof {
            assert(functions_view(out@) =~= functions_view(before).push(function_view(x)));
        }
        k = k + 1;
    }
    proof {
        assert(fs@.take(k as int) =~= fs@);
    }
    Ok(out)
}

/// The API's global functions and modules (see [`api_parts`]).
fn parse_api(api: &Json) -> (r: Result<(Vec<ApiFunction>, Vec<ApiModule>), Vec<char>>)
    ensures
        match r {
            Ok(p) => api_parts(*api) == Ok::<(Seq<FunctionV>, Seq<ModuleV>), Seq<char>>((functions_view(p.0@), modules_view(p.1@))),
            Err(e) => api_parts(*api) == Err::<(Seq<FunctionV>, Seq<ModuleV>), Seq<char>>(e@),
        },
{
    let gs = req_arr(api, "globals")?;
    let dup = chars_of("META001: API 存在重复全局函数");
    let globals = parse_functions(gs, dup.as_slice())?;
    let ms = req_arr(api, "modules")?;
    let mut modules: Vec<ApiModule> = Vec::new();
    let mut k: usize = 0;
    proof {
        assert(ms@.take(0) =~= Seq::<Json>::empty());
        assert(modules_view(modules@) =~= Seq::<ModuleV>::empty());
    }
    while k < ms.len()
        invariant
            k <= ms@.len(),
            jarr(jget(*api, "globals"@)) == Some(gs@),
            json_functions(gs@, "META001: API 存在重复全局函数"@) == Ok::<Seq<FunctionV>, Seq<char>>(functions_view(globals@)),
            jarr(jget(*api, "modules"@)) == Some(ms@),
            json_modules(ms@.take(k as int)) == Ok::<Seq<ModuleV>, Seq<char>>(modules_view(modules@)),
        decreases ms.len() - k,
    {
        proof {
            assert(ms@.take(k + 1).drop_last() =~= ms@.take(k as int));
            assert(ms@.take(k + 1).last() == ms@[k as int]);
        }
        let m = &ms[k];
        let name = match req_str(m, "name") {
            Ok(x) => x,
            Err(e) => {
                proof {
                    lemma_json_modules_err(ms@, k + 1);
                }
                return Err(e);
            },
        };
        let fs = match req_arr(m, "functions") {
            Ok(x) => x,
            Err(e) => {
                proof {
                    lemma_json_modules_err(ms@, k + 1);
                }
                return Err(e);
            },
        };
        let mdup = join3("META001: 模块 ", name.as_slice(), " 存在重复函数");
        let functions = match parse_functions(fs, mdup.as_slice()) {
            Ok(x) => x,
            Err(e) => {
                proof {
                    lemma_json_modules_err(ms@, k + 1);
                }
                return Err(e);
            },
        };
        let description = match opt_string(m, "description") {
            Some(d) => d,
            None => chars_of("module"),
        };
        let x = ApiModule { name, description, functions };
        let mut j: usize = 0;
        let mut dup_found = false;
        while j < modules.len()
            invariant
                j <= modules@.len(),
                !dup_found ==> forall|i: int| 0 <= i < j ==> (#[trigger] modules_view(modules@)[i]).name != x.name@,
                dup_found ==> exists|i: int| 0 <= i < modules_view(modules@).len() && (#[trigger] modules_view(modules@)[i]).name == x.name@,
                modules_view(modules@).len() == modules@.len(),
            decreases modules.len() - j,
        {
            proof {
                assert(modules_view(modules@)[j as int].name == modules@[j as int].name@);
            }
            if !dup_found && chars_eq(modules[j].name.as_slice(), x.name.as_slice()) {
                dup_found = true;
            }
            j = j + 1;
        }
        proof {
            assert(json_module(ms@[k as int]) == Ok::<ModuleV, Seq<char>>(module_view(x)));
        }
        if dup_found {
            proof {
                lemma_json_modules_err(ms@, k + 1);
            }
            return Err(chars_of("META001: API 存在重复模块"));
        }
        let ghost before = modules@;
        modules.push(x);
        proof {
            assert(modules_view(modules@) =~= modules_view(before).push(module_view(x)));
        }
        k = k + 1;
    }
    proof {
        assert(ms@.take(k as int) =~= ms@);
    }
    Ok((globals, modules))
}

// ─── versions ───────────────────────────────────────────────────────────

/// The normalised text (`Display`) of `text` parsed as a SemVer version by
/// `semver::Version::parse`, or `None` when it is not one.
pub uninterp spec fn semver_version(text: Seq<char>) -> Option<Seq<char>>;

/// Whether the version `version` satisfies the requirement `req`, as
/// `semver::VersionReq::parse` and `VersionReq::matches` decide; `None`
/// when either text does not parse.
pub uninterp spec fn semver_matches(req: Seq<char>, version: Seq<char>) -> Option<bool>;

/// Calls `semver::Version::parse` and formats the version with its
/// `Display`. The contract says only that the result is the named
/// [`semver_version`] of the text; the SemVer grammar itself is not stated.
#[verifier::external_body]
pub(crate) fn parse_version(text: &str) -> (r: Option<String>)
    ensures
        match r {
            Some(v) => semver_version(text@) == Some(v@),
            None => semver_version(text@) is None,
        },
{
    semver::Version::parse(text).ok().map(|v| v.to_string())
}

/// Calls `semver::VersionReq::parse(req)`, `semver::Version::parse(version)`
/// and `VersionReq::matches`. The contract says only that the result is
/// the named [`semver_matches`] of the two texts.
#[verifier::external_body]
pub(crate) fn version_req_matches(req: &str, version: &str) -> (r: Option<bool>)
    ensures
        r == semver_matches(req@, version@),
{
    match (semver::VersionReq::parse(req), semver::Version::parse(version)) {
        (Ok(q), Ok(v)) => Some(q.matches(&v)),
        _ => None,
    }
}

/// The whitespace-separated words of `s` joined by `", "` (`first` tells
/// whether no word came before).
pub open spec fn comma_words(s: Seq<char>, first: bool) -> Seq<char>
    decreases s.len(),
{
    let t = trim_start(s);
    if t.len() == 0 {
        Seq::empty()
    } else {
        proof {
            crate::text::lemma_ws_prefix_bound(s);
            crate::text::lemma_word_len(t);
            assert(!crate::text::is_ws(t[0]));
        }
        let w = t.take(word_len(t) as int);
        (if first {
            w
        } else {
            ", "@ + w
        }) + comma_words(t.skip(word_len(t) as int), false)
    }
}

/// A version requirement as the loader reads it: space-separated
/// comparators without commas are joined by commas.
pub open spec fn normalize_req(r: Seq<char>) -> Seq<char> {
    if r.contains(' ') && !r.contains(',') {
        comma_words(r, true)
    } else {
        r
    }
}

/// The outcome of matching a version against the requirement `req`, given
/// the matcher's answer `matched` (`None`: the requirement is unreadable).
pub open spec fn version_check(req: Seq<char>, matched: Option<bool>) -> Result<bool, Seq<char>> {
    match matched {
        None => Err("无效版本约束 "@ + req),
        Some(b) => Ok(b),
    }
}

fn contains_char(s: &[char], c: char) -> (r: bool)
    ensures
        r == s@.contains(c),
{
    let mut i: usize = 0;
    while i < s.len()
        invariant
            i <= s@.len(),
            forall|j: int| 0 <= j < i ==> s@[j] != c,
        decreases s.len() - i,
    {
        if s[i] == c {
            proof {
                assert(s@[i as int] == c);
            }
            return true;
        }
        i = i + 1;
    }
    false
}

/// A version requirement as the SemVer parser is given it: words separated
/// only by spaces are joined with `, ` (see [`normalize_req`]).
pub fn normalize_requirement(r: &[char]) -> (out: Vec<char>)
    ensures
        out@ == normalize_req(r@),
{
    if !(contains_char(r, ' ') && !contains_char(r, ',')) {
        return clone_slice(r);
    }
    let n = r.len();
    let mut out: Vec<char> = Vec::new();
    let mut first = true;
    let mut i: usize = 0;
    proof {
        assert(r@.subrange(0, n as int) =~= r@);
    }
    while i < n
        invariant
            i <= n,
            n == r@.len(),
            out@ + comma_words(r@.subrange(i as int, n as int), first) == comma_words(r@, true),
        decreases n - i,
    {
        let a = crate::text::skip_ws(r, i, n);
        let ghost rest = r@.subrange(i as int, n as int);
        proof {
            crate::text::lemma_ws_prefix_bound(rest);
            assert(trim_start(rest) =~= r@.subrange(a as int, n as int));
        }
        if a == n {
            proof {
                assert(comma_words(rest, first) =~= Seq::<char>::empty());
                assert(r@.subrange(n as int, n as int) =~= Seq::<char>::empty());
                assert(comma_words(r@.subrange(n as int, n as int), false) =~= Seq::<char>::empty());
                assert(out@ + Seq::<char>::empty() =~= out@);
            }
            i = n;
            first = false;
        } else {
            let b = skip_word(r, a, n);
            let ghost t = r@.subrange(a as int, n as int);
            let ghost before = out@;
            if !first {
                append_str(&mut out, ", ");
            }
            let ghost mid = out@;
            let w = sub_chars(r, a, b);
            append_chars(&mut out, w.as_slice());
            proof {
                assert(t.take(word_len(t) as int) =~= w@);
                assert(t.skip(word_len(t) as int) =~= r@.subrange(b as int, n as int));
                assert(comma_words(rest, first) == (if first {
                    w@
                } else {
                    ", "@ + w@
                }) + comma_words(r@.subrange(b as int, n as int), false));
                if first {
                    assert(out@ =~= before + w@);
                } else {
                    assert(out@ =~= before + (", "@ + w@));
                }
                assert(out@ + comma_words(r@.subrange(b as int, n as int), false) =~= before + comma_words(rest, first));
            }
            i = b;
            first = false;
        }
    }
    proof {
        assert(r@.subrange(n as int, n as int) =~= Seq::<char>::empty());
        assert(out@ + comma_words(r@.subrange(n as int, n as int), first) =~= out@);
    }
    out
}

/// Whether the version `version` meets the requirement `req`, as the
/// SemVer matcher answers for the normalised requirement.
fn version_matches(req: &[char], version: &[char]) -> (r: Option<bool>)
    ensures
        r == semver_matches(normalize_req(req@), version@),
{
    let normalized = normalize_requirement(req);
    let rs = string_from(normalized.as_slice());
    let vs = string_from(version);
    version_req_matches(rs.as_str(), vs.as_str())
}

// ─── the profile from the standard files ────────────────────────────────

/// The value is a JSON object.
pub open spec fn jobj(v: Option<Json>) -> bool {
    v matches Some(Json::Object(_))
}

/// Some element of `a` is the string `x`.
pub open spec fn strs_contain(a: Seq<Json>, x: Seq<char>) -> bool {
    exists|i: int| 0 <= i < a.len() && jstr(Some(#[trigger] a[i])) == Some(x)
}

/// The problem with the board's list of compatible APIs.
pub open spec fn board_compat_problem(board: Json, api_id: Seq<char>) -> Option<Seq<char>> {
    match (match jget(board, "compatibility"@) {
        Some(x) => jget(x, "api_ids"@),
        None => None,
    }) {
        Some(Json::Array(a)) => if strs_contain(a@, api_id) {
            None
        } else {
            Some("META001: Board compatibility 未包含 API "@ + api_id)
        },
        Some(_) => Some("Board compatibility.api_ids 必须为数组"@),
        None => None,
    }
}

/// The problem with the compatibility the API and the board declare.
pub open spec fn compat_problem(api: Json, board: Json, chip_id: Seq<char>, board_id: Seq<char>, api_id: Seq<char>) -> Option<
    Seq<char>,
> {
    match jget(api, "compatibility"@) {
        Some(Json::Object(m)) => {
            let c = Json::Object(m);
            match jarr(jget(c, "chip_ids"@)) {
                None => Some(msg_arr("chip_ids"@)),
                Some(ids) => if !strs_contain(ids, chip_id) {
                    Some("META001: API compatibility 未包含 Chip "@ + chip_id)
                } else {
                    match jget(c, "board_ids"@) {
                        Some(Json::Array(b)) => if !strs_contain(b@, board_id) {
                            Some("META001: API compatibility 未包含 Board "@ + board_id)
                        } else {
                            board_compat_problem(board, api_id)
                        },
                        Some(_) => Some("board_ids 必须为数组"@),
                        None => board_compat_problem(board, api_id),
                    }
                },
            }
        },
        _ => Some(msg_obj("compatibility"@)),
    }
}

/// The chip's version text.
pub open spec fn chip_version_text(chip: Json) -> Option<Seq<char>> {
    jstr(jget(chip, "version"@))
}

/// The version requirement the board puts on its chip.
pub open spec fn chip_requirement(board: Json) -> Option<Seq<char>> {
    match jget(board, "chip_ref"@) {
        Some(c) => jstr(jget(c, "version"@)),
        None => None,
    }
}

/// The profile the chip, board and API documents describe, or the first
/// problem, with SemVer answered by the `semver` crate: the parsed chip
/// version and whether it meets the board's requirement.
pub open spec fn profile_from(chip: Json, board: Json, api: Json) -> Result<ProfileV, Seq<char>> {
    let version = match chip_version_text(chip) {
        Some(t) => semver_version(t),
        None => None,
    };
    let matched = match (chip_requirement(board), chip_version_text(chip)) {
        (Some(req), Some(t)) => semver_matches(normalize_req(req), t),
        _ => None,
    };
    profile_given(chip, board, api, version, matched)
}

/// The profile the chip, board and API documents describe, or the first
/// problem: identity and version agreement, compatibility lists, the
/// chip's peripherals and pins, the board's pins and resources, the API's
/// types and functions, and that every resource parameter can be served.
/// `version` is the chip's version as SemVer reads it (`None`: not a
/// version); `matched` says whether it meets the board's requirement
/// (`None`: the requirement is unreadable).
pub open spec fn profile_given(chip: Json, board: Json, api: Json, version: Option<Seq<char>>, matched: Option<bool>) -> Result<
    ProfileV,
    Seq<char>,
> {
    match jstr(jget(chip, "id"@)) {
        None => Err(msg_str("id"@)),
        Some(chip_id) => match jstr(jget(chip, "version"@)) {
            None => Err(msg_str("version"@)),
            Some(vtext) => match version {
                None => Err("Chip version 不是 SemVer"@),
                Some(version) => match jstr(jget(board, "id"@)) {
                    None => Err(msg_str("id"@)),
                    Some(board_id) => match jstr(jget(api, "id"@)) {
                        None => Err(msg_str("id"@)),
                        Some(api_id) => {
                            let chip_ref = jget(board, "chip_ref"@);
                            if !jobj(chip_ref) {
                                Err(msg_obj("chip_ref"@))
                            } else {
                                match jstr(jget(chip_ref->0, "id"@)) {
                                    None => Err(msg_str("id"@)),
                                    Some(ref_id) => if ref_id != chip_id {
                                        Err("META001: Board 引用的 Chip ID 与已加载文件不一致"@)
                                    } else {
                                        match jstr(jget(chip_ref->0, "version"@)) {
                                            None => Err(msg_str("version"@)),
                                            Some(req) => match version_check(req, matched) {
                                                Err(e) => Err(e),
                                                Ok(false) => Err("META001: Chip "@ + version + " 不满足 Board 版本约束"@),
                                                Ok(true) => profile_body(chip, board, api, chip_id, board_id, api_id),
                                            },
                                        }
                                    },
                                }
                            }
                        },
                    },
                },
            },
        },
    }
}

/// The rest of [`profile_from`], once identities and versions agree.
pub open spec fn profile_body(
    chip: Json,
    board: Json,
    api: Json,
    chip_id: Seq<char>,
    board_id: Seq<char>,
    api_id: Seq<char>,
) -> Result<ProfileV, Seq<char>> {
    match compat_problem(api, board, chip_id, board_id, api_id) {
        Some(e) => Err(e),
        None => match chip_periphs(chip) {
            Err(e) => Err(e),
            Ok(ps) => match chip_pin_list(chip, ps) {
                Err(e) => Err(e),
                Ok(cps) => match board_pin_list(board, cps) {
                    Err(e) => Err(e),
                    Ok(bps) => match board_problem(board, ps, cps, bps) {
                        Some(e) => Err(e),
                        None => match api_type_problem(api) {
                            Some(e) => Err(e),
                            None => match api_parts(api) {
                                Err(e) => Err(e),
                                Ok(parts) => match api_problem(parts.0, parts.1, ps, cps, bps) {
                                    Some(e) => Err(e),
                                    None => Ok(ProfileV {
                                        board_id,
                                        chip_id,
                                        api_id,
                                        globals: parts.0,
                                        modules: parts.1,
                                        chip_pins: cps,
                                        peripherals: ps,
                                        board_pins: bps,
                                    }),
                                },
                            },
                        },
                    },
                },
            },
        },
    }
}

fn contains_str_elem(a: &Vec<Json>, x: &[char]) -> (r: bool)
    ensures
        r == strs_contain(a@, x@),
{
    let mut i: usize = 0;
    while i < a.len()
        invariant
            i <= a@.len(),
            forall|j: int| 0 <= j < i ==> jstr(Some(#[trigger] a@[j])) != Some(x@),
        decreases a.len() - i,
    {
        let hit = match &a[i] {
            Json::Str(s) => chars_eq(s.as_slice(), x),
            _ => false,
        };
        if hit {
            return true;
        }
        i = i + 1;
    }
    false
}

fn board_compat_check(board: &Json, api_id: &[char]) -> (r: Option<Vec<char>>)
    ensures
        opt_chars(r) == board_compat_problem(*board, api_id@),
{
    let ids = match json_get(board, "compatibility") {
        Some(x) => json_get(x, "api_ids"),
        None => None,
    };
    match ids {
        Some(Json::Array(a)) => if contains_str_elem(a, api_id) {
            None
        } else {
            let mut m = chars_of("META001: Board compatibility 未包含 API ");
            append_chars(&mut m, api_id);
            Some(m)
        },
        Some(_) => Some(chars_of("Board compatibility.api_ids 必须为数组")),
        None => None,
    }
}

fn compat_check(api: &Json, board: &Json, chip_id: &[char], board_id: &[char], api_id: &[char]) -> (r: Option<Vec<char>>)
    ensures
        opt_chars(r) == compat_problem(*api, *board, chip_id@, board_id@, api_id@),
{
    let c = match req_obj(api, "compatibility") {
        Ok(c) => c,
        Err(e) => return Some(e),
    };
    let ids = match req_arr(c, "chip_ids") {
        Ok(x) => x,
        Err(e) => return Some(e),
    };
    if !contains_str_elem(ids, chip_id) {
        let mut m = chars_of("META001: API compatibility 未包含 Chip ");
        append_chars(&mut m, chip_id);
        return Some(m);
    }
    match json_get(c, "board_ids") {
        Some(Json::Array(b)) => {
            if !contains_str_elem(b, board_id) {
                let mut m = chars_of("META001: API compatibility 未包含 Board ");
                append_chars(&mut m, board_id);
                return Some(m);
            }
        },
        Some(_) => return Some(chars_of("board_ids 必须为数组")),
        None => {},
    }
    board_compat_check(board, api_id)
}

fn req_obj<'a>(v: &'a Json, key: &str) -> (r: Result<&'a Json, Vec<char>>)
    ensures
        match r {
            Ok(o) => jget(*v, key@) == Some(*o) && jobj(Some(*o)),
            Err(e) => !jobj(jget(*v, key@)) && e@ == msg_obj(key@),
        },
{
    match json_get(v, key) {
        Some(o) => match o {
            Json::Object(_) => Ok(o),
            _ => {
                let mut m = chars_of("缺少对象字段 ");
                append_str(&mut m, key);
                Err(m)
            },
        },
        None => {
            let mut m = chars_of("缺少对象字段 ");
            append_str(&mut m, key);
            Err(m)
        },
    }
}

fn build_profile_body(chip: &Json, board: &Json, api: &Json, chip_id: Vec<char>, board_id: Vec<char>, api_id: Vec<char>) -> (r: Result<
    TargetProfile,
    Vec<char>,
>)
    ensures
        match r {
            Ok(p) => profile_body(*chip, *board, *api, chip_id@, board_id@, api_id@) == Ok::<ProfileV, Seq<char>>(profile_view(p)),
            Err(e) => profile_body(*chip, *board, *api, chip_id@, board_id@, api_id@) == Err::<ProfileV, Seq<char>>(e@),
        },
{
    match compat_check(api, board, chip_id.as_slice(), board_id.as_slice(), api_id.as_slice()) {
        Some(e) => return Err(e),
        None => {},
    }
    let peripherals = parse_peripherals(chip)?;
    let chip_pins = parse_chip_pins(chip, &peripherals)?;
    let board_pins = parse_board_pins(board, &chip_pins)?;
    validate_board_resources(board, &peripherals, &chip_pins, &board_pins)?;
    match api_type_check(api) {
        Some(e) => return Err(e),
        None => {},
    }
    let (globals, modules) = parse_api(api)?;
    validate_api_resources(&globals, &modules, &peripherals, &chip_pins, &board_pins)?;
    let board_s = string_from(board_id.as_slice());
    let chip_s = string_from(chip_id.as_slice());
    let api_s = string_from(api_id.as_slice());
    proof {
        let v = ProfileV {
            board_id: board_s@,
            chip_id: chip_s@,
            api_id: api_s@,
            globals: functions_view(globals@),
            modules: modules_view(modules@),
            chip_pins: chip_pins_view(chip_pins@),
            peripherals: periphs_view(peripherals@),
            board_pins: board_pins_view(board_pins@),
        };
        assert(v =~~= profile_body(*chip, *board, *api, chip_id@, board_id@, api_id@)->Ok_0);
        crate::profile_names::law_body_names_unique(*chip, *board, *api, chip_id@, board_id@, api_id@);
        assert(names_unique(v));
    }
    let p = TargetProfile {
        board_id: board_s,
        chip_id: chip_s,
        api_id: api_s,
        globals,
        modules,
        chip_pins,
        peripherals,
        board_pins,
    };
    proof {
        assert(profile_view(p) =~~= profile_body(*chip, *board, *api, chip_id@, board_id@, api_id@)->Ok_0);
    }
    Ok(p)
}

/// Builds the target profile from the chip, board and API documents, given
/// what SemVer says of the chip's version: its normalised text (`None`:
/// not a version) and whether it meets the board's requirement (`None`:
/// the requirement is unreadable) (see [`profile_given`]).
pub fn build_profile_with(chip: &Json, board: &Json, api: &Json, version: Option<String>, matched: Option<bool>) -> (r: Result<
    TargetProfile,
    String,
>)
    ensures
        match r {
            Ok(p) => profile_given(*chip, *board, *api, match version {
                Some(v) => Some(v@),
                None => None,
            }, matched) == Ok::<ProfileV, Seq<char>>(profile_view(p)),
            Err(e) => profile_given(*chip, *board, *api, match version {
                Some(v) => Some(v@),
                None => None,
            }, matched) == Err::<ProfileV, Seq<char>>(e@),
        },
{
    match build_given(chip, board, api, version, matched) {
        Ok(p) => Ok(p),
        Err(e) => Err(string_from(e.as_slice())),
    }
}

fn build_given(chip: &Json, board: &Json, api: &Json, version: Option<String>, matched: Option<bool>) -> (r: Result<
    TargetProfile,
    Vec<char>,
>)
    ensures
        match r {
            Ok(p) => profile_given(*chip, *board, *api, match version {
                Some(v) => Some(v@),
                None => None,
            }, matched) == Ok::<ProfileV, Seq<char>>(profile_view(p)),
            Err(e) => profile_given(*chip, *board, *api, match version {
                Some(v) => Some(v@),
                None => None,
            }, matched) == Err::<ProfileV, Seq<char>>(e@),
        },
{
    let chip_id = req_str(chip, "id")?;
    let _vtext = req_str(chip, "version")?;
    let version = match version {
        Some(v) => v,
        None => return Err(chars_of("Chip version 不是 SemVer")),
    };
    let board_id = req_str(board, "id")?;
    let api_id = req_str(api, "id")?;
    let chip_ref = req_obj(board, "chip_ref")?;
    let ref_id = req_str(chip_ref, "id")?;
    if !chars_eq(ref_id.as_slice(), chip_id.as_slice()) {
        return Err(chars_of("META001: Board 引用的 Chip ID 与已加载文件不一致"));
    }
    let req = req_str(chip_ref, "version")?;
    let ok = match matched {
        Some(b) => b,
        None => {
            let mut m = chars_of("无效版本约束 ");
            append_chars(&mut m, req.as_slice());
            return Err(m);
        },
    };
    if !ok {
        let mut m = chars_of("META001: Chip ");
        append_str(&mut m, version.as_str());
        append_str(&mut m, " 不满足 Board 版本约束");
        return Err(m);
    }
    build_profile_body(chip, board, api, chip_id, board_id, api_id)
}

/// Builds the target profile from the chip, board and API documents, asking
/// the `semver` crate about the chip's version (see [`profile_from`]).
fn build_profile(chip: &Json, board: &Json, api: &Json) -> (r: Result<TargetProfile, String>)
    ensures
        match r {
            Ok(p) => profile_from(*chip, *board, *api) == Ok::<ProfileV, Seq<char>>(profile_view(p)),
            Err(e) => profile_from(*chip, *board, *api) == Err::<ProfileV, Seq<char>>(e@),
        },
{
    let vtext = opt_string(chip, "version");
    let version = match &vtext {
        Some(t) => parse_version(string_from(t.as_slice()).as_str()),
        None => None,
    };
    let req = match json_get(board, "chip_ref") {
        Some(c) => opt_string(c, "version"),
        None => None,
    };
    let matched = match (&req, &vtext) {
        (Some(q), Some(t)) => version_matches(q.as_slice(), t.as_slice()),
        _ => None,
    };
    proof {
        assert(opt_chars(vtext) == chip_version_text(*chip));
        assert(opt_chars(req) == chip_requirement(*board));
    }
    build_profile_with(chip, board, api, version, matched)
}

/// Builds the target profile from the chip, board and API documents, each
/// already read and checked against its schema (see [`profile_from`]).
pub fn load_profile_files(chip: &Json, board: &Json, api: &Json) -> (r: Result<TargetProfile, String>)
    ensures
        match r {
            Ok(p) => profile_from(*chip, *board, *api) == Ok::<ProfileV, Seq<char>>(profile_view(p)),
            Err(e) => profile_from(*chip, *board, *api) == Err::<ProfileV, Seq<char>>(e@),
        },
{
    build_profile(chip, board, api)
}

/// The problem that keeps a document out of production use: its
/// `quality` must be reviewed or verified with complete coverage.
pub open spec fn quality_problem(v: Json, label: Seq<char>) -> Option<Seq<char>> {
    let q = jget(v, "quality"@);
    if !jobj(q) {
        Some(msg_obj("quality"@))
    } else {
        match jstr(jget(q->0, "status"@)) {
            None => Some(msg_str("status"@)),
            Some(status) => match jstr(jget(q->0, "coverage"@)) {
                None => Some(msg_str("coverage"@)),
                Some(coverage) => if !(status == "reviewed"@ || status == "verified"@) || coverage != "complete"@ {
                    Some(
                        "META001: "@ + label
                            + " production metadata requires reviewed/verified status and complete coverage"@,
                    )
                } else {
                    None
                },
            },
        }
    }
}

/// Checks that a document is fit for production (see [`quality_problem`]).
pub fn require_production_quality(v: &Json, label: &str) -> (r: Result<(), String>)
    ensures
        match r {
            Ok(()) => quality_problem(*v, label@) is None,
            Err(e) => quality_problem(*v, label@) == Some(e@),
        },
{
    match quality_check(v, label) {
        None => Ok(()),
        Some(e) => Err(string_from(e.as_slice())),
    }
}

fn quality_check(v: &Json, label: &str) -> (r: Option<Vec<char>>)
    ensures
        opt_chars(r) == quality_problem(*v, label@),
{
    let q = match req_obj(v, "quality") {
        Ok(q) => q,
        Err(e) => return Some(e),
    };
    let status = match req_str(q, "status") {
        Ok(x) => x,
        Err(e) => return Some(e),
    };
    let coverage = match req_str(q, "coverage") {
        Ok(x) => x,
        Err(e) => return Some(e),
    };
    if !(word_is(status.as_slice(), "reviewed") || word_is(status.as_slice(), "verified")) || !word_is(coverage.as_slice(), "complete") {
        let mut m = chars_of("META001: ");
        append_str(&mut m, label);
        append_str(&mut m, " production metadata requires reviewed/verified status and complete coverage");
        return Some(m);
    }
    None
}

/// The chip a board refers to: its id and version requirement.
pub open spec fn chip_ref_of(board: Json) -> Result<(Seq<char>, Seq<char>), Seq<char>> {
    let c = jget(board, "chip_ref"@);
    if !jobj(c) {
        Err(msg_obj("chip_ref"@))
    } else {
        match jstr(jget(c->0, "id"@)) {
            None => Err(msg_str("id"@)),
            Some(id) => match jstr(jget(c->0, "version"@)) {
                None => Err(msg_str("version"@)),
                Some(v) => Ok((id, v)),
            },
        }
    }
}

/// The chip a board refers to: its id and version requirement (see
/// [`chip_ref_of`]).
pub fn chip_reference(board: &Json) -> (r: Result<(String, String), String>)
    ensures
        match r {
            Ok(x) => chip_ref_of(*board) == Ok::<(Seq<char>, Seq<char>), Seq<char>>((x.0@, x.1@)),
            Err(e) => chip_ref_of(*board) == Err::<(Seq<char>, Seq<char>), Seq<char>>(e@),
        },
{
    let c = match req_obj(board, "chip_ref") {
        Ok(c) => c,
        Err(e) => return Err(string_from(e.as_slice())),
    };
    let id = match req_str(c, "id") {
        Ok(x) => x,
        Err(e) => return Err(string_from(e.as_slice())),
    };
    let v = match req_str(c, "version") {
        Ok(x) => x,
        Err(e) => return Err(string_from(e.as_slice())),
    };
    Ok((string_from(id.as_slice()), string_from(v.as_slice())))
}

/// Loads a project's target for production: the board, then the chip it
/// refers to and the API must each be reviewed or verified with complete
/// coverage, and the three must agree (see [`profile_from`]).
pub fn load_for_project(board: &Json, chip: &Json, api: &Json) -> (r: Result<TargetProfile, String>)
    ensures
        match quality_problem(*board, "Board"@) {
            Some(e) => r matches Err(x) && x@ == e,
            None => match chip_ref_of(*board) {
                Err(e) => r matches Err(x) && x@ == e,
                Ok(_) => match quality_problem(*chip, "Chip"@) {
                    Some(e) => r matches Err(x) && x@ == e,
                    None => match quality_problem(*api, "API"@) {
                        Some(e) => r matches Err(x) && x@ == e,
                        None => match r {
                            Ok(p) => profile_from(*chip, *board, *api) == Ok::<ProfileV, Seq<char>>(profile_view(p)),
                            Err(e) => profile_from(*chip, *board, *api) == Err::<ProfileV, Seq<char>>(e@),
                        },
                    },
                },
            },
        },
{
    require_production_quality(board, "Board")?;
    chip_reference(board)?;
    require_production_quality(chip, "Chip")?;
    require_production_quality(api, "API")?;
    load_profile_files(chip, board, api)
}

// ─── board choices ──────────────────────────────────────────────────────

/// A board the user can pick.
#[derive(Clone, Debug)]
pub struct BoardChoice {
    /// File stem of the board file; the value stored in the project
    /// configuration.
    pub id: String,
    /// Human-readable name from the board file (any UTF-8 text).
    pub name: String,
    pub chip: String,
}

/// Board choices as (id, name, chip), ordered by name and then id.
pub open spec fn by_name_id() -> spec_fn((Seq<char>, Seq<char>, Seq<char>), (Seq<char>, Seq<char>, Seq<char>)) -> bool {
    |x: (Seq<char>, Seq<char>, Seq<char>), y: (Seq<char>, Seq<char>, Seq<char>)|
        str_lt(x.1, y.1) || (x.1 == y.1 && str_lt(x.0, y.0))
}

pub open spec fn choice_view(c: BoardChoice) -> (Seq<char>, Seq<char>, Seq<char>) {
    (c.id@, c.name@, c.chip@)
}

pub open spec fn choices_view(v: Seq<BoardChoice>) -> Seq<(Seq<char>, Seq<char>, Seq<char>)> {
    v.map_values(|c: BoardChoice| choice_view(c))
}

/// The first board file whose chip is no identifier.
pub open spec fn bad_board_chip(entries: Seq<(String, SimpleBoard)>) -> Option<int> {
    find_first(entries, |e: (String, SimpleBoard)| !ident_ok(e.1.chip@))
}

/// The choices the board files `entries` (file stem, board) give, ordered
/// by name and then file stem; refused when a board's chip is no
/// identifier or there is no board at all.
pub open spec fn choices_of(entries: Seq<(String, SimpleBoard)>) -> Result<Seq<(Seq<char>, Seq<char>, Seq<char>)>, Seq<char>> {
    match bad_board_chip(entries) {
        Some(i) => Err(msg_ident(entries[i].1.chip@, "开发板 chip"@)),
        None => if entries.len() == 0 {
            Err("boards 目录中没有开发板 JSON"@)
        } else {
            Ok(sort_stable(
                entries.map_values(|e: (String, SimpleBoard)| (e.0@, e.1.name@, e.1.chip@)),
                by_name_id(),
            ))
        },
    }
}

/// The board choices come ordered by name, and boards of one name by file
/// stem; there is one choice for each board file.
pub proof fn law_board_choices_sorted(entries: Seq<(String, SimpleBoard)>)
    ensures
        choices_of(entries) is Ok ==> {
            let c = choices_of(entries)->Ok_0;
            &&& c.len() == entries.len()
            &&& forall|i: int, j: int|
                0 <= i < j < c.len() ==> {
                    let x = #[trigger] c[i];
                    let y = #[trigger] c[j];
                    !str_lt(y.1, x.1) && (y.1 == x.1 ==> !str_lt(y.0, x.0))
                }
            &&& c.to_multiset() == entries.map_values(
                |e: (String, SimpleBoard)| (e.0@, e.1.name@, e.1.chip@),
            ).to_multiset()
        },
{
    broadcast use vstd::seq_lib::group_to_multiset_ensures;

    if choices_of(entries) is Ok {
        assert forall|
            x: (Seq<char>, Seq<char>, Seq<char>),
            y: (Seq<char>, Seq<char>, Seq<char>),
        | #[trigger] by_name_id()(x, y) implies !by_name_id()(y, x) by {
            crate::fontpack::law_str_lt_order(x.1, y.1, y.1);
            crate::fontpack::law_str_lt_order(x.0, y.0, y.0);
        }
        assert forall|
            x: (Seq<char>, Seq<char>, Seq<char>),
            y: (Seq<char>, Seq<char>, Seq<char>),
            z: (Seq<char>, Seq<char>, Seq<char>),
        | #[trigger] by_name_id()(x, y) && #[trigger] by_name_id()(y, z) implies by_name_id()(x, z) by {
            crate::fontpack::law_str_lt_order(x.1, y.1, z.1);
            crate::fontpack::law_str_lt_order(x.0, y.0, z.0);
        }
        let s = entries.map_values(|e: (String, SimpleBoard)| (e.0@, e.1.name@, e.1.chip@));
        law_sort_stable(s, by_name_id());
        let c = choices_of(entries)->Ok_0;
        assert(c == sort_stable(s, by_name_id()));
        assert(c.len() == c.to_multiset().len());
        assert(s.len() == s.to_multiset().len());
        assert forall|i: int, j: int| 0 <= i < j < c.len() implies {
            let x = #[trigger] c[i];
            let y = #[trigger] c[j];
            !str_lt(y.1, x.1) && (y.1 == x.1 ==> !str_lt(y.0, x.0))
        } by {
            assert(!by_name_id()(c[j], c[i]));
        }
    }
}

fn insert_by_name_id(v: &mut Vec<(Vec<char>, Vec<char>, Vec<char>)>, x: (Vec<char>, Vec<char>, Vec<char>))
    ensures
        triples_view(final(v)@) == ins_sorted(triples_view(old(v)@), (x.0@, x.1@, x.2@), by_name_id()),
{
    let ghost o = triples_view(old(v)@);
    let ghost xv = (x.0@, x.1@, x.2@);
    let mut j: usize = 0;
    proof {
        assert(o.skip(0) =~= o);
        assert(o.take(0) + ins_sorted(o, xv, by_name_id()) =~= ins_sorted(o, xv, by_name_id()));
    }
    while j < v.len()
        invariant
            j <= v@.len(),
            triples_view(v@) == o,
            o == triples_view(old(v)@),
            xv == (x.0@, x.1@, x.2@),
            ins_sorted(o, xv, by_name_id()) == o.take(j as int) + ins_sorted(o.skip(j as int), xv, by_name_id()),
        decreases v.len() - j,
    {
        let ghost rest = o.skip(j as int);
        proof {
            assert(rest[0] == (v@[j as int].0@, v@[j as int].1@, v@[j as int].2@));
        }
        let c = compare_chars(x.1.as_slice(), v[j].1.as_slice());
        let first = c == -1 || (c == 0 && compare_chars(x.0.as_slice(), v[j].0.as_slice()) == -1);
        if first {
            v.insert(j, x);
            proof {
                assert(ins_sorted(rest, xv, by_name_id()) == seq![xv] + rest);
                assert(triples_view(v@) =~= o.take(j as int) + (seq![xv] + rest));
            }
            return;
        }
        proof {
            assert(rest.drop_first() =~= o.skip(j + 1));
            assert(o.take(j as int) + (seq![rest[0]] + ins_sorted(o.skip(j + 1), xv, by_name_id())) =~= o.take(j + 1)
                + ins_sorted(o.skip(j + 1), xv, by_name_id()));
        }
        j = j + 1;
    }
    v.push(x);
    proof {
        assert(o.skip(j as int) =~= Seq::<(Seq<char>, Seq<char>, Seq<char>)>::empty());
        assert(o.take(j as int) =~= o);
        assert(triples_view(v@) =~= o.push(xv));
    }
}

/// The board choices the board files give (see [`choices_of`]).
pub fn board_choices(entries: &Vec<(String, SimpleBoard)>) -> (r: Result<Vec<BoardChoice>, String>)
    ensures
        match r {
            Ok(v) => choices_of(entries@) == Ok::<Seq<(Seq<char>, Seq<char>, Seq<char>)>, Seq<char>>(choices_view(v@)),
            Err(e) => choices_of(entries@) == Err::<Seq<(Seq<char>, Seq<char>, Seq<char>)>, Seq<char>>(e@),
        },
{
    let ghost p = |e: (String, SimpleBoard)| !ident_ok(e.1.chip@);
    let ghost ev = entries@.map_values(|e: (String, SimpleBoard)| (e.0@, e.1.name@, e.1.chip@));
    let mut sorted: Vec<(Vec<char>, Vec<char>, Vec<char>)> = Vec::new();
    let mut k: usize = 0;
    proof {
        assert(triples_view(sorted@) =~= sort_stable(ev.take(0), by_name_id()));
    }
    while k < entries.len()
        invariant
            k <= entries@.len(),
            p == (|e: (String, SimpleBoard)| !ident_ok(e.1.chip@)),
            ev == entries@.map_values(|e: (String, SimpleBoard)| (e.0@, e.1.name@, e.1.chip@)),
            forall|j: int| 0 <= j < k ==> !p(#[trigger] entries@[j]),
            triples_view(sorted@) == sort_stable(ev.take(k as int), by_name_id()),
        decreases entries.len() - k,
    {
        let e = &entries[k];
        let chip = chars_of(e.1.chip.as_str());
        match ident_check(chip.as_slice(), "开发板 chip") {
            Err(m) => {
                proof {
                    lemma_find_first(entries@, p, k as int);
                }
                return Err(string_from(m.as_slice()));
            },
            Ok(()) => {},
        }
        proof {
            assert(ev.take(k + 1).drop_last() =~= ev.take(k as int));
            assert(ev.take(k + 1).last() == ev[k as int]);
        }
        insert_by_name_id(&mut sorted, (chars_of(e.0.as_str()), chars_of(e.1.name.as_str()), chip));
        k = k + 1;
    }
    proof {
        lemma_find_first(entries@, p, k as int);
        assert(ev.take(k as int) =~= ev);
    }
    if entries.len() == 0 {
        return Err(string_from(chars_of("boards 目录中没有开发板 JSON").as_slice()));
    }
    let ghost sv = triples_view(sorted@);
    let mut out: Vec<BoardChoice> = Vec::new();
    let mut j: usize = 0;
    while j < sorted.len()
        invariant
            j <= sorted@.len(),
            sv == triples_view(sorted@),
            choices_view(out@) == sv.take(j as int),
        decreases sorted.len() - j,
    {
        let it = &sorted[j];
        let c = BoardChoice {
            id: string_from(it.0.as_slice()),
            name: string_from(it.1.as_slice()),
            chip: string_from(it.2.as_slice()),
        };
        let ghost before = out@;
        out.push(c);
        proof {
            assert(choice_view(c) == sv[j as int]);
            assert(choices_view(out@) =~= choices_view(before).push(choice_view(c)));
            assert(sv.take(j + 1) =~= sv.take(j as int).push(sv[j as int]));
        }
        j = j + 1;
    }
    proof {
        assert(sv.take(j as int) =~= sv);
    }
    Ok(out)
}

} // verus!
