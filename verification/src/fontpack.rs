//! Static analysis of OLED calls in Lua sources, and the Lua font module
//! generated from rasterised glyphs.
//!
//! Comments and string contents cannot create false API calls; aliases such
//! as `local display = require("oled")` are followed.

use vstd::prelude::*;
use crate::text::{all_dec, all_hex, append_chars, append_str, chars_of, dec, dec_number, hex_number, push_decimal_wide, is_dec_digit, is_hex_digit, hex_digit, lemma_dec_number_grows, lemma_hex_number_grows, push_decimal, string_from, sub_chars, ascii_lower, to_ascii_lowercase};

verus! {

/// A Lua token as the OLED analysis sees it.
#[derive(Clone, Debug)]
pub enum Token {
    Ident(Vec<char>),
    Str(Vec<char>),
    Integer(i64),
    Symbol(char),
}

/// A token as a value.
pub enum TokenV {
    Ident(Seq<char>),
    Str(Seq<char>),
    Integer(int),
    Symbol(char),
}

pub open spec fn tok_view(t: Token) -> TokenV {
    match t {
        Token::Ident(v) => TokenV::Ident(v@),
        Token::Str(v) => TokenV::Str(v@),
        Token::Integer(i) => TokenV::Integer(i as int),
        Token::Symbol(c) => TokenV::Symbol(c),
    }
}

pub open spec fn toks_view(v: Seq<Token>) -> Seq<TokenV> {
    v.map_values(|t: Token| tok_view(t))
}

/// Why a source cannot be tokenised.
#[derive(Clone, Copy, Debug, PartialEq, Eq, Structural)]
pub enum LexError {
    /// A backslash at the very end of the source inside a string.
    EscapeIncomplete,
    /// A string without its closing quote.
    Unterminated,
    /// `0x` without hexadecimal digits.
    HexNoDigits,
    /// A hexadecimal integer beyond `i64`.
    HexInvalid,
    /// A decimal integer beyond `i64`.
    DecInvalid,
}

/// `u8::is_ascii_whitespace`: space, tab, line feed, form feed, carriage return.
pub open spec fn is_ascii_ws(c: char) -> bool {
    c == ' ' || c == '\t' || c == '\n' || c == '\x0C' || c == '\r'
}

pub open spec fn is_alpha(c: char) -> bool {
    ('a' <= c <= 'z') || ('A' <= c <= 'Z')
}

pub open spec fn is_digit(c: char) -> bool {
    '0' <= c <= '9'
}

pub open spec fn is_ident_char(c: char) -> bool {
    is_alpha(c) || is_digit(c) || c == '_'
}

/// Position of the `]]` closing a block comment searched from `k`, or the
/// last position when there is none.
pub open spec fn block_close(s: Seq<char>, k: int) -> int
    decreases s.len() - k,
{
    if k < 0 || k + 1 >= s.len() {
        k
    } else if s[k] == ']' && s[k + 1] == ']' {
        k
    } else {
        block_close(s, k + 1)
    }
}

/// Position of the line feed ending a line comment searched from `k`.
pub open spec fn line_end(s: Seq<char>, k: int) -> int
    decreases s.len() - k,
{
    if k < 0 || k >= s.len() || s[k] == '\n' {
        k
    } else {
        line_end(s, k + 1)
    }
}

/// End of a run of characters satisfying the identifier rule.
pub open spec fn ident_end(s: Seq<char>, k: int) -> int
    decreases s.len() - k,
{
    if k < 0 || k >= s.len() || !is_ident_char(s[k]) {
        k
    } else {
        ident_end(s, k + 1)
    }
}

/// End of a run of hexadecimal digits.
pub open spec fn hex_end(s: Seq<char>, k: int) -> int
    decreases s.len() - k,
{
    if k < 0 || k >= s.len() || !is_hex_digit(s[k]) {
        k
    } else {
        hex_end(s, k + 1)
    }
}

/// End of a run of decimal digits.
pub open spec fn dec_end(s: Seq<char>, k: int) -> int
    decreases s.len() - k,
{
    if k < 0 || k >= s.len() || !is_digit(s[k]) {
        k
    } else {
        dec_end(s, k + 1)
    }
}

/// The character an escape `\c` stands for inside a string.
pub open spec fn unescape(c: char) -> char {
    if c == 'n' {
        '\n'
    } else if c == 'r' {
        '\r'
    } else if c == 't' {
        '\t'
    } else {
        c
    }
}

/// Reads the rest of a string literal from `j` (after the opening quote):
/// the position after the closing quote and the string's value.
pub open spec fn str_scan(s: Seq<char>, j: int, quote: char, val: Seq<char>) -> Result<(int, Seq<char>), LexError>
    decreases s.len() - j,
{
    if j < 0 || j >= s.len() {
        Err(LexError::Unterminated)
    } else if s[j] == quote {
        Ok((j + 1, val))
    } else if s[j] == '\\' {
        if j + 1 >= s.len() {
            Err(LexError::EscapeIncomplete)
        } else {
            str_scan(s, j + 2, quote, val.push(unescape(s[j + 1])))
        }
    } else {
        str_scan(s, j + 1, quote, val.push(s[j]))
    }
}

/// The tokens of `s` from position `i` on. Whitespace and comments (`--`
/// to the end of the line, `--[[ … ]]`) are skipped; quoted strings,
/// identifiers, decimal and `0x` hexadecimal integers are tokens; any
/// other character is a symbol.
pub open spec fn lex_from(s: Seq<char>, i: int) -> Result<Seq<TokenV>, LexError>
    decreases s.len() - i, 0int,
{
    if i < 0 || i >= s.len() {
        Ok(Seq::empty())
    } else {
        let c = s[i];
        if is_ascii_ws(c) {
            lex_from(s, i + 1)
        } else if c == '-' && i + 1 < s.len() && s[i + 1] == '-' {
            let j = i + 2;
            if s.len() - j > 1 && s[j] == '[' && s[j + 1] == '[' {
                let k = block_close(s, j + 2);
                let e = if k + 2 < s.len() { k + 2 } else { s.len() as int };
                if i < e <= s.len() { lex_from(s, e) } else { Ok(Seq::empty()) }
            } else {
                let e = line_end(s, j);
                if i < e <= s.len() { lex_from(s, e) } else { Ok(Seq::empty()) }
            }
        } else if c == '\'' || c == '"' {
            match str_scan(s, i + 1, c, Seq::empty()) {
                Err(e) => Err(e),
                Ok((j, v)) => if i < j <= s.len() {
                    match lex_from(s, j) {
                        Err(e) => Err(e),
                        Ok(rest) => Ok(seq![TokenV::Str(v)] + rest),
                    }
                } else {
                    Ok(Seq::empty())
                },
            }
        } else if is_alpha(c) || c == '_' {
            let j = ident_end(s, i + 1);
            if i < j <= s.len() {
                match lex_from(s, j) {
                    Err(e) => Err(e),
                    Ok(rest) => Ok(seq![TokenV::Ident(s.subrange(i, j))] + rest),
                }
            } else {
                Ok(Seq::empty())
            }
        } else if c == '0' && i + 1 < s.len() && (s[i + 1] == 'x' || s[i + 1] == 'X') {
            let j = hex_end(s, i + 2);
            if j == i + 2 {
                Err(LexError::HexNoDigits)
            } else if hex_number(s.subrange(i + 2, j)) > i64::MAX {
                Err(LexError::HexInvalid)
            } else if i < j <= s.len() {
                match lex_from(s, j) {
                    Err(e) => Err(e),
                    Ok(rest) => Ok(seq![TokenV::Integer(hex_number(s.subrange(i + 2, j)) as int)] + rest),
                }
            } else {
                Ok(Seq::empty())
            }
        } else if is_digit(c) {
            let j = dec_end(s, i + 1);
            if dec_number(s.subrange(i, j)) > i64::MAX {
                Err(LexError::DecInvalid)
            } else if i < j <= s.len() {
                match lex_from(s, j) {
                    Err(e) => Err(e),
                    Ok(rest) => Ok(seq![TokenV::Integer(dec_number(s.subrange(i, j)) as int)] + rest),
                }
            } else {
                Ok(Seq::empty())
            }
        } else {
            match lex_from(s, i + 1) {
                Err(e) => Err(e),
                Ok(rest) => Ok(symbol_toks(c) + rest),
            }
        }
    }
}

/// The UTF-8 encoding of `c`.
pub open spec fn utf8_of(c: char) -> Seq<u8> {
    let u = c as u32;
    if u < 0x80 {
        seq![u as u8]
    } else if u < 0x800 {
        seq![(0xC0 + u / 64) as u8, (0x80 + u % 64) as u8]
    } else if u < 0x1_0000 {
        seq![(0xE0 + u / 4096) as u8, (0x80 + (u / 64) % 64) as u8, (0x80 + u % 64) as u8]
    } else {
        seq![
            (0xF0 + u / 262144) as u8,
            (0x80 + (u / 4096) % 64) as u8,
            (0x80 + (u / 64) % 64) as u8,
            (0x80 + u % 64) as u8,
        ]
    }
}

/// The symbols a character outside strings, comments, names and numbers
/// gives: one per byte of its UTF-8 encoding, each byte taken as the
/// character of that value (so an ASCII character is its own symbol).
pub open spec fn symbol_toks(c: char) -> Seq<TokenV> {
    utf8_of(c).map_values(|b: u8| TokenV::Symbol(b as char))
}

/// The tokens a lexing step's token stands for (see [`symbol_toks`]).
pub open spec fn step_toks(t: Token) -> Seq<TokenV> {
    match t {
        Token::Symbol(c) => symbol_toks(c),
        _ => seq![tok_view(t)],
    }
}

fn block_close_at(s: &[char], k: usize) -> (r: usize)
    requires
        k <= s@.len(),
    ensures
        r as int == block_close(s@, k as int),
        k <= r <= s@.len(),
{
    let n = s.len();
    let mut m = k;
    while n - m > 1 && !(s[m] == ']' && s[m + 1] == ']')
        invariant
            k <= m <= s@.len(),
            n == s@.len(),
            block_close(s@, k as int) == block_close(s@, m as int),
        decreases s.len() - m,
    {
        m = m + 1;
    }
    m
}

fn line_end_at(s: &[char], k: usize) -> (r: usize)
    requires
        k <= s@.len(),
    ensures
        r as int == line_end(s@, k as int),
        k <= r <= s@.len(),
{
    let mut m = k;
    while m < s.len() && s[m] != '\n'
        invariant
            k <= m <= s@.len(),
            line_end(s@, k as int) == line_end(s@, m as int),
        decreases s.len() - m,
    {
        m = m + 1;
    }
    m
}

fn ident_end_at(s: &[char], k: usize) -> (r: usize)
    requires
        k <= s@.len(),
    ensures
        r as int == ident_end(s@, k as int),
        k <= r <= s@.len(),
        forall|j: int| k <= j < r ==> is_ident_char(#[trigger] s@[j]),
{
    let mut m = k;
    while m < s.len() && (('a' <= s[m] && s[m] <= 'z') || ('A' <= s[m] && s[m] <= 'Z') || ('0' <= s[m]
        && s[m] <= '9') || s[m] == '_')
        invariant
            k <= m <= s@.len(),
            ident_end(s@, k as int) == ident_end(s@, m as int),
            forall|j: int| k <= j < m ==> is_ident_char(#[trigger] s@[j]),
        decreases s.len() - m,
    {
        m = m + 1;
    }
    m
}

fn hex_end_at(s: &[char], k: usize) -> (r: usize)
    requires
        k <= s@.len(),
    ensures
        r as int == hex_end(s@, k as int),
        k <= r <= s@.len(),
        all_hex(s@.subrange(k as int, r as int)),
{
    let mut m = k;
    while m < s.len() && hex_digit(s[m]).is_some()
        invariant
            k <= m <= s@.len(),
            hex_end(s@, k as int) == hex_end(s@, m as int),
            forall|j: int| k <= j < m ==> is_hex_digit(#[trigger] s@[j]),
        decreases s.len() - m,
    {
        m = m + 1;
    }
    proof {
        assert forall|j: int| 0 <= j < m - k implies is_hex_digit(#[trigger] s@.subrange(k as int, m as int)[j]) by {
            assert(s@.subrange(k as int, m as int)[j] == s@[k + j]);
        }
    }
    m
}

fn dec_end_at(s: &[char], k: usize) -> (r: usize)
    requires
        k <= s@.len(),
    ensures
        r as int == dec_end(s@, k as int),
        k <= r <= s@.len(),
        all_dec(s@.subrange(k as int, r as int)),
{
    let mut m = k;
    while m < s.len() && '0' <= s[m] && s[m] <= '9'
        invariant
            k <= m <= s@.len(),
            dec_end(s@, k as int) == dec_end(s@, m as int),
            forall|j: int| k <= j < m ==> is_digit(#[trigger] s@[j]),
        decreases s.len() - m,
    {
        m = m + 1;
    }
    proof {
        assert forall|j: int| 0 <= j < m - k implies is_dec_digit(#[trigger] s@.subrange(k as int, m as int)[j]) by {
            assert(s@.subrange(k as int, m as int)[j] == s@[k + j]);
        }
    }
    m
}

/// Value of the hex digits `s[lo..hi]` when it fits in `i64`.
fn hex_value(s: &[char], lo: usize, hi: usize) -> (r: Option<i64>)
    requires
        lo <= hi <= s@.len(),
        all_hex(s@.subrange(lo as int, hi as int)),
    ensures
        match r {
            Some(v) => v as int == hex_number(s@.subrange(lo as int, hi as int)),
            None => hex_number(s@.subrange(lo as int, hi as int)) > i64::MAX,
        },
{
    let ghost d = s@.subrange(lo as int, hi as int);
    let mut acc: i64 = 0;
    let mut k = lo;
    while k < hi
        invariant
            lo <= k <= hi <= s@.len(),
            d == s@.subrange(lo as int, hi as int),
            all_hex(d),
            0 <= acc,
            acc as int == hex_number(d.take(k - lo)),
        decreases hi - k,
    {
        let ghost i = (k - lo) as int;
        proof {
            assert(d.take(i + 1).drop_last() =~= d.take(i));
            assert(d.take(i + 1).last() == s@[k as int]);
            assert(is_hex_digit(d[i]));
        }
        let v = hex_digit(s[k]).unwrap();
        if acc > (i64::MAX - v as i64) / 16 {
            proof {
                lemma_hex_number_grows(d, i + 1);
                assert(hex_number(d.take(i + 1)) == 16 * acc + v);
            }
            return None;
        }
        acc = acc * 16 + v as i64;
        k = k + 1;
    }
    proof {
        assert(d.take(d.len() as int) =~= d);
    }
    Some(acc)
}

/// Value of the decimal digits `s[lo..hi]` when it fits in `i64`.
fn dec_value(s: &[char], lo: usize, hi: usize) -> (r: Option<i64>)
    requires
        lo <= hi <= s@.len(),
        all_dec(s@.subrange(lo as int, hi as int)),
    ensures
        match r {
            Some(v) => v as int == dec_number(s@.subrange(lo as int, hi as int)),
            None => dec_number(s@.subrange(lo as int, hi as int)) > i64::MAX,
        },
{
    let ghost d = s@.subrange(lo as int, hi as int);
    let mut acc: i64 = 0;
    let mut k = lo;
    while k < hi
        invariant
            lo <= k <= hi <= s@.len(),
            d == s@.subrange(lo as int, hi as int),
            all_dec(d),
            0 <= acc,
            acc as int == dec_number(d.take(k - lo)),
        decreases hi - k,
    {
        let ghost i = (k - lo) as int;
        proof {
            assert(d.take(i + 1).drop_last() =~= d.take(i));
            assert(d.take(i + 1).last() == s@[k as int]);
            assert(is_dec_digit(d[i]));
        }
        let v = ((s[k] as u32) - 48) as i64;
        if acc > (i64::MAX - v) / 10 {
            proof {
                lemma_dec_number_grows(d, i + 1);
                assert(dec_number(d.take(i + 1)) == 10 * acc + v);
            }
            return None;
        }
        acc = acc * 10 + v;
        k = k + 1;
    }
    proof {
        assert(d.take(d.len() as int) =~= d);
    }
    Some(acc)
}

fn str_scan_at(s: &[char], j0: usize, quote: char) -> (r: Result<(usize, Vec<char>), LexError>)
    requires
        j0 <= s@.len(),
    ensures
        match r {
            Ok((j, v)) => str_scan(s@, j0 as int, quote, Seq::empty()) == Ok::<(int, Seq<char>), LexError>(
                (j as int, v@),
            ) && j0 < j <= s@.len(),
            Err(e) => str_scan(s@, j0 as int, quote, Seq::empty()) == Err::<(int, Seq<char>), LexError>(e),
        },
{
    let mut j = j0;
    let mut val: Vec<char> = Vec::new();
    while j < s.len()
        invariant
            j0 <= j <= s@.len() + 1,
            str_scan(s@, j0 as int, quote, Seq::empty()) == str_scan(s@, j as int, quote, val@),
        decreases s@.len() + 1 - j,
    {
        if s[j] == quote {
            return Ok((j + 1, val));
        }
        if s[j] == '\\' {
            if j + 1 >= s.len() {
                return Err(LexError::EscapeIncomplete);
            }
            let c = s[j + 1];
            val.push(if c == 'n' { '\n' } else if c == 'r' { '\r' } else if c == 't' { '\t' } else { c });
            j = j + 2;
        } else {
            val.push(s[j]);
            j = j + 1;
        }
    }
    Err(LexError::Unterminated)
}

fn push_tok(out: &mut Vec<Token>, t: Token)
    ensures
        toks_view(final(out)@) == toks_view(old(out)@).push(tok_view(t)),
        final(out)@ == old(out)@.push(t),
{
    out.push(t);
    proof {
        assert(toks_view(final(out)@) =~= toks_view(old(out)@).push(tok_view(t)));
    }
}

proof fn lemma_prepend_push(pre: Seq<TokenV>, t: TokenV, r: Result<Seq<TokenV>, LexError>)
    ensures
        prepend_toks(pre, prepend_toks(seq![t], r)) == prepend_toks(pre.push(t), r),
{
    if let Ok(x) = r {
        assert(pre + (seq![t] + x) =~= pre.push(t) + x);
    }
}

proof fn lemma_prepend_concat(pre: Seq<TokenV>, t: Seq<TokenV>, r: Result<Seq<TokenV>, LexError>)
    ensures
        prepend_toks(pre, prepend_toks(t, r)) == prepend_toks(pre + t, r),
{
    if let Ok(x) = r {
        assert(pre + (t + x) =~= (pre + t) + x);
    }
}

/// The UTF-8 encoding of `c` (see [`utf8_of`]).
fn utf8_bytes(c: char) -> (r: Vec<u8>)
    ensures
        r@ == utf8_of(c),
{
    let u = c as u32;
    if u < 0x80 {
        vec![u as u8]
    } else if u < 0x800 {
        vec![(0xC0 + u / 64) as u8, (0x80 + u % 64) as u8]
    } else if u < 0x1_0000 {
        vec![(0xE0 + u / 4096) as u8, (0x80 + (u / 64) % 64) as u8, (0x80 + u % 64) as u8]
    } else {
        vec![
            (0xF0 + u / 262144) as u8,
            (0x80 + (u / 4096) % 64) as u8,
            (0x80 + (u / 64) % 64) as u8,
            (0x80 + u % 64) as u8,
        ]
    }
}

/// Appends the symbols of `c` (see [`symbol_toks`]).
fn push_symbols(out: &mut Vec<Token>, c: char)
    requires
        ints_ok(old(out)@),
    ensures
        toks_view(final(out)@) == toks_view(old(out)@) + symbol_toks(c),
        ints_ok(final(out)@),
{
    let bytes = utf8_bytes(c);
    let ghost start = out@;
    let mut k: usize = 0;
    while k < bytes.len()
        invariant
            k <= bytes@.len(),
            bytes@ == utf8_of(c),
            toks_view(out@) == toks_view(start) + symbol_toks(c).take(k as int),
            ints_ok(out@),
        decreases bytes.len() - k,
    {
        let ghost old_out = out@;
        out.push(Token::Symbol(bytes[k] as char));
        proof {
            assert(out@ =~= old_out.push(Token::Symbol(bytes@[k as int] as char)));
            assert(symbol_toks(c).take(k + 1) =~= symbol_toks(c).take(k as int).push(TokenV::Symbol(bytes@[k as int] as char)));
            assert(toks_view(out@) =~= toks_view(old_out).push(TokenV::Symbol(bytes@[k as int] as char)));
            assert forall|m: int| 0 <= m < out@.len() implies (#[trigger] out@[m] is Integer ==> out@[m]->Integer_0 >= 0) by {
                if m < old_out.len() {
                    assert(out@[m] == old_out[m]);
                }
            }
        }
        k = k + 1;
    }
    proof {
        assert(symbol_toks(c).take(k as int) =~= symbol_toks(c));
    }
}

/// Prepends `pre` to a token result.
pub open spec fn prepend_toks(pre: Seq<TokenV>, r: Result<Seq<TokenV>, LexError>) -> Result<Seq<TokenV>, LexError> {
    match r {
        Ok(x) => Ok(pre + x),
        Err(e) => Err(e),
    }
}

/// One lexing step at `i`: the token found there (if any) and where the
/// next step starts.
fn lex_one(s: &[char], i: usize) -> (r: Result<(Option<Token>, usize), LexError>)
    requires
        i < s@.len(),
    ensures
        match r {
            Ok((t, j)) => i < j <= s@.len() && match t {
                Some(x) => lex_from(s@, i as int) == prepend_toks(step_toks(x), lex_from(s@, j as int))
                    && (x is Integer ==> x->Integer_0 >= 0),
                None => lex_from(s@, i as int) == lex_from(s@, j as int),
            },
            Err(e) => lex_from(s@, i as int) == Err::<Seq<TokenV>, LexError>(e),
        },
{
    let c = s[i];
    proof {
        assert(prepend_toks(Seq::empty(), lex_from(s@, (i + 1) as int)) == lex_from(s@, (i + 1) as int)) by {
            if let Ok(x) = lex_from(s@, (i + 1) as int) {
                assert(Seq::<TokenV>::empty() + x =~= x);
            }
        }
    }
    if c == ' ' || c == '\t' || c == '\n' || c == '\x0C' || c == '\r' {
        return Ok((None, i + 1));
    }
    if c == '-' && i + 1 < s.len() && s[i + 1] == '-' {
        let j = i + 2;
        let e = if s.len() - j > 1 && s[j] == '[' && s[j + 1] == '[' {
            let k = block_close_at(s, j + 2);
            if s.len() - k > 2 { k + 2 } else { s.len() }
        } else {
            line_end_at(s, j)
        };
        proof {
            assert(prepend_toks(Seq::empty(), lex_from(s@, e as int)) == lex_from(s@, e as int)) by {
                if let Ok(x) = lex_from(s@, e as int) {
                    assert(Seq::<TokenV>::empty() + x =~= x);
                }
            }
        }
        return Ok((None, e));
    }
    if c == '\'' || c == '"' {
        return match str_scan_at(s, i + 1, c) {
            Err(e) => Err(e),
            Ok((j, v)) => Ok((Some(Token::Str(v)), j)),
        };
    }
    if ('a' <= c && c <= 'z') || ('A' <= c && c <= 'Z') || c == '_' {
        let j = ident_end_at(s, i + 1);
        return Ok((Some(Token::Ident(sub_chars(s, i, j))), j));
    }
    if c == '0' && i + 1 < s.len() && (s[i + 1] == 'x' || s[i + 1] == 'X') {
        let j = hex_end_at(s, i + 2);
        if j == i + 2 {
            return Err(LexError::HexNoDigits);
        }
        return match hex_value(s, i + 2, j) {
            None => Err(LexError::HexInvalid),
            Some(v) => Ok((Some(Token::Integer(v)), j)),
        };
    }
    if '0' <= c && c <= '9' {
        let j = dec_end_at(s, i + 1);
        proof {
            assert(s@.subrange(i as int, j as int) =~= seq![c] + s@.subrange(i + 1, j as int));
            assert forall|m: int| 0 <= m < j - i implies is_dec_digit(#[trigger] s@.subrange(i as int, j as int)[m]) by {
                if m > 0 {
                    assert(s@.subrange(i as int, j as int)[m] == s@.subrange(i + 1, j as int)[m - 1]);
                }
            }
        }
        return match dec_value(s, i, j) {
            None => Err(LexError::DecInvalid),
            Some(v) => Ok((Some(Token::Integer(v)), j)),
        };
    }
    proof {
        assert(lex_from(s@, i as int) == (match lex_from(s@, i + 1) {
            Err(e) => Err(e),
            Ok(rest) => Ok(symbol_toks(c) + rest),
        }));
    }
    Ok((Some(Token::Symbol(c)), i + 1))
}

/// Tokenises a Lua source for the OLED analysis.
pub fn lex(source: &[char]) -> (r: Result<Vec<Token>, LexError>)
    ensures
        match r {
            Ok(t) => lex_from(source@, 0) == Ok::<Seq<TokenV>, LexError>(toks_view(t@)) && ints_ok(t@),
            Err(e) => lex_from(source@, 0) == Err::<Seq<TokenV>, LexError>(e),
        },
{
    let mut out: Vec<Token> = Vec::new();
    let mut i: usize = 0;
    proof {
        if let Ok(x) = lex_from(source@, 0) {
            assert(toks_view(out@) + x =~= x);
        }
    }
    while i < source.len()
        invariant
            i <= source@.len(),
            ints_ok(out@),
            lex_from(source@, 0) == prepend_toks(toks_view(out@), lex_from(source@, i as int)),
        decreases source.len() - i,
    {
        let ghost before = toks_view(out@);
        match lex_one(source, i) {
            Err(e) => {
                return Err(e);
            },
            Ok((t, j)) => {
                match t {
                    Some(Token::Symbol(c)) => {
                        push_symbols(&mut out, c);
                        proof {
                            lemma_prepend_concat(before, symbol_toks(c), lex_from(source@, j as int));
                        }
                    },
                    Some(tok) => {
                        let ghost old_out = out@;
                        push_tok(&mut out, tok);
                        proof {
                            assert(out@ =~= old_out.push(tok));
                            assert forall|k: int| 0 <= k < out@.len() implies (#[trigger] out@[k] is Integer ==> out@[k]->Integer_0 >= 0) by {
                                if k < old_out.len() {
                                    assert(out@[k] == old_out[k]);
                                }
                            }
                        }
                        proof {
                            lemma_prepend_push(before, tok_view(tok), lex_from(source@, j as int));
                        }
                    },
                    None => {},
                }
                i = j;
            },
        }
    }
    proof {
        assert(toks_view(out@) + Seq::<TokenV>::empty() =~= toks_view(out@));
    }
    Ok(out)
}

// ─── analysis specification ─────────────────────────────────────────────

/// The string argument of a call whose arguments start at `idx`
/// (`f "x"`, `f("x")`).
pub open spec fn call_str_arg(t: Seq<TokenV>, idx: int) -> Option<Seq<char>> {
    let k = if 0 <= idx < t.len() && t[idx] == TokenV::Symbol('(') { idx + 1 } else { idx };
    if 0 <= k < t.len() {
        match t[k] {
            TokenV::Str(v) => Some(v),
            _ => None,
        }
    } else {
        None
    }
}

/// A static integer argument: a literal, possibly negated.
pub open spec fn static_int(a: Seq<TokenV>) -> Option<int> {
    if a.len() == 1 {
        match a[0] {
            TokenV::Integer(v) => Some(v),
            _ => None,
        }
    } else if a.len() == 2 && a[0] == TokenV::Symbol('-') {
        match a[1] {
            TokenV::Integer(v) => Some(-v),
            _ => None,
        }
    } else {
        None
    }
}

/// Splits call arguments: from `idx` at nesting `depth`, the current
/// argument starting at `start`. Gives the argument ranges and the position
/// after the closing parenthesis, or `None` when it is missing.
pub open spec fn split_from(t: Seq<TokenV>, idx: int, depth: int, start: int, args: Seq<(int, int)>) -> Option<(Seq<(int, int)>, int)>
    decreases t.len() - idx,
{
    if idx < 0 || idx >= t.len() {
        None
    } else {
        match t[idx] {
            TokenV::Symbol(c) => if c == '(' || c == '{' || c == '[' {
                split_from(t, idx + 1, depth + 1, start, args)
            } else if c == ')' && depth == 0 {
                Some((args.push((start, idx)), idx + 1))
            } else if c == ')' || c == '}' || c == ']' {
                split_from(t, idx + 1, depth - 1, start, args)
            } else if c == ',' && depth == 0 {
                split_from(t, idx + 1, depth, idx + 1, args.push((start, idx)))
            } else {
                split_from(t, idx + 1, depth, start, args)
            },
            _ => split_from(t, idx + 1, depth, start, args),
        }
    }
}

/// The arguments of the call whose `(` is at `open`.
pub open spec fn split_args(t: Seq<TokenV>, open: int) -> Option<(Seq<(int, int)>, int)> {
    split_from(t, open + 1, 0, open + 1, Seq::empty())
}

/// `require("oled")` (or `require "oled"`) at `i`.
pub open spec fn require_at(t: Seq<TokenV>, i: int) -> bool {
    0 <= i < t.len() && t[i] == TokenV::Ident("require"@) && call_str_arg(t, i + 1) == Some("oled"@)
}

/// `a = require("oled")` at `i`.
pub open spec fn alias_at(t: Seq<TokenV>, i: int, a: Seq<char>) -> bool {
    require_at(t, i) && i >= 2 && t[i - 1] == TokenV::Symbol('=') && t[i - 2] == TokenV::Ident(a)
}

/// Names under which the OLED module is used.
pub open spec fn is_alias(t: Seq<TokenV>, a: Seq<char>) -> bool {
    a == "oled"@ || exists|i: int| 0 <= i < t.len() && #[trigger] alias_at(t, i, a)
}

/// The analysis state: whether OLED is used, the glyph codes and static
/// texts per font size (8 and 16, present once a call uses the size), and
/// the fill bytes. Code and text lists are kept sorted without repeats.
pub struct PlanV {
    pub uses: bool,
    pub g8: Option<Seq<u32>>,
    pub g16: Option<Seq<u32>>,
    pub t8: Option<Seq<Seq<char>>>,
    pub t16: Option<Seq<Seq<char>>>,
    pub fill: Seq<u8>,
}

/// `x` inserted into the sorted list `s` unless it is there.
pub open spec fn ins_u32(s: Seq<u32>, x: u32) -> Seq<u32>
    decreases s.len(),
{
    if s.len() == 0 {
        seq![x]
    } else if x < s[0] {
        seq![x] + s
    } else if x == s[0] {
        s
    } else {
        seq![s[0]] + ins_u32(s.drop_first(), x)
    }
}

/// `x` inserted into the sorted list `s` unless it is there.
pub open spec fn ins_u8(s: Seq<u8>, x: u8) -> Seq<u8>
    decreases s.len(),
{
    if s.len() == 0 {
        seq![x]
    } else if x < s[0] {
        seq![x] + s
    } else if x == s[0] {
        s
    } else {
        seq![s[0]] + ins_u8(s.drop_first(), x)
    }
}

/// Code-point (equivalently UTF-8 byte) lexicographic order of strings.
pub open spec fn str_lt(a: Seq<char>, b: Seq<char>) -> bool
    decreases a.len(),
{
    if a.len() == 0 {
        b.len() > 0
    } else if b.len() == 0 {
        false
    } else if a[0] < b[0] {
        true
    } else if a[0] > b[0] {
        false
    } else {
        str_lt(a.drop_first(), b.drop_first())
    }
}

/// The string order is strict and total: never both ways round, passed
/// along chains, and any two different strings are ordered one way.
pub proof fn law_str_lt_order(a: Seq<char>, b: Seq<char>, c: Seq<char>)
    ensures
        str_lt(a, b) ==> !str_lt(b, a),
        str_lt(a, b) && str_lt(b, c) ==> str_lt(a, c),
        a != b ==> str_lt(a, b) || str_lt(b, a),
    decreases a.len(),
{
    if a.len() > 0 && b.len() > 0 {
        if a[0] == b[0] {
            if c.len() > 0 && b[0] == c[0] {
                law_str_lt_order(a.drop_first(), b.drop_first(), c.drop_first());
            } else {
                law_str_lt_order(a.drop_first(), b.drop_first(), b.drop_first());
            }
            if a != b {
                assert(a.drop_first() != b.drop_first()) by {
                    if a.drop_first() == b.drop_first() {
                        assert(a =~= seq![a[0]] + a.drop_first());
                        assert(b =~= seq![b[0]] + b.drop_first());
                    }
                }
            }
        }
    } else if a.len() == 0 && b.len() == 0 {
        assert(a =~= b);
    }
}

/// `x` inserted into the sorted string list `s` unless it is there.
pub open spec fn ins_str(s: Seq<Seq<char>>, x: Seq<char>) -> Seq<Seq<char>>
    decreases s.len(),
{
    if s.len() == 0 {
        seq![x]
    } else if str_lt(x, s[0]) {
        seq![x] + s
    } else if x == s[0] {
        s
    } else {
        seq![s[0]] + ins_str(s.drop_first(), x)
    }
}

/// All of `xs` inserted, in order.
pub open spec fn ins_all(s: Seq<u32>, xs: Seq<u32>) -> Seq<u32>
    decreases xs.len(),
{
    if xs.len() == 0 {
        s
    } else {
        ins_all(ins_u32(s, xs[0]), xs.drop_first())
    }
}

/// Glyphs always present for a used size: digits, `.`, `-` and space.
pub open spec fn number_glyphs() -> Seq<u32> {
    seq![0x30u32, 0x31, 0x32, 0x33, 0x34, 0x35, 0x36, 0x37, 0x38, 0x39, 0x2E, 0x2D, 0x20]
}

/// Code points of a string.
pub open spec fn codes_of(v: Seq<char>) -> Seq<u32> {
    v.map_values(|c: char| c as u32)
}

/// Signed decimal notation.
pub open spec fn sdec(v: int) -> Seq<char> {
    if v < 0 {
        seq!['-'] + dec((-v) as nat)
    } else {
        dec(v as nat)
    }
}

pub open spec fn msg_paren() -> Seq<char> {
    "OLED 调用缺少右括号"@
}

pub open spec fn msg_fill_static(alias: Seq<char>) -> Seq<char> {
    alias + ".fill 的填充值必须是静态整数 0..255；当前精简 Core 无动态字节转换函数"@
}

pub open spec fn msg_fill_range(alias: Seq<char>, v: int) -> Seq<char> {
    alias + ".fill 的填充值 "@ + sdec(v) + " 超出 0..255"@
}

pub open spec fn msg_size_missing(alias: Seq<char>, method: Seq<char>) -> Seq<char> {
    alias + "."@ + method + " 必须显式提供字号（仅支持 8 或 16）"@
}

pub open spec fn msg_size_static(alias: Seq<char>, method: Seq<char>) -> Seq<char> {
    alias + "."@ + method + " 的字号必须是静态整数 8 或 16，不能使用变量"@
}

pub open spec fn msg_size_bad(v: int) -> Seq<char> {
    "不支持 OLED 字号 "@ + sdec(v) + "；当前仅支持 8 和 16"@
}

pub open spec fn msg_text_missing(alias: Seq<char>) -> Seq<char> {
    alias + ".text 缺少文本参数"@
}

pub open spec fn msg_text_static(alias: Seq<char>) -> Seq<char> {
    alias + ".text 的文本必须是静态字符串；变量数值请使用 oled.number"@
}

/// The message for a lexing error.
pub open spec fn msg_lex(e: LexError) -> Seq<char> {
    match e {
        LexError::EscapeIncomplete => "Lua 字符串转义不完整"@,
        LexError::Unterminated => "Lua 字符串缺少结束引号"@,
        LexError::HexNoDigits => "OLED 十六进制整数缺少数字"@,
        LexError::HexInvalid => "OLED 十六进制整数无效"@,
        LexError::DecInvalid => "OLED 字号整数无效"@,
    }
}

/// The tokens of argument `k`.
pub open spec fn arg_toks(t: Seq<TokenV>, args: Seq<(int, int)>, k: int) -> Seq<TokenV> {
    t.subrange(args[k].0, args[k].1)
}

/// The glyph list of `size` with `xs` added (the size becomes present).
pub open spec fn add_glyphs(p: PlanV, size: int, xs: Seq<u32>) -> PlanV {
    if size == 8 {
        PlanV { g8: Some(ins_all(match p.g8 { Some(g) => g, None => Seq::empty() }, xs)), ..p }
    } else {
        PlanV { g16: Some(ins_all(match p.g16 { Some(g) => g, None => Seq::empty() }, xs)), ..p }
    }
}

/// The static text `v` recorded for `size`.
pub open spec fn add_text(p: PlanV, size: int, v: Seq<char>) -> PlanV {
    if size == 8 {
        PlanV { t8: Some(ins_str(match p.t8 { Some(g) => g, None => Seq::empty() }, v)), ..p }
    } else {
        PlanV { t16: Some(ins_str(match p.t16 { Some(g) => g, None => Seq::empty() }, v)), ..p }
    }
}

/// A `<alias>.<method>(` call at `i`.
pub open spec fn call_at(t: Seq<TokenV>, i: int) -> bool {
    &&& 0 <= i && i + 3 < t.len()
    &&& t[i] is Ident && is_alias(t, t[i]->Ident_0)
    &&& t[i + 1] == TokenV::Symbol('.')
    &&& t[i + 2] is Ident
    &&& t[i + 3] == TokenV::Symbol('(')
}

/// The effect of a `text`/`number` call at `i` with arguments `args`.
pub open spec fn size_call(t: Seq<TokenV>, i: int, args: Seq<(int, int)>, p: PlanV) -> Result<PlanV, Seq<char>> {
    let alias = t[i]->Ident_0;
    let method = t[i + 2]->Ident_0;
    let si = if method == "text"@ { 3int } else { 4int };
    if args.len() <= si {
        Err(msg_size_missing(alias, method))
    } else {
        match static_int(arg_toks(t, args, si)) {
            None => Err(msg_size_static(alias, method)),
            Some(size) => if size != 8 && size != 16 {
                Err(msg_size_bad(size))
            } else {
                let p1 = add_glyphs(p, size, number_glyphs());
                if method == "text"@ {
                    if args.len() <= 2 {
                        Err(msg_text_missing(alias))
                    } else {
                        let a = arg_toks(t, args, 2);
                        if a.len() == 1 && a[0] is Str {
                            let v = a[0]->Str_0;
                            Ok(add_text(add_glyphs(p1, size, codes_of(v)), size, v))
                        } else {
                            Err(msg_text_static(alias))
                        }
                    }
                } else {
                    Ok(p1)
                }
            },
        }
    }
}

/// The OLED calls from position `i` on, applied to `p`.
pub open spec fn scan(t: Seq<TokenV>, i: int, p: PlanV) -> Result<PlanV, Seq<char>>
    decreases t.len() - i,
{
    if i < 0 || i + 3 >= t.len() {
        Ok(p)
    } else if !call_at(t, i) {
        scan(t, i + 1, p)
    } else {
        let alias = t[i]->Ident_0;
        let method = t[i + 2]->Ident_0;
        let p1 = PlanV { uses: true, ..p };
        if method == "clear"@ {
            scan(t, i + 3, PlanV { fill: ins_u8(p1.fill, 0), ..p1 })
        } else if method == "fill"@ {
            match split_args(t, i + 3) {
                None => Err(msg_paren()),
                Some((args, end)) => {
                    let v = if args.len() > 0 { static_int(arg_toks(t, args, 0)) } else { None };
                    match v {
                        None => Err(msg_fill_static(alias)),
                        Some(x) => if !(0 <= x <= 255) {
                            Err(msg_fill_range(alias, x))
                        } else if i < end <= t.len() {
                            scan(t, end, PlanV { fill: ins_u8(p1.fill, x as u8), ..p1 })
                        } else {
                            Ok(p1)
                        },
                    }
                },
            }
        } else if method != "text"@ && method != "number"@ {
            scan(t, i + 3, p1)
        } else {
            match split_args(t, i + 3) {
                None => Err(msg_paren()),
                Some((args, end)) => match size_call(t, i, args, p1) {
                    Err(m) => Err(m),
                    Ok(p2) => if i < end <= t.len() {
                        scan(t, end, p2)
                    } else {
                        Ok(p2)
                    },
                },
            }
        }
    }
}

/// The analysis of a token sequence.
pub open spec fn analyze_tokens(t: Seq<TokenV>) -> Result<PlanV, Seq<char>> {
    let start = PlanV {
        uses: exists|i: int| 0 <= i < t.len() && #[trigger] require_at(t, i),
        g8: None,
        g16: None,
        t8: None,
        t16: None,
        fill: Seq::empty(),
    };
    scan(t, 0, start)
}

/// The analysis of a Lua source.
pub open spec fn analyze(source: Seq<char>) -> Result<PlanV, Seq<char>> {
    match lex_from(source, 0) {
        Err(e) => Err(msg_lex(e)),
        Ok(t) => analyze_tokens(t),
    }
}

/// Strictly increasing codes: sorted, no code twice.
pub open spec fn codes_rising(s: Seq<u32>) -> bool {
    forall|i: int, j: int| 0 <= i < j < s.len() ==> #[trigger] s[i] < #[trigger] s[j]
}

/// Strictly increasing bytes: sorted, no byte twice.
pub open spec fn bytes_rising(s: Seq<u8>) -> bool {
    forall|i: int, j: int| 0 <= i < j < s.len() ==> #[trigger] s[i] < #[trigger] s[j]
}

/// Strictly increasing strings: sorted, no string twice.
pub open spec fn strs_rising(s: Seq<Seq<char>>) -> bool {
    forall|i: int, j: int| 0 <= i < j < s.len() ==> str_lt(#[trigger] s[i], #[trigger] s[j])
}

/// The lists of a plan are kept as sorted sets: glyph codes and fill
/// bytes rising, static texts rising in string order.
pub open spec fn plan_ordered(p: PlanV) -> bool {
    &&& (p.g8 matches Some(g) ==> codes_rising(g))
    &&& (p.g16 matches Some(g) ==> codes_rising(g))
    &&& (p.t8 matches Some(x) ==> strs_rising(x))
    &&& (p.t16 matches Some(x) ==> strs_rising(x))
    &&& bytes_rising(p.fill)
}

proof fn lemma_ins_u32(s: Seq<u32>, x: u32)
    requires
        codes_rising(s),
    ensures
        codes_rising(ins_u32(s, x)),
        forall|k: int| 0 <= k < ins_u32(s, x).len() ==> #[trigger] ins_u32(s, x)[k] == x || s.contains(ins_u32(s, x)[k]),
    decreases s.len(),
{
    let r = ins_u32(s, x);
    if s.len() > 0 && x > s[0] {
        let rest = s.drop_first();
        lemma_ins_u32(rest, x);
        let t = ins_u32(rest, x);
        assert forall|k: int| 0 <= k < r.len() implies #[trigger] r[k] == x || s.contains(r[k]) by {
            if k > 0 {
                assert(r[k] == t[k - 1]);
                if t[k - 1] != x {
                    let m = choose|m: int| 0 <= m < rest.len() && rest[m] == t[k - 1];
                    assert(s[m + 1] == r[k]);
                }
            } else {
                assert(s[0] == r[0]);
            }
        }
        assert forall|i: int, j: int| 0 <= i < j < r.len() implies #[trigger] r[i] < #[trigger] r[j] by {
            if i == 0 {
                assert(r[j] == t[j - 1]);
                if t[j - 1] != x {
                    let m = choose|m: int| 0 <= m < rest.len() && rest[m] == t[j - 1];
                    assert(s[0] < s[m + 1]);
                }
            } else {
                assert(r[i] == t[i - 1] && r[j] == t[j - 1]);
            }
        }
    } else if s.len() > 0 && x < s[0] {
        assert forall|k: int| 0 <= k < r.len() implies #[trigger] r[k] == x || s.contains(r[k]) by {
            if k > 0 {
                assert(r[k] == s[k - 1]);
            }
        }
        assert forall|i: int, j: int| 0 <= i < j < r.len() implies #[trigger] r[i] < #[trigger] r[j] by {
            assert(r[j] == s[j - 1]);
            if i > 0 {
                assert(r[i] == s[i - 1]);
            }
        }
    }
}

proof fn lemma_ins_u8(s: Seq<u8>, x: u8)
    requires
        bytes_rising(s),
    ensures
        bytes_rising(ins_u8(s, x)),
        forall|k: int| 0 <= k < ins_u8(s, x).len() ==> #[trigger] ins_u8(s, x)[k] == x || s.contains(ins_u8(s, x)[k]),
    decreases s.len(),
{
    let r = ins_u8(s, x);
    if s.len() > 0 && x > s[0] {
        let rest = s.drop_first();
        lemma_ins_u8(rest, x);
        let t = ins_u8(rest, x);
        assert forall|k: int| 0 <= k < r.len() implies #[trigger] r[k] == x || s.contains(r[k]) by {
            if k > 0 {
                assert(r[k] == t[k - 1]);
                if t[k - 1] != x {
                    let m = choose|m: int| 0 <= m < rest.len() && rest[m] == t[k - 1];
                    assert(s[m + 1] == r[k]);
                }
            } else {
                assert(s[0] == r[0]);
            }
        }
        assert forall|i: int, j: int| 0 <= i < j < r.len() implies #[trigger] r[i] < #[trigger] r[j] by {
            if i == 0 {
                assert(r[j] == t[j - 1]);
                if t[j - 1] != x {
                    let m = choose|m: int| 0 <= m < rest.len() && rest[m] == t[j - 1];
                    assert(s[0] < s[m + 1]);
                }
            } else {
                assert(r[i] == t[i - 1] && r[j] == t[j - 1]);
            }
        }
    } else if s.len() > 0 && x < s[0] {
        assert forall|k: int| 0 <= k < r.len() implies #[trigger] r[k] == x || s.contains(r[k]) by {
            if k > 0 {
                assert(r[k] == s[k - 1]);
            }
        }
        assert forall|i: int, j: int| 0 <= i < j < r.len() implies #[trigger] r[i] < #[trigger] r[j] by {
            assert(r[j] == s[j - 1]);
            if i > 0 {
                assert(r[i] == s[i - 1]);
            }
        }
    }
}

pub proof fn lemma_ins_str(s: Seq<Seq<char>>, x: Seq<char>)
    requires
        strs_rising(s),
    ensures
        strs_rising(ins_str(s, x)),
        forall|k: int| 0 <= k < ins_str(s, x).len() ==> #[trigger] ins_str(s, x)[k] == x || s.contains(ins_str(s, x)[k]),
    decreases s.len(),
{
    let r = ins_str(s, x);
    if s.len() > 0 && !str_lt(x, s[0]) && x != s[0] {
        law_str_lt_order(x, s[0], s[0]);
        assert(str_lt(s[0], x));
        let rest = s.drop_first();
        lemma_ins_str(rest, x);
        let t = ins_str(rest, x);
        assert forall|k: int| 0 <= k < r.len() implies #[trigger] r[k] == x || s.contains(r[k]) by {
            if k > 0 {
                assert(r[k] == t[k - 1]);
                if t[k - 1] != x {
                    let m = choose|m: int| 0 <= m < rest.len() && rest[m] == t[k - 1];
                    assert(s[m + 1] == r[k]);
                }
            } else {
                assert(s[0] == r[0]);
            }
        }
        assert forall|i: int, j: int| 0 <= i < j < r.len() implies str_lt(#[trigger] r[i], #[trigger] r[j]) by {
            if i == 0 {
                assert(r[j] == t[j - 1]);
                if t[j - 1] != x {
                    let m = choose|m: int| 0 <= m < rest.len() && rest[m] == t[j - 1];
                    assert(str_lt(s[0], s[m + 1]));
                }
            } else {
                assert(r[i] == t[i - 1] && r[j] == t[j - 1]);
            }
        }
    } else if s.len() > 0 && str_lt(x, s[0]) {
        assert forall|k: int| 0 <= k < r.len() implies #[trigger] r[k] == x || s.contains(r[k]) by {
            if k > 0 {
                assert(r[k] == s[k - 1]);
            }
        }
        assert forall|i: int, j: int| 0 <= i < j < r.len() implies str_lt(#[trigger] r[i], #[trigger] r[j]) by {
            assert(r[j] == s[j - 1]);
            if i > 0 {
                assert(r[i] == s[i - 1]);
            } else if j > 1 {
                law_str_lt_order(x, s[0], s[j - 1]);
            }
        }
    }
}

proof fn lemma_ins_all(s: Seq<u32>, xs: Seq<u32>)
    requires
        codes_rising(s),
    ensures
        codes_rising(ins_all(s, xs)),
    decreases xs.len(),
{
    if xs.len() > 0 {
        lemma_ins_u32(s, xs[0]);
        lemma_ins_all(ins_u32(s, xs[0]), xs.drop_first());
    }
}

proof fn lemma_add_glyphs(p: PlanV, size: int, xs: Seq<u32>)
    requires
        plan_ordered(p),
    ensures
        plan_ordered(add_glyphs(p, size, xs)),
{
    lemma_ins_all(match p.g8 { Some(g) => g, None => Seq::empty() }, xs);
    lemma_ins_all(match p.g16 { Some(g) => g, None => Seq::empty() }, xs);
}

proof fn lemma_add_text(p: PlanV, size: int, v: Seq<char>)
    requires
        plan_ordered(p),
    ensures
        plan_ordered(add_text(p, size, v)),
{
    lemma_ins_str(match p.t8 { Some(g) => g, None => Seq::empty() }, v);
    lemma_ins_str(match p.t16 { Some(g) => g, None => Seq::empty() }, v);
}

proof fn lemma_size_call(t: Seq<TokenV>, i: int, args: Seq<(int, int)>, p: PlanV)
    requires
        plan_ordered(p),
    ensures
        size_call(t, i, args, p) is Ok ==> plan_ordered(size_call(t, i, args, p)->Ok_0),
{
    if size_call(t, i, args, p) is Ok {
        let method = t[i + 2]->Ident_0;
        let si = if method == "text"@ { 3int } else { 4int };
        let size = static_int(arg_toks(t, args, si))->Some_0;
        let p1 = add_glyphs(p, size, number_glyphs());
        lemma_add_glyphs(p, size, number_glyphs());
        if method == "text"@ {
            let a = arg_toks(t, args, 2);
            let v = a[0]->Str_0;
            lemma_add_glyphs(p1, size, codes_of(v));
            lemma_add_text(add_glyphs(p1, size, codes_of(v)), size, v);
        }
    }
}

proof fn lemma_scan_ordered(t: Seq<TokenV>, i: int, p: PlanV)
    requires
        plan_ordered(p),
    ensures
        scan(t, i, p) is Ok ==> plan_ordered(scan(t, i, p)->Ok_0),
    decreases t.len() - i,
{
    if !(i < 0 || i + 3 >= t.len()) {
        if !call_at(t, i) {
            lemma_scan_ordered(t, i + 1, p);
        } else {
            let method = t[i + 2]->Ident_0;
            let p1 = PlanV { uses: true, ..p };
            if method == "clear"@ {
                lemma_ins_u8(p1.fill, 0);
                lemma_scan_ordered(t, i + 3, PlanV { fill: ins_u8(p1.fill, 0), ..p1 });
            } else if method == "fill"@ {
                if let Some((args, end)) = split_args(t, i + 3) {
                    let v = if args.len() > 0 { static_int(arg_toks(t, args, 0)) } else { None };
                    if let Some(x) = v {
                        if 0 <= x <= 255 && i < end <= t.len() {
                            lemma_ins_u8(p1.fill, x as u8);
                            lemma_scan_ordered(t, end, PlanV { fill: ins_u8(p1.fill, x as u8), ..p1 });
                        }
                    }
                }
            } else if method != "text"@ && method != "number"@ {
                lemma_scan_ordered(t, i + 3, p1);
            } else {
                if let Some((args, end)) = split_args(t, i + 3) {
                    lemma_size_call(t, i, args, p1);
                    if size_call(t, i, args, p1) is Ok && i < end <= t.len() {
                        lemma_scan_ordered(t, end, size_call(t, i, args, p1)->Ok_0);
                    }
                }
            }
        }
    }
}

/// The analysis keeps sets: for every source it accepts, each font size's
/// glyph codes and the fill bytes come rising with no repeat, and each
/// size's static texts come rising in string order with no repeat.
pub proof fn law_analysis_sorted_sets(source: Seq<char>)
    ensures
        analyze(source) is Ok ==> plan_ordered(analyze(source)->Ok_0),
{
    if let Ok(t) = lex_from(source, 0) {
        let start = PlanV {
            uses: exists|i: int| 0 <= i < t.len() && #[trigger] require_at(t, i),
            g8: None,
            g16: None,
            t8: None,
            t16: None,
            fill: Seq::empty(),
        };
        lemma_scan_ordered(t, 0, start);
    }
}

// ─── analysis helpers ──────────────────────────────────────────────────

/// Integer tokens are non-negative (as the lexer makes them).
pub open spec fn ints_ok(t: Seq<Token>) -> bool {
    forall|k: int| 0 <= k < t.len() ==> (#[trigger] t[k] is Integer ==> t[k]->Integer_0 >= 0)
}

/// Whether two character sequences are equal.
pub fn chars_eq(a: &[char], b: &[char]) -> (r: bool)
    ensures
        r == (a@ == b@),
{
    if a.len() != b.len() {
        return false;
    }
    let mut i: usize = 0;
    while i < a.len()
        invariant
            i <= a@.len(),
            a@.len() == b@.len(),
            forall|j: int| 0 <= j < i ==> a@[j] == b@[j],
        decreases a.len() - i,
    {
        if a[i] != b[i] {
            return false;
        }
        i = i + 1;
    }
    proof {
        assert(a@ =~= b@);
    }
    true
}

/// Whether `t` is the identifier `word`.
fn is_ident(t: &Token, word: &str) -> (r: bool)
    ensures
        r == (tok_view(*t) == TokenV::Ident(word@)),
{
    match t {
        Token::Ident(v) => {
            let w = chars_of(word);
            chars_eq(v.as_slice(), w.as_slice())
        },
        _ => false,
    }
}

/// Whether `t` is the symbol `c`.
fn is_symbol(t: &Token, c: char) -> (r: bool)
    ensures
        r == (tok_view(*t) == TokenV::Symbol(c)),
{
    match t {
        Token::Symbol(d) => *d == c,
        _ => false,
    }
}

/// The string argument of a call whose arguments start at `idx`.
fn call_string_argument(tokens: &[Token], idx: usize) -> (r: Option<Vec<char>>)
    ensures
        match r {
            Some(v) => call_str_arg(toks_view(tokens@), idx as int) == Some(v@),
            None => call_str_arg(toks_view(tokens@), idx as int) is None,
        },
{
    let ghost t = toks_view(tokens@);
    let mut k = idx;
    if k < tokens.len() && is_symbol(&tokens[k], '(') {
        k = k + 1;
    }
    if k < tokens.len() {
        match &tokens[k] {
            Token::Str(v) => {
                let mut c: Vec<char> = Vec::new();
                append_chars(&mut c, v.as_slice());
                proof {
                    assert(Seq::<char>::empty() + v@ =~= v@);
                }
                Some(c)
            },
            _ => None,
        }
    } else {
        None
    }
}

/// A static integer argument `tokens[lo..hi]`.
fn static_integer(tokens: &[Token], lo: usize, hi: usize) -> (r: Option<i64>)
    requires
        lo <= hi <= tokens@.len(),
        ints_ok(tokens@),
    ensures
        match r {
            Some(v) => static_int(toks_view(tokens@).subrange(lo as int, hi as int)) == Some(v as int),
            None => static_int(toks_view(tokens@).subrange(lo as int, hi as int)) is None,
        },
{
    let ghost a = toks_view(tokens@).subrange(lo as int, hi as int);
    if hi - lo == 1 {
        proof {
            assert(a[0] == tok_view(tokens@[lo as int]));
        }
        match &tokens[lo] {
            Token::Integer(v) => Some(*v),
            _ => None,
        }
    } else if hi - lo == 2 && is_symbol(&tokens[lo], '-') {
        proof {
            assert(a[0] == tok_view(tokens@[lo as int]));
            assert(a[1] == tok_view(tokens@[lo + 1]));
        }
        match &tokens[lo + 1] {
            Token::Integer(v) => {
                proof {
                    assert(tokens@[lo + 1] is Integer ==> tokens@[lo + 1]->Integer_0 >= 0);
                }
                Some(-*v)
            },
            _ => None,
        }
    } else {
        proof {
            if hi - lo == 2 {
                assert(a[0] == tok_view(tokens@[lo as int]));
            }
        }
        None
    }
}

/// Splits the arguments of the call whose `(` is at `open`: argument ranges
/// and the position after the closing parenthesis.
fn split_call_arguments(tokens: &[Token], open: usize) -> (r: Option<(Vec<(usize, usize)>, usize)>)
    requires
        open < tokens@.len(),
    ensures
        match r {
            Some((args, end)) => split_args(toks_view(tokens@), open as int) == Some(
                (args@.map_values(|p: (usize, usize)| (p.0 as int, p.1 as int)), end as int),
            ) && open < end <= tokens@.len() && forall|k: int| 0 <= k < args@.len() ==> (#[trigger] args@[k]).0 <= args@[k].1 <= tokens@.len(),
            None => split_args(toks_view(tokens@), open as int) is None,
        },
{
    let ghost t = toks_view(tokens@);
    let n = tokens.len();
    let mut args: Vec<(usize, usize)> = Vec::new();
    let mut depth: i128 = 0;
    let mut start = open + 1;
    proof {
        assert(args@.map_values(|p: (usize, usize)| (p.0 as int, p.1 as int)) =~= Seq::<(int, int)>::empty());
    }
    let mut idx = open + 1;
    while idx < tokens.len()
        invariant
            open < start <= idx <= tokens@.len(),
            t == toks_view(tokens@),
            -(idx as int) <= depth <= idx as int,
            forall|k: int| 0 <= k < args@.len() ==> (#[trigger] args@[k]).0 <= args@[k].1 <= tokens@.len(),
            split_args(t, open as int) == split_from(
                t,
                idx as int,
                depth as int,
                start as int,
                args@.map_values(|p: (usize, usize)| (p.0 as int, p.1 as int)),
            ),
        decreases tokens.len() - idx,
    {
        let ghost av = args@.map_values(|p: (usize, usize)| (p.0 as int, p.1 as int));
        proof {
            assert(t[idx as int] == tok_view(tokens@[idx as int]));
        }
        match &tokens[idx] {
            Token::Symbol(c) => {
                let c = *c;
                if c == '(' || c == '{' || c == '[' {
                    depth = depth + 1;
                } else if c == ')' && depth == 0 {
                    args.push((start, idx));
                    proof {
                        assert(args@.map_values(|p: (usize, usize)| (p.0 as int, p.1 as int)) =~= av.push((start as int, idx as int)));
                    }
                    return Some((args, idx + 1));
                } else if c == ')' || c == '}' || c == ']' {
                    depth = depth - 1;
                } else if c == ',' && depth == 0 {
                    args.push((start, idx));
                    proof {
                        assert(args@.map_values(|p: (usize, usize)| (p.0 as int, p.1 as int)) =~= av.push((start as int, idx as int)));
                    }
                    start = idx + 1;
                }
            },
            _ => {},
        }
        idx = idx + 1;
    }
    None
}

/// Inserts `x` into the sorted list `v` unless it is there.
fn insert_u32(v: &mut Vec<u32>, x: u32)
    ensures
        final(v)@ == ins_u32(old(v)@, x),
{
    let ghost o = old(v)@;
    let mut j: usize = 0;
    proof {
        assert(o.skip(0) =~= o);
        assert(o.take(0) + ins_u32(o, x) =~= ins_u32(o, x));
    }
    while j < v.len()
        invariant
            j <= v@.len(),
            v@ == o,
            o == old(v)@,
            ins_u32(o, x) == o.take(j as int) + ins_u32(o.skip(j as int), x),
        decreases v.len() - j,
    {
        let ghost rest = o.skip(j as int);
        proof {
            assert(rest[0] == v@[j as int]);
        }
        if x < v[j] {
            v.insert(j, x);
            proof {
                assert(v@ =~= o.take(j as int) + (seq![x] + rest));
            }
            return;
        }
        if x == v[j] {
            proof {
                assert(o.take(j as int) + rest =~= o);
            }
            return;
        }
        proof {
            assert(rest.drop_first() =~= o.skip(j + 1));
            assert(o.take(j as int) + (seq![rest[0]] + ins_u32(o.skip(j + 1), x)) =~= o.take(j + 1) + ins_u32(o.skip(j + 1), x));
        }
        j = j + 1;
    }
    v.push(x);
    proof {
        assert(o.skip(j as int) =~= Seq::<u32>::empty());
        assert(o.take(j as int) =~= o);
    }
}

/// Inserts `x` into the sorted list `v` unless it is there.
fn insert_u8(v: &mut Vec<u8>, x: u8)
    ensures
        final(v)@ == ins_u8(old(v)@, x),
{
    let ghost o = old(v)@;
    let mut j: usize = 0;
    proof {
        assert(o.skip(0) =~= o);
        assert(o.take(0) + ins_u8(o, x) =~= ins_u8(o, x));
    }
    while j < v.len()
        invariant
            j <= v@.len(),
            v@ == o,
            o == old(v)@,
            ins_u8(o, x) == o.take(j as int) + ins_u8(o.skip(j as int), x),
        decreases v.len() - j,
    {
        let ghost rest = o.skip(j as int);
        proof {
            assert(rest[0] == v@[j as int]);
        }
        proof {
            assert(rest.len() > 0 && rest[0] == v@[j as int]);
        }
        if x < v[j] {
            v.insert(j, x);
            proof {
                assert(ins_u8(rest, x) == seq![x] + rest);
                assert(v@ =~= o.take(j as int) + (seq![x] + rest));
            }
            return;
        }
        if x == v[j] {
            proof {
                assert(ins_u8(rest, x) == rest);
                assert(o.take(j as int) + rest =~= o);
            }
            return;
        }
        proof {
            assert(rest.drop_first() =~= o.skip(j + 1));
            assert(o.take(j as int) + (seq![rest[0]] + ins_u8(o.skip(j + 1), x)) =~= o.take(j + 1) + ins_u8(o.skip(j + 1), x));
        }
        j = j + 1;
    }
    v.push(x);
    proof {
        assert(o.skip(j as int) =~= Seq::<u8>::empty());
        assert(o.take(j as int) =~= o);
    }
}

/// Three-way comparison in [`str_lt`] order: -1, 0 or 1.
pub fn compare_chars(a: &[char], b: &[char]) -> (r: i8)
    ensures
        r == -1 <==> str_lt(a@, b@),
        r == 0 <==> a@ == b@,
        r == -1 || r == 0 || r == 1,
{
    let mut k: usize = 0;
    proof {
        assert(a@.skip(0) =~= a@);
        assert(b@.skip(0) =~= b@);
    }
    while k < a.len() && k < b.len()
        invariant
            k <= a@.len(),
            k <= b@.len(),
            forall|j: int| 0 <= j < k ==> a@[j] == b@[j],
            str_lt(a@, b@) == str_lt(a@.skip(k as int), b@.skip(k as int)),
        decreases a.len() - k,
    {
        proof {
            assert(a@.skip(k as int).drop_first() =~= a@.skip(k + 1));
            assert(b@.skip(k as int).drop_first() =~= b@.skip(k + 1));
            assert(a@.skip(k as int)[0] == a@[k as int]);
            assert(b@.skip(k as int)[0] == b@[k as int]);
        }
        if a[k] < b[k] {
            return -1;
        }
        if a[k] > b[k] {
            return 1;
        }
        k = k + 1;
    }
    if a.len() == b.len() {
        proof {
            assert(a@ =~= b@);
        }
        0
    } else if k == a.len() {
        -1
    } else {
        proof {
            assert(a@.len() != b@.len());
        }
        1
    }
}

/// Views of a list of character vectors.
pub open spec fn strs_view(v: Seq<Vec<char>>) -> Seq<Seq<char>> {
    v.map_values(|x: Vec<char>| x@)
}

/// Inserts `x` into the sorted string list `v` unless it is there.
pub(crate) fn insert_str(v: &mut Vec<Vec<char>>, x: Vec<char>)
    ensures
        strs_view(final(v)@) == ins_str(strs_view(old(v)@), x@),
{
    let ghost o = strs_view(old(v)@);
    let ghost xv = x@;
    let mut j: usize = 0;
    proof {
        assert(o.skip(0) =~= o);
        assert(o.take(0) + ins_str(o, xv) =~= ins_str(o, xv));
    }
    while j < v.len()
        invariant
            j <= v@.len(),
            strs_view(v@) == o,
            o == strs_view(old(v)@),
            x@ == xv,
            ins_str(o, xv) == o.take(j as int) + ins_str(o.skip(j as int), xv),
        decreases v.len() - j,
    {
        let ghost rest = o.skip(j as int);
        proof {
            assert(rest[0] == v@[j as int]@);
            assert(rest.len() > 0);
        }
        let c = compare_chars(x.as_slice(), v[j].as_slice());
        if c == -1 {
            v.insert(j, x);
            proof {
                assert(ins_str(rest, xv) == seq![xv] + rest);
                assert(strs_view(v@) =~= o.take(j as int) + (seq![xv] + rest));
            }
            return;
        }
        if c == 0 {
            proof {
                assert(ins_str(rest, xv) == rest);
                assert(o.take(j as int) + rest =~= o);
            }
            return;
        }
        proof {
            assert(rest.drop_first() =~= o.skip(j + 1));
            assert(o.take(j as int) + (seq![rest[0]] + ins_str(o.skip(j + 1), xv)) =~= o.take(j + 1) + ins_str(o.skip(j + 1), xv));
        }
        j = j + 1;
    }
    v.push(x);
    proof {
        assert(o.skip(j as int) =~= Seq::<Seq<char>>::empty());
        assert(o.take(j as int) =~= o);
        assert(strs_view(v@) =~= o.push(xv));
    }
}

/// Appends the signed decimal notation of `v`.
fn push_sdec(out: &mut Vec<char>, v: i64)
    requires
        v > i64::MIN,
    ensures
        final(out)@ == old(out)@ + sdec(v as int),
{
    if v < 0 {
        out.push('-');
        let ghost mid = out@;
        push_decimal(out, (-v) as u64);
        proof {
            assert(final(out)@ =~= old(out)@ + (seq!['-'] + dec((-v) as nat)));
        }
    } else {
        push_decimal(out, v as u64);
    }
}

/// Whether the string list holds `a`.
pub(crate) fn has_str(list: &Vec<Vec<char>>, a: &[char]) -> (r: bool)
    ensures
        r == strs_view(list@).contains(a@),
{
    let mut i: usize = 0;
    while i < list.len()
        invariant
            i <= list@.len(),
            forall|j: int| 0 <= j < i ==> list@[j]@ != a@,
        decreases list.len() - i,
    {
        if chars_eq(list[i].as_slice(), a) {
            proof {
                assert(strs_view(list@)[i as int] == a@);
            }
            return true;
        }
        i = i + 1;
    }
    proof {
        if strs_view(list@).contains(a@) {
            let j = choose|j: int| 0 <= j < strs_view(list@).len() && strs_view(list@)[j] == a@;
            assert(list@[j]@ == a@);
        }
    }
    false
}

/// Whether a `require("oled")` occurs, and every name the module is bound
/// to (`"oled"` first).
fn collect_aliases(tokens: &[Token]) -> (r: (bool, Vec<Vec<char>>))
    ensures
        r.0 == exists|i: int| 0 <= i < tokens@.len() && #[trigger] require_at(toks_view(tokens@), i),
        forall|a: Seq<char>| strs_view(r.1@).contains(a) <==> is_alias(toks_view(tokens@), a),
{
    let ghost t = toks_view(tokens@);
    let mut uses = false;
    let mut aliases: Vec<Vec<char>> = Vec::new();
    aliases.push(chars_of("oled"));
    let mut i: usize = 0;
    proof {
        assert(strs_view(aliases@) =~= seq!["oled"@]);
        assert forall|a: Seq<char>| strs_view(aliases@).contains(a) <==> (a == "oled"@ || exists|j: int| 0 <= j < 0 && #[trigger] alias_at(t, j, a)) by {
            if a == "oled"@ {
                assert(strs_view(aliases@)[0] == a);
            }
        }
    }
    while i < tokens.len()
        invariant
            i <= tokens@.len(),
            t == toks_view(tokens@),
            uses == exists|j: int| 0 <= j < i && #[trigger] require_at(t, j),
            forall|a: Seq<char>| strs_view(aliases@).contains(a) <==> (a == "oled"@ || exists|j: int| 0 <= j < i && #[trigger] alias_at(t, j, a)),
        decreases tokens.len() - i,
    {
        let ghost before = strs_view(aliases@);
        proof {
            assert(t[i as int] == tok_view(tokens@[i as int]));
        }
        let mut req = false;
        if is_ident(&tokens[i], "require") {
            match call_string_argument(tokens, i + 1) {
                Some(v) => {
                    let w = chars_of("oled");
                    req = chars_eq(v.as_slice(), w.as_slice());
                },
                None => {},
            }
        }
        proof {
            assert(req == require_at(t, i as int));
        }
        let mut added = false;
        if req {
            uses = true;
            if i >= 2 && is_symbol(&tokens[i - 1], '=') {
                proof {
                    assert(t[i - 1] == tok_view(tokens@[i - 1]));
                    assert(t[i - 2] == tok_view(tokens@[i - 2]));
                }
                match &tokens[i - 2] {
                    Token::Ident(a) => {
                        let mut c: Vec<char> = Vec::new();
                        append_chars(&mut c, a.as_slice());
                        proof {
                            assert(c@ =~= a@);
                            assert(alias_at(t, i as int, a@));
                        }
                        aliases.push(c);
                        added = true;
                        proof {
                            assert(strs_view(aliases@) =~= before.push(a@));
                        }
                    },
                    _ => {},
                }
            }
        }
        proof {
            assert forall|a: Seq<char>| strs_view(aliases@).contains(a) <==> (a == "oled"@ || exists|j: int| 0 <= j < i + 1 && #[trigger] alias_at(t, j, a)) by {
                if strs_view(aliases@).contains(a) {
                    if !before.contains(a) {
                        assert(added);
                        let k = choose|k: int| 0 <= k < strs_view(aliases@).len() && strs_view(aliases@)[k] == a;
                        if k < before.len() {
                            assert(before[k] == a);
                        } else {
                            assert(alias_at(t, i as int, a));
                        }
                    } else {
                        if a != "oled"@ {
                            let j = choose|j: int| 0 <= j < i && #[trigger] alias_at(t, j, a);
                            assert(alias_at(t, j, a));
                        }
                    }
                }
                if a == "oled"@ || exists|j: int| 0 <= j < i + 1 && #[trigger] alias_at(t, j, a) {
                    if a == "oled"@ {
                        assert(before.contains(a));
                        let k = choose|k: int| 0 <= k < before.len() && before[k] == a;
                        assert(strs_view(aliases@)[k] == a);
                    } else {
                        let j = choose|j: int| 0 <= j < i + 1 && #[trigger] alias_at(t, j, a);
                        if j < i {
                            assert(before.contains(a));
                            let k = choose|k: int| 0 <= k < before.len() && before[k] == a;
                            assert(strs_view(aliases@)[k] == a);
                        } else {
                            assert(alias_at(t, i as int, a));
                            assert(added);
                            assert(t[i - 2] == TokenV::Ident(a));
                            assert(strs_view(aliases@)[before.len() as int] == a);
                        }
                    }
                }
            }
        }
        i = i + 1;
    }
    proof {
        assert forall|a: Seq<char>| strs_view(aliases@).contains(a) <==> is_alias(t, a) by {
            if exists|j: int| 0 <= j < tokens@.len() && #[trigger] alias_at(t, j, a) {
                let j = choose|j: int| 0 <= j < tokens@.len() && #[trigger] alias_at(t, j, a);
                assert(0 <= j < t.len());
            }
            if exists|j: int| 0 <= j < t.len() && #[trigger] alias_at(t, j, a) {
                let j = choose|j: int| 0 <= j < t.len() && #[trigger] alias_at(t, j, a);
                assert(0 <= j < tokens@.len());
            }
        }
    }
    (uses, aliases)
}

/// Executable analysis state.
struct PlanState {
    uses: bool,
    g8: Option<Vec<u32>>,
    g16: Option<Vec<u32>>,
    t8: Option<Vec<Vec<char>>>,
    t16: Option<Vec<Vec<char>>>,
    fill: Vec<u8>,
}

pub open spec fn opt_codes(o: Option<Vec<u32>>) -> Option<Seq<u32>> {
    match o {
        Some(v) => Some(v@),
        None => None,
    }
}

pub open spec fn opt_strs(o: Option<Vec<Vec<char>>>) -> Option<Seq<Seq<char>>> {
    match o {
        Some(v) => Some(strs_view(v@)),
        None => None,
    }
}

impl PlanState {
    spec fn view(&self) -> PlanV {
        PlanV {
            uses: self.uses,
            g8: opt_codes(self.g8),
            g16: opt_codes(self.g16),
            t8: opt_strs(self.t8),
            t16: opt_strs(self.t16),
            fill: self.fill@,
        }
    }
}

fn insert_all(v: &mut Vec<u32>, xs: &[u32])
    ensures
        final(v)@ == ins_all(old(v)@, xs@),
{
    let mut i: usize = 0;
    proof {
        assert(xs@.skip(0) =~= xs@);
    }
    while i < xs.len()
        invariant
            i <= xs@.len(),
            ins_all(old(v)@, xs@) == ins_all(v@, xs@.skip(i as int)),
        decreases xs.len() - i,
    {
        proof {
            assert(xs@.skip(i as int).drop_first() =~= xs@.skip(i + 1));
        }
        insert_u32(v, xs[i]);
        i = i + 1;
    }
    proof {
        assert(xs@.skip(i as int) =~= Seq::<u32>::empty());
    }
}

fn add_glyphs_exec(st: &mut PlanState, size: i64, xs: &[u32])
    requires
        size == 8 || size == 16,
    ensures
        final(st).view() == add_glyphs(old(st).view(), size as int, xs@),
{
    if size == 8 {
        let mut g: Vec<u32> = match st.g8.take() {
            Some(v) => v,
            None => Vec::new(),
        };
        insert_all(&mut g, xs);
        st.g8 = Some(g);
    } else {
        let mut g: Vec<u32> = match st.g16.take() {
            Some(v) => v,
            None => Vec::new(),
        };
        insert_all(&mut g, xs);
        st.g16 = Some(g);
    }
}

fn add_text_exec(st: &mut PlanState, size: i64, v: Vec<char>)
    requires
        size == 8 || size == 16,
    ensures
        final(st).view() == add_text(old(st).view(), size as int, v@),
{
    if size == 8 {
        let mut g: Vec<Vec<char>> = match st.t8.take() {
            Some(x) => x,
            None => Vec::new(),
        };
        proof {
            assert(strs_view(Seq::<Vec<char>>::empty()) =~= Seq::<Seq<char>>::empty());
        }
        insert_str(&mut g, v);
        st.t8 = Some(g);
    } else {
        let mut g: Vec<Vec<char>> = match st.t16.take() {
            Some(x) => x,
            None => Vec::new(),
        };
        proof {
            assert(strs_view(Seq::<Vec<char>>::empty()) =~= Seq::<Seq<char>>::empty());
        }
        insert_str(&mut g, v);
        st.t16 = Some(g);
    }
}

fn number_glyph_list() -> (r: Vec<u32>)
    ensures
        r@ == number_glyphs(),
{
    let r: Vec<u32> = vec![0x30u32, 0x31, 0x32, 0x33, 0x34, 0x35, 0x36, 0x37, 0x38, 0x39, 0x2E, 0x2D, 0x20];
    proof {
        assert(r@ =~= number_glyphs());
    }
    r
}

fn codes_vec(v: &[char]) -> (r: Vec<u32>)
    ensures
        r@ == codes_of(v@),
{
    let mut r: Vec<u32> = Vec::new();
    let mut i: usize = 0;
    while i < v.len()
        invariant
            i <= v@.len(),
            r@ == codes_of(v@.take(i as int)),
        decreases v.len() - i,
    {
        r.push(v[i] as u32);
        proof {
            assert(r@ =~= codes_of(v@.take(i + 1)));
        }
        i = i + 1;
    }
    proof {
        assert(v@.take(v@.len() as int) =~= v@);
    }
    r
}

fn msg_with(prefix: &[char], tail: &str) -> (r: Vec<char>)
    ensures
        r@ == prefix@ + tail@,
{
    let mut out: Vec<char> = Vec::new();
    append_chars(&mut out, prefix);
    append_str(&mut out, tail);
    proof {
        assert(Seq::<char>::empty() + prefix@ =~= prefix@);
    }
    out
}

fn msg_method(alias: &[char], method: &[char], tail: &str) -> (r: Vec<char>)
    ensures
        r@ == alias@ + "."@ + method@ + tail@,
{
    let mut out: Vec<char> = Vec::new();
    append_chars(&mut out, alias);
    append_str(&mut out, ".");
    append_chars(&mut out, method);
    append_str(&mut out, tail);
    proof {
        assert(Seq::<char>::empty() + alias@ =~= alias@);
    }
    out
}

/// The effect of a `text`/`number` call.
fn size_call_exec(tokens: &[Token], i: usize, args: &Vec<(usize, usize)>, st: &mut PlanState) -> (r: Result<(), Vec<char>>)
    requires
        call_at(toks_view(tokens@), i as int),
        ints_ok(tokens@),
        forall|k: int| 0 <= k < args@.len() ==> (#[trigger] args@[k]).0 <= args@[k].1 <= tokens@.len(),
    ensures
        ({
            let t = toks_view(tokens@);
            let av = args@.map_values(|p: (usize, usize)| (p.0 as int, p.1 as int));
            match r {
                Ok(()) => size_call(t, i as int, av, old(st).view()) == Ok::<PlanV, Seq<char>>(final(st).view()),
                Err(m) => size_call(t, i as int, av, old(st).view()) == Err::<PlanV, Seq<char>>(m@),
            }
        }),
{
    let ghost t = toks_view(tokens@);
    let ghost av = args@.map_values(|p: (usize, usize)| (p.0 as int, p.1 as int));
    proof {
        assert(t[i as int] == tok_view(tokens@[i as int]));
        assert(t[i + 2] == tok_view(tokens@[i + 2]));
    }
    let alias: &Vec<char> = match &tokens[i] {
        Token::Ident(a) => a,
        _ => {
            return Err(Vec::new());
        },
    };
    let method: &Vec<char> = match &tokens[i + 2] {
        Token::Ident(m) => m,
        _ => {
            return Err(Vec::new());
        },
    };
    let text_word = chars_of("text");
    let is_text = chars_eq(method.as_slice(), text_word.as_slice());
    let si: usize = if is_text { 3 } else { 4 };
    if args.len() <= si {
        return Err(msg_method(alias.as_slice(), method.as_slice(), " 必须显式提供字号（仅支持 8 或 16）"));
    }
    let (lo, hi) = args[si];
    proof {
        assert(av[si as int] == (lo as int, hi as int));
    }
    let size = match static_integer(tokens, lo, hi) {
        None => {
            return Err(msg_method(alias.as_slice(), method.as_slice(), " 的字号必须是静态整数 8 或 16，不能使用变量"));
        },
        Some(v) => v,
    };
    if size != 8 && size != 16 {
        let mut out: Vec<char> = Vec::new();
        append_str(&mut out, "不支持 OLED 字号 ");
        proof {
            let k = si as int;
            let a = t.subrange(lo as int, hi as int);
            if a.len() == 2 {
                assert(a[1] == tok_view(tokens@[lo + 1]));
                assert(tokens@[lo + 1] is Integer ==> tokens@[lo + 1]->Integer_0 >= 0);
            } else {
                assert(a[0] == tok_view(tokens@[lo as int]));
                assert(tokens@[lo as int] is Integer ==> tokens@[lo as int]->Integer_0 >= 0);
            }
        }
        push_sdec(&mut out, size);
        append_str(&mut out, "；当前仅支持 8 和 16");
        return Err(out);
    }
    let base = number_glyph_list();
    add_glyphs_exec(st, size, base.as_slice());
    if is_text {
        if args.len() <= 2 {
            return Err(msg_with(alias.as_slice(), ".text 缺少文本参数"));
        }
        let (a, b) = args[2];
        proof {
            assert(av[2] == (a as int, b as int));
            if b - a == 1 {
                assert(t.subrange(a as int, b as int)[0] == tok_view(tokens@[a as int]));
            }
        }
        if b - a == 1 {
            match &tokens[a] {
                Token::Str(v) => {
                    let codes = codes_vec(v.as_slice());
                    add_glyphs_exec(st, size, codes.as_slice());
                    let mut copy: Vec<char> = Vec::new();
                    append_chars(&mut copy, v.as_slice());
                    proof {
                        assert(copy@ =~= v@);
                    }
                    add_text_exec(st, size, copy);
                    return Ok(());
                },
                _ => {},
            }
        }
        return Err(msg_with(alias.as_slice(), ".text 的文本必须是静态字符串；变量数值请使用 oled.number"));
    }
    Ok(())
}

/// Whether there is an OLED call at `i`.
fn call_here(tokens: &[Token], aliases: &Vec<Vec<char>>, i: usize) -> (r: bool)
    requires
        i + 3 < tokens@.len(),
        forall|a: Seq<char>| strs_view(aliases@).contains(a) <==> is_alias(toks_view(tokens@), a),
    ensures
        r == call_at(toks_view(tokens@), i as int),
{
    let ghost t = toks_view(tokens@);
    proof {
        assert(t[i as int] == tok_view(tokens@[i as int]));
        assert(t[i + 1] == tok_view(tokens@[i + 1]));
        assert(t[i + 2] == tok_view(tokens@[i + 2]));
        assert(t[i + 3] == tok_view(tokens@[i + 3]));
    }
    match &tokens[i] {
        Token::Ident(a) => {
            if !has_str(aliases, a.as_slice()) {
                return false;
            }
        },
        _ => {
            return false;
        },
    }
    if !is_symbol(&tokens[i + 1], '.') {
        return false;
    }
    match &tokens[i + 2] {
        Token::Ident(_) => {},
        _ => {
            return false;
        },
    }
    is_symbol(&tokens[i + 3], '(')
}

/// Handles the OLED call at `i`; gives where scanning continues.
fn handle_call(tokens: &[Token], i: usize, st: &mut PlanState) -> (r: Result<usize, Vec<char>>)
    requires
        call_at(toks_view(tokens@), i as int),
        ints_ok(tokens@),
    ensures
        match r {
            Ok(j) => i < j <= tokens@.len() && scan(toks_view(tokens@), i as int, old(st).view()) == scan(
                toks_view(tokens@),
                j as int,
                final(st).view(),
            ),
            Err(m) => scan(toks_view(tokens@), i as int, old(st).view()) == Err::<PlanV, Seq<char>>(m@),
        },
{
    let ghost t = toks_view(tokens@);
    proof {
        assert(t[i as int] == tok_view(tokens@[i as int]));
        assert(t[i + 2] == tok_view(tokens@[i + 2]));
    }
    let alias: &Vec<char> = match &tokens[i] {
        Token::Ident(a) => a,
        _ => {
            return Err(Vec::new());
        },
    };
    let method: &Vec<char> = match &tokens[i + 2] {
        Token::Ident(m) => m,
        _ => {
            return Err(Vec::new());
        },
    };
    st.uses = true;
    let w_clear = chars_of("clear");
    let w_fill = chars_of("fill");
    let w_text = chars_of("text");
    let w_number = chars_of("number");
    if chars_eq(method.as_slice(), w_clear.as_slice()) {
        insert_u8(&mut st.fill, 0);
        return Ok(i + 3);
    }
    if chars_eq(method.as_slice(), w_fill.as_slice()) {
        let (args, end) = match split_call_arguments(tokens, i + 3) {
            None => {
                let m = chars_of("OLED 调用缺少右括号");
                return Err(m);
            },
            Some(x) => x,
        };
        let ghost av = args@.map_values(|p: (usize, usize)| (p.0 as int, p.1 as int));
        let v = if args.len() > 0 {
            let (lo, hi) = args[0];
            proof {
                assert(av[0] == (lo as int, hi as int));
            }
            static_integer(tokens, lo, hi)
        } else {
            None
        };
        let x = match v {
            None => {
                return Err(msg_with(alias.as_slice(), ".fill 的填充值必须是静态整数 0..255；当前精简 Core 无动态字节转换函数"));
            },
            Some(x) => x,
        };
        if !(0 <= x && x <= 255) {
            let mut out: Vec<char> = Vec::new();
            append_chars(&mut out, alias.as_slice());
            append_str(&mut out, ".fill 的填充值 ");
            proof {
                let (lo, hi) = (av[0].0, av[0].1);
                let a = t.subrange(lo, hi);
                if a.len() == 2 {
                    assert(a[1] == tok_view(tokens@[lo + 1]));
                    assert(tokens@[lo + 1] is Integer ==> tokens@[lo + 1]->Integer_0 >= 0);
                }
            }
            push_sdec(&mut out, x);
            append_str(&mut out, " 超出 0..255");
            proof {
                assert(Seq::<char>::empty() + alias@ =~= alias@);
            }
            return Err(out);
        }
        insert_u8(&mut st.fill, x as u8);
        return Ok(end);
    }
    let is_text = chars_eq(method.as_slice(), w_text.as_slice());
    let is_number = chars_eq(method.as_slice(), w_number.as_slice());
    if !is_text && !is_number {
        return Ok(i + 3);
    }
    let (args, end) = match split_call_arguments(tokens, i + 3) {
        None => {
            let m = chars_of("OLED 调用缺少右括号");
            return Err(m);
        },
        Some(x) => x,
    };
    match size_call_exec(tokens, i, &args, st) {
        Err(m) => Err(m),
        Ok(()) => Ok(end),
    }
}

/// Runs the OLED call scan over all tokens.
fn scan_tokens(tokens: &[Token], aliases: &Vec<Vec<char>>, st: &mut PlanState) -> (r: Result<(), Vec<char>>)
    requires
        ints_ok(tokens@),
        forall|a: Seq<char>| strs_view(aliases@).contains(a) <==> is_alias(toks_view(tokens@), a),
    ensures
        match r {
            Ok(()) => scan(toks_view(tokens@), 0, old(st).view()) == Ok::<PlanV, Seq<char>>(final(st).view()),
            Err(m) => scan(toks_view(tokens@), 0, old(st).view()) == Err::<PlanV, Seq<char>>(m@),
        },
{
    let mut i: usize = 0;
    while i < tokens.len() && tokens.len() - i > 3
        invariant
            i <= tokens@.len(),
            ints_ok(tokens@),
            forall|a: Seq<char>| strs_view(aliases@).contains(a) <==> is_alias(toks_view(tokens@), a),
            scan(toks_view(tokens@), 0, old(st).view()) == scan(toks_view(tokens@), i as int, st.view()),
        decreases tokens.len() - i,
    {
        if call_here(tokens, aliases, i) {
            match handle_call(tokens, i, st) {
                Err(m) => {
                    return Err(m);
                },
                Ok(j) => {
                    i = j;
                },
            }
        } else {
            i = i + 1;
        }
    }
    Ok(())
}

/// Glyph codes and static texts for one font size.
#[derive(Clone, Debug)]
pub struct SizeGlyphs {
    pub size: u8,
    /// Code points to rasterise, ascending.
    pub codes: Vec<u32>,
}

/// A static text and its code points.
#[derive(Clone, Debug)]
pub struct StaticText {
    pub text: String,
    pub codes: Vec<u32>,
}

/// The static texts drawn at one font size, ordered by text.
#[derive(Clone, Debug)]
pub struct SizeTexts {
    pub size: u8,
    pub texts: Vec<StaticText>,
}

/// What the OLED analysis found: whether the OLED module is used, the glyphs
/// needed per font size (8 and/or 16, ascending), the static texts per size
/// and the fill bytes (ascending, without repeats).
#[derive(Clone, Debug)]
pub struct OledFontPlan {
    pub uses_oled: bool,
    pub glyphs: Vec<SizeGlyphs>,
    pub texts: Vec<SizeTexts>,
    pub fill_bytes: Vec<u8>,
}

/// The glyph lists of a plan, as (size, codes) pairs.
pub open spec fn plan_glyphs(p: PlanV) -> Seq<(u8, Seq<u32>)> {
    let a: Seq<(u8, Seq<u32>)> = match p.g8 {
        Some(g) => seq![(8u8, g)],
        None => Seq::empty(),
    };
    let b: Seq<(u8, Seq<u32>)> = match p.g16 {
        Some(g) => seq![(16u8, g)],
        None => Seq::empty(),
    };
    a + b
}

/// The text lists of a plan, as (size, texts) pairs.
pub open spec fn plan_texts(p: PlanV) -> Seq<(u8, Seq<Seq<char>>)> {
    let a: Seq<(u8, Seq<Seq<char>>)> = match p.t8 {
        Some(g) => seq![(8u8, g)],
        None => Seq::empty(),
    };
    let b: Seq<(u8, Seq<Seq<char>>)> = match p.t16 {
        Some(g) => seq![(16u8, g)],
        None => Seq::empty(),
    };
    a + b
}

pub open spec fn glyphs_view(v: Seq<SizeGlyphs>) -> Seq<(u8, Seq<u32>)> {
    v.map_values(|g: SizeGlyphs| (g.size, g.codes@))
}

pub open spec fn texts_view(v: Seq<SizeTexts>) -> Seq<(u8, Seq<Seq<char>>)> {
    v.map_values(|g: SizeTexts| (g.size, g.texts@.map_values(|x: StaticText| x.text@)))
}

/// A static text carrying its own code points.
pub open spec fn text_coded(x: StaticText) -> bool {
    x.codes@ == codes_of(x.text@)
}

/// Every static text carries its own code points.
pub open spec fn texts_coded(v: Seq<SizeTexts>) -> bool {
    forall|i: int, j: int| 0 <= i < v.len() && 0 <= j < v[i].texts@.len() ==> #[trigger] text_coded(v[i].texts@[j])
}

/// A plan as the analysis result it stands for.
pub open spec fn plan_matches(plan: OledFontPlan, p: PlanV) -> bool {
    &&& plan.uses_oled == p.uses
    &&& glyphs_view(plan.glyphs@) == plan_glyphs(p)
    &&& texts_view(plan.texts@) == plan_texts(p)
    &&& texts_coded(plan.texts@)
    &&& plan.fill_bytes@ == p.fill
}

fn make_static_text(v: &[char]) -> (x: StaticText)
    ensures
        x.text@ == v@,
        text_coded(x),
{
    let codes = codes_vec(v);
    let text = string_from(v);
    StaticText { text, codes }
}

fn static_texts(v: Vec<Vec<char>>) -> (r: Vec<StaticText>)
    ensures
        r@.map_values(|x: StaticText| x.text@) == strs_view(v@),
        forall|j: int| 0 <= j < r@.len() ==> #[trigger] text_coded(r@[j]),
{
    let mut r: Vec<StaticText> = Vec::new();
    let mut i: usize = 0;
    while i < v.len()
        invariant
            i <= v@.len(),
            r@.map_values(|x: StaticText| x.text@) == strs_view(v@).take(i as int),
            forall|j: int| 0 <= j < r@.len() ==> #[trigger] text_coded(r@[j]),
        decreases v.len() - i,
    {
        let x = make_static_text(v[i].as_slice());
        let ghost before = r@;
        proof {
            assert(strs_view(v@)[i as int] == v@[i as int]@);
            assert(strs_view(v@).take(i + 1) =~= strs_view(v@).take(i as int).push(x.text@));
        }
        r.push(x);
        proof {
            assert(r@ == before.push(x));
            assert(r@.map_values(|x: StaticText| x.text@) =~= strs_view(v@).take(i + 1));
            assert forall|j: int| 0 <= j < r@.len() implies #[trigger] text_coded(r@[j]) by {
                if j < before.len() {
                    assert(r@[j] == before[j]);
                }
            }
        }
        i = i + 1;
    }
    proof {
        assert(strs_view(v@).take(v@.len() as int) =~= strs_view(v@));
    }
    r
}

fn finish_plan(st: PlanState) -> (plan: OledFontPlan)
    ensures
        plan_matches(plan, st.view()),
{
    let ghost p = st.view();
    let mut glyphs: Vec<SizeGlyphs> = Vec::new();
    let mut texts: Vec<SizeTexts> = Vec::new();
    match st.g8 {
        Some(g) => {
            glyphs.push(SizeGlyphs { size: 8, codes: g });
        },
        None => {},
    }
    match st.g16 {
        Some(g) => {
            glyphs.push(SizeGlyphs { size: 16, codes: g });
        },
        None => {},
    }
    proof {
        assert(glyphs_view(glyphs@) =~= plan_glyphs(p));
    }
    match st.t8 {
        Some(t) => {
            let list = static_texts(t);
            texts.push(SizeTexts { size: 8, texts: list });
        },
        None => {},
    }
    let ghost mid = texts@;
    match st.t16 {
        Some(t) => {
            let list = static_texts(t);
            texts.push(SizeTexts { size: 16, texts: list });
        },
        None => {},
    }
    proof {
        assert(texts_view(texts@) =~= plan_texts(p));
        assert forall|i: int, j: int| 0 <= i < texts@.len() && 0 <= j < texts@[i].texts@.len() implies #[trigger] text_coded(texts@[i].texts@[j]) by {
            if i < mid.len() {
                assert(texts@[i] == mid[i]);
            }
        }
    }
    OledFontPlan { uses_oled: st.uses, glyphs, texts, fill_bytes: st.fill }
}

/// Analyses reachable Lua sources for OLED calls: which glyphs each font
/// size needs, which static texts are drawn, which fill bytes are used.
/// Errors name the offending call.
pub fn analyze_oled_fonts(source: &str) -> (r: Result<OledFontPlan, String>)
    ensures
        match analyze(source@) {
            Ok(p) => r matches Ok(plan) && plan_matches(plan, p),
            Err(m) => r matches Err(e) && e@ == m,
        },
{
    let chars = chars_of(source);
    let tokens = match lex(chars.as_slice()) {
        Err(e) => {
            let msg = match e {
                LexError::EscapeIncomplete => "Lua 字符串转义不完整",
                LexError::Unterminated => "Lua 字符串缺少结束引号",
                LexError::HexNoDigits => "OLED 十六进制整数缺少数字",
                LexError::HexInvalid => "OLED 十六进制整数无效",
                LexError::DecInvalid => "OLED 字号整数无效",
            };
            let v = chars_of(msg);
            return Err(string_from(v.as_slice()));
        },
        Ok(t) => t,
    };
    let (uses, aliases) = collect_aliases(tokens.as_slice());
    let mut st = PlanState { uses, g8: None, g16: None, t8: None, t16: None, fill: Vec::new() };
    proof {
        assert(st.view() == (PlanV {
            uses: exists|i: int| 0 <= i < toks_view(tokens@).len() && #[trigger] require_at(toks_view(tokens@), i),
            g8: None,
            g16: None,
            t8: None,
            t16: None,
            fill: Seq::empty(),
        }));
    }
    match scan_tokens(tokens.as_slice(), &aliases, &mut st) {
        Err(m) => Err(string_from(m.as_slice())),
        Ok(()) => Ok(finish_plan(st)),
    }
}

// ─── generated Lua font module ────────────────────────────────────────────

/// Largest number of glyphs one run may rasterise.
pub const MAX_GLYPHS: usize = 192;
/// Largest total bitmap size one run may carry.
pub const MAX_BITMAP_BYTES: usize = 12_288;

/// Lower-case hexadecimal digit.
pub open spec fn hex_lower(d: nat) -> char {
    if d < 10 {
        ('0' as nat + d) as char
    } else {
        ('a' as nat + d - 10) as char
    }
}

/// Two lower-case hexadecimal digits of a value below 256.
pub open spec fn hex2(b: nat) -> Seq<char> {
    seq![hex_lower(b / 16), hex_lower(b % 16)]
}

/// `char::is_control`: the C0 and C1 control characters.
pub open spec fn is_control(c: char) -> bool {
    (c as u32) < 0x20 || (0x7F <= (c as u32) && (c as u32) <= 0x9F)
}

/// One character as written inside a Lua double-quoted string.
pub open spec fn lua_escape(c: char) -> Seq<char> {
    if c == '\\' {
        seq!['\\', '\\']
    } else if c == '"' {
        seq!['\\', '"']
    } else if c == '\n' {
        seq!['\\', 'n']
    } else if c == '\r' {
        seq!['\\', 'r']
    } else if c == '\t' {
        seq!['\\', 't']
    } else if is_control(c) {
        seq!['\\', 'x'] + hex2((c as u32) as nat)
    } else {
        seq![c]
    }
}

pub open spec fn lua_escape_all(s: Seq<char>) -> Seq<char>
    decreases s.len(),
{
    if s.len() == 0 {
        Seq::empty()
    } else {
        lua_escape_all(s.drop_last()) + lua_escape(s.last())
    }
}

/// A Lua string literal for `s`.
pub open spec fn lua_str_lit(s: Seq<char>) -> Seq<char> {
    seq!['"'] + lua_escape_all(s) + seq!['"']
}

/// No control character but line feed, carriage return and tab.
pub open spec fn plain_text(s: Seq<char>) -> bool {
    forall|i: int| 0 <= i < s.len() ==> !is_control(#[trigger] s[i]) || s[i] == '\n' || s[i] == '\r' || s[i] == '\t'
}

proof fn lemma_scan_escaped(t: Seq<char>, p: int, x: Seq<char>, val: Seq<char>)
    requires
        0 <= p,
        p + lua_escape_all(x).len() < t.len(),
        t.subrange(p, p + lua_escape_all(x).len()) == lua_escape_all(x),
        plain_text(x),
    ensures
        str_scan(t, p, '"', val) == str_scan(t, p + lua_escape_all(x).len(), '"', val + x),
    decreases x.len(),
{
    if x.len() == 0 {
        assert(val + x =~= val);
    } else {
        let x0 = x.drop_last();
        let c = x.last();
        let e0 = lua_escape_all(x0);
        let q = p + e0.len();
        assert(lua_escape_all(x) == e0 + lua_escape(c));
        assert(t.subrange(p, p + e0.len()) =~= lua_escape_all(x).subrange(0, e0.len() as int));
        assert(lua_escape_all(x).subrange(0, e0.len() as int) =~= e0);
        assert(plain_text(x0)) by {
            assert forall|i: int| 0 <= i < x0.len() implies !is_control(#[trigger] x0[i]) || x0[i] == '\n' || x0[i]
                == '\r' || x0[i] == '\t' by {
                assert(x0[i] == x[i]);
            }
        }
        lemma_scan_escaped(t, p, x0, val);
        assert(!is_control(x[x.len() - 1]) || c == '\n' || c == '\r' || c == '\t');
        let ec = lua_escape(c);
        assert forall|k: int| 0 <= k < ec.len() implies t[q + k] == ec[k] by {
            assert(t.subrange(p, p + lua_escape_all(x).len())[e0.len() + k] == lua_escape_all(x)[e0.len() + k]);
        }
        assert(val + x0 + seq![c] =~= val + x);
        if c == '\\' || c == '"' || c == '\n' || c == '\r' || c == '\t' {
            assert(ec.len() == 2);
            assert(t[q] == '\\');
            assert((val + x0).push(unescape(t[q + 1])) =~= val + x);
        } else {
            assert(ec =~= seq![c]);
            assert(ec[0] == c);
            assert(t[q + 0] == ec[0]);
            assert(t[q] == c);
            assert((val + x0).push(t[q]) =~= val + x);
        }
    }
}

/// Lexing the Lua literal of a text without other control characters than
/// line feed, carriage return and tab gives back that text as the one
/// string token.
pub proof fn law_string_literal_lexes_back(s: Seq<char>)
    requires
        plain_text(s),
    ensures
        lex_from(lua_str_lit(s), 0) == Ok::<Seq<TokenV>, LexError>(seq![TokenV::Str(s)]),
{
    let e = lua_escape_all(s);
    let t = lua_str_lit(s);
    let n: int = e.len() as int;
    assert(t.len() == n + 2);
    assert(t.subrange(1, 1 + n) =~= e);
    lemma_scan_escaped(t, 1, s, Seq::empty());
    assert(Seq::<char>::empty() + s =~= s);
    assert(t[0] == '"');
    assert(t[1 + n] == '"');
    assert(str_scan(t, 1 + n, '"', s) == Ok::<(int, Seq<char>), LexError>((2 + n, s)));
    assert(lex_from(t, 2 + n) == Ok::<Seq<TokenV>, LexError>(Seq::empty()));
    assert(seq![TokenV::Str(s)] + Seq::<TokenV>::empty() =~= seq![TokenV::Str(s)]);
}

pub open spec fn bin_escape_all(b: Seq<u8>) -> Seq<char>
    decreases b.len(),
{
    if b.len() == 0 {
        Seq::empty()
    } else {
        bin_escape_all(b.drop_last()) + seq!['\\', 'x'] + hex2(b.last() as nat)
    }
}

/// A Lua string literal holding the bytes `b`, each as `\xNN`.
pub open spec fn lua_bin_lit(b: Seq<u8>) -> Seq<char> {
    seq!['"'] + bin_escape_all(b) + seq!['"']
}

pub(crate) fn push_hex2(out: &mut Vec<char>, b: u32)
    requires
        b < 256,
    ensures
        final(out)@ == old(out)@ + hex2(b as nat),
{
    let hi = b / 16;
    let lo = b % 16;
    let c1 = if hi < 10 { (48 + hi) as u8 as char } else { (87 + hi) as u8 as char };
    let c2 = if lo < 10 { (48 + lo) as u8 as char } else { (87 + lo) as u8 as char };
    out.push(c1);
    out.push(c2);
    proof {
        assert(final(out)@ =~= old(out)@ + hex2(b as nat));
    }
}

fn push_lua_escaped(out: &mut Vec<char>, s: &[char])
    ensures
        final(out)@ == old(out)@ + lua_escape_all(s@),
{
    let mut i: usize = 0;
    while i < s.len()
        invariant
            i <= s@.len(),
            out@ == old(out)@ + lua_escape_all(s@.take(i as int)),
        decreases s.len() - i,
    {
        let c = s[i];
        let u = c as u32;
        let ghost before = out@;
        if c == '\\' {
            out.push('\\');
            out.push('\\');
        } else if c == '"' {
            out.push('\\');
            out.push('"');
        } else if c == '\n' {
            out.push('\\');
            out.push('n');
        } else if c == '\r' {
            out.push('\\');
            out.push('r');
        } else if c == '\t' {
            out.push('\\');
            out.push('t');
        } else if u < 0x20 || (0x7F <= u && u <= 0x9F) {
            out.push('\\');
            out.push('x');
            push_hex2(out, u);
        } else {
            out.push(c);
        }
        proof {
            assert(s@.take(i + 1).drop_last() =~= s@.take(i as int));
            assert(out@ =~= before + lua_escape(c));
            assert(old(out)@ + lua_escape_all(s@.take(i + 1)) =~= old(out)@ + lua_escape_all(s@.take(i as int)) + lua_escape(c));
        }
        i = i + 1;
    }
    proof {
        assert(s@.take(s@.len() as int) =~= s@);
    }
}

/// Writes `value` as a Lua double-quoted string literal.
pub fn lua_string_literal(value: &str) -> (r: String)
    ensures
        r@ == lua_str_lit(value@),
{
    let v = chars_of(value);
    let mut out: Vec<char> = Vec::new();
    out.push('"');
    push_lua_escaped(&mut out, v.as_slice());
    out.push('"');
    proof {
        assert(out@ =~= lua_str_lit(value@));
    }
    string_from(out.as_slice())
}

fn push_bin_escaped(out: &mut Vec<char>, b: &[u8])
    ensures
        final(out)@ == old(out)@ + bin_escape_all(b@),
{
    let mut i: usize = 0;
    while i < b.len()
        invariant
            i <= b@.len(),
            out@ == old(out)@ + bin_escape_all(b@.take(i as int)),
        decreases b.len() - i,
    {
        let ghost before = out@;
        out.push('\\');
        out.push('x');
        push_hex2(out, b[i] as u32);
        proof {
            assert(b@.take(i + 1).drop_last() =~= b@.take(i as int));
            assert(out@ =~= old(out)@ + bin_escape_all(b@.take(i + 1)));
        }
        i = i + 1;
    }
    proof {
        assert(b@.take(b@.len() as int) =~= b@);
    }
}

/// Writes bytes as a Lua string literal of `\xNN` escapes.
pub fn lua_binary_literal(value: &[u8]) -> (r: String)
    ensures
        r@ == lua_bin_lit(value@),
{
    let mut out: Vec<char> = Vec::new();
    out.push('"');
    push_bin_escaped(&mut out, value);
    out.push('"');
    proof {
        assert(out@ =~= lua_bin_lit(value@));
    }
    string_from(out.as_slice())
}

/// The sources refuse a font pack for the obsolete single-image firmware
/// when they use the OLED module; otherwise there is nothing to pack.
pub fn analyze_and_pack_f16(source: &str) -> (r: Result<(String, Vec<u8>), String>)
    ensures
        match analyze(source@) {
            Err(m) => r matches Err(e) && e@ == m,
            Ok(p) => if p.uses {
                r matches Err(e) && e@ == "OLED 自动取模仅支持模块化运行；请使用工程运行命令"@
            } else {
                r matches Ok((msg, pack)) && msg@ == "未使用 OLED"@ && pack@.len() == 0
            },
        },
{
    let plan = analyze_oled_fonts(source)?;
    if plan.uses_oled {
        let v = chars_of("OLED 自动取模仅支持模块化运行；请使用工程运行命令");
        return Err(string_from(v.as_slice()));
    }
    let v = chars_of("未使用 OLED");
    Ok((string_from(v.as_slice()), Vec::new()))
}

/// The obsolete font pack: always empty.
pub fn analyze_and_pack(_source: &str) -> (r: (std::collections::BTreeSet<u8>, Vec<u8>))
    ensures
        r.0@ == Set::<u8>::empty(),
        r.1@.len() == 0,
{
    (std::collections::BTreeSet::new(), Vec::new())
}

/// The rasterisation jobs of the glyph lists: (size, code) in order.
pub open spec fn jobs_of(g: Seq<(u8, Seq<u32>)>) -> Seq<(u8, u32)>
    decreases g.len(),
{
    if g.len() == 0 {
        Seq::empty()
    } else {
        jobs_of(g.drop_last()) + g.last().1.map_values(|c: u32| (g.last().0, c))
    }
}

/// Total number of bytes of the rasters.
pub open spec fn bytes_total(r: Seq<Seq<u8>>) -> nat
    decreases r.len(),
{
    if r.len() == 0 {
        0
    } else {
        bytes_total(r.drop_last()) + r.last().len()
    }
}

/// The line a glyph contributes to page `p` (when the raster reaches it).
pub open spec fn page_line(size: nat, code: u32, r: Seq<u8>, p: nat) -> Seq<char> {
    if p * size < r.len() {
        let end = if (p + 1) * size < r.len() { (p + 1) * size } else { r.len() as nat };
        "      ["@ + dec(code as nat) + "] = "@ + lua_bin_lit(r.subrange((p * size) as int, end as int)) + ",\n"@
    } else {
        Seq::empty()
    }
}

/// Page `p` of one font size: a line per glyph.
pub open spec fn page_lines(size: nat, codes: Seq<u32>, rs: Seq<Seq<u8>>, p: nat) -> Seq<char>
    decreases codes.len(),
{
    if codes.len() == 0 || rs.len() == 0 {
        Seq::empty()
    } else {
        page_lines(size, codes.drop_last(), rs.drop_last(), p) + page_line(size, codes.last(), rs.last(), p)
    }
}

/// Pages `0..n` of one font size.
pub open spec fn pages_block(size: nat, codes: Seq<u32>, rs: Seq<Seq<u8>>, n: nat) -> Seq<char>
    decreases n,
{
    if n == 0 {
        Seq::empty()
    } else {
        pages_block(size, codes, rs, (n - 1) as nat) + "    {\n"@ + page_lines(size, codes, rs, (n - 1) as nat)
            + "    },\n"@
    }
}

/// Code points written as `c,c,…,`.
pub open spec fn codes_list(cs: Seq<u32>) -> Seq<char>
    decreases cs.len(),
{
    if cs.len() == 0 {
        Seq::empty()
    } else {
        codes_list(cs.drop_last()) + dec(cs.last() as nat) + ","@
    }
}

/// The static texts of one size.
pub open spec fn texts_block(ts: Seq<Seq<char>>) -> Seq<char>
    decreases ts.len(),
{
    if ts.len() == 0 {
        Seq::empty()
    } else {
        texts_block(ts.drop_last()) + "    ["@ + lua_str_lit(ts.last()) + "] = {"@ + codes_list(codes_of(ts.last()))
            + "},\n"@
    }
}

/// The texts recorded for `size`.
pub open spec fn texts_for(tx: Seq<(u8, Seq<Seq<char>>)>, size: u8) -> Seq<Seq<char>>
    decreases tx.len(),
{
    if tx.len() == 0 {
        Seq::empty()
    } else if tx[0].0 == size {
        tx[0].1
    } else {
        texts_for(tx.drop_first(), size)
    }
}

/// The table entry of one font size.
pub open spec fn size_block(size: u8, codes: Seq<u32>, rs: Seq<Seq<u8>>, ts: Seq<Seq<char>>) -> Seq<char> {
    "  ["@ + dec(size as nat) + "] = { width = "@ + dec(size as nat) + ", pages = "@ + dec((size / 8) as nat)
        + ", glyphs = {\n"@ + pages_block(size as nat, codes, rs, (size / 8) as nat) + "  }, texts = {\n"@
        + texts_block(ts) + "  } },\n"@
}

/// The entries of all sizes; `rs` holds the rasters of every job in order.
pub open spec fn sizes_text(g: Seq<(u8, Seq<u32>)>, tx: Seq<(u8, Seq<Seq<char>>)>, rs: Seq<Seq<u8>>) -> Seq<char>
    decreases g.len(),
{
    if g.len() == 0 {
        Seq::empty()
    } else {
        let n = g.last().1.len();
        sizes_text(g.drop_last(), tx, rs.take(rs.len() - n)) + size_block(
            g.last().0,
            g.last().1,
            rs.skip(rs.len() - n),
            texts_for(tx, g.last().0),
        )
    }
}

/// The generated Lua font module.
pub open spec fn module_text(g: Seq<(u8, Seq<u32>)>, tx: Seq<(u8, Seq<Seq<char>>)>, rs: Seq<Seq<u8>>) -> Seq<char> {
    "return {\n"@ + sizes_text(g, tx, rs) + "}\n"@
}

/// `<size>px:<count>字` for each size, joined by `", "`.
pub open spec fn sizes_summary(g: Seq<(u8, Seq<u32>)>) -> Seq<char>
    decreases g.len(),
{
    if g.len() == 0 {
        Seq::empty()
    } else {
        let item = dec(g.last().0 as nat) + "px:"@ + dec(g.last().1.len()) + "字"@;
        if g.len() == 1 {
            item
        } else {
            sizes_summary(g.drop_last()) + ", "@ + item
        }
    }
}

/// The summary message of a generated module.
pub open spec fn module_message(g: Seq<(u8, Seq<u32>)>, bitmap: nat) -> Seq<char> {
    "OLED 自动取模 "@ + sizes_summary(g) + "，位图 "@ + dec(bitmap) + " B -> _oled_font.luac"@
}

pub open spec fn msg_too_many(n: nat) -> Seq<char> {
    "OLED 字模共 "@ + dec(n) + " 个，超过单次运行上限 192；请拆分工程文本"@
}

pub open spec fn msg_too_big(n: nat) -> Seq<char> {
    "OLED 字模数据 "@ + dec(n) + " B 超过安全上限 12288 B"@
}

/// Builds the Lua font module of a project: it hands out the glyphs to
/// rasterise one by one, checks the bitmap budget as rasters come in, and
/// writes the module once every glyph is there.
pub struct FontModuleBuilder {
    glyphs: Vec<SizeGlyphs>,
    texts: Vec<SizeTexts>,
    jobs: Vec<(u8, u32)>,
    rasters: Vec<Vec<u8>>,
}

pub open spec fn rasters_view(r: Seq<Vec<u8>>) -> Seq<Seq<u8>> {
    r.map_values(|v: Vec<u8>| v@)
}

impl FontModuleBuilder {
    /// Glyph lists, in order.
    pub closed spec fn glyph_lists(&self) -> Seq<(u8, Seq<u32>)> {
        glyphs_view(self.glyphs@)
    }

    /// Static texts per size.
    pub closed spec fn text_lists(&self) -> Seq<(u8, Seq<Seq<char>>)> {
        texts_view(self.texts@)
    }

    /// Rasters received so far.
    pub closed spec fn received(&self) -> Seq<Seq<u8>> {
        rasters_view(self.rasters@)
    }

    /// The builder's consistency: jobs follow the glyph lists, at most
    /// `MAX_GLYPHS` of them, every raster fits its size and all of them fit
    /// the bitmap budget.
    pub closed spec fn wf(&self) -> bool {
        &&& self.jobs@ == jobs_of(glyphs_view(self.glyphs@))
        &&& self.jobs@.len() <= MAX_GLYPHS
        &&& self.rasters@.len() <= self.jobs@.len()
        &&& bytes_total(rasters_view(self.rasters@)) <= MAX_BITMAP_BYTES
        &&& forall|k: int| 0 <= k < self.rasters@.len() ==> #[trigger] self.rasters@[k]@.len() <= self.jobs@[k].0
            * (self.jobs@[k].0 / 8)
    }

    /// The next glyph to rasterise, if any.
    pub closed spec fn pending(&self) -> Option<(u8, u32)> {
        if self.rasters@.len() < self.jobs@.len() {
            Some(self.jobs@[self.rasters@.len() as int])
        } else {
            None
        }
    }

    /// Number of glyphs to rasterise.
    pub fn glyph_count(&self) -> (n: usize)
        requires
            self.wf(),
        ensures
            n == jobs_of(self.glyph_lists()).len(),
    {
        self.jobs.len()
    }

    /// The next glyph to rasterise: font size and code point.
    pub fn next_job(&self) -> (r: Option<(u8, u32)>)
        requires
            self.wf(),
        ensures
            r == self.pending(),
    {
        if self.rasters.len() < self.jobs.len() {
            Some(self.jobs[self.rasters.len()])
        } else {
            None
        }
    }
}

proof fn lemma_jobs_len(g: Seq<(u8, Seq<u32>)>, i: int)
    requires
        0 <= i < g.len(),
    ensures
        jobs_of(g.take(i + 1)) == jobs_of(g.take(i)) + g[i].1.map_values(|c: u32| (g[i].0, c)),
{
    assert(g.take(i + 1).drop_last() =~= g.take(i));
}

fn jobs_for(glyphs: &Vec<SizeGlyphs>) -> (r: Vec<(u8, u32)>)
    ensures
        r@ == jobs_of(glyphs_view(glyphs@)),
{
    let ghost g = glyphs_view(glyphs@);
    let mut r: Vec<(u8, u32)> = Vec::new();
    let mut i: usize = 0;
    proof {
        assert(g.take(0) =~= Seq::<(u8, Seq<u32>)>::empty());
    }
    while i < glyphs.len()
        invariant
            i <= glyphs@.len(),
            g == glyphs_view(glyphs@),
            r@ == jobs_of(g.take(i as int)),
        decreases glyphs.len() - i,
    {
        let size = glyphs[i].size;
        let codes = &glyphs[i].codes;
        proof {
            lemma_jobs_len(g, i as int);
            assert(g[i as int] == (size, codes@));
        }
        let ghost start = r@;
        let mut k: usize = 0;
        while k < codes.len()
            invariant
                k <= codes@.len(),
                r@ == start + codes@.take(k as int).map_values(|c: u32| (size, c)),
            decreases codes.len() - k,
        {
            r.push((size, codes[k]));
            proof {
                assert(r@ =~= start + codes@.take(k + 1).map_values(|c: u32| (size, c)));
            }
            k = k + 1;
        }
        proof {
            assert(codes@.take(codes@.len() as int) =~= codes@);
        }
        i = i + 1;
    }
    proof {
        assert(g.take(glyphs@.len() as int) =~= g);
    }
    r
}

fn sum_lens(r: &Vec<Vec<u8>>) -> (n: usize)
    requires
        bytes_total(rasters_view(r@)) <= MAX_BITMAP_BYTES,
    ensures
        n == bytes_total(rasters_view(r@)),
{
    let ghost rv = rasters_view(r@);
    let mut n: usize = 0;
    let mut i: usize = 0;
    proof {
        assert(rv.take(0) =~= Seq::<Seq<u8>>::empty());
    }
    while i < r.len()
        invariant
            i <= r@.len(),
            rv == rasters_view(r@),
            bytes_total(rv) <= MAX_BITMAP_BYTES,
            n == bytes_total(rv.take(i as int)),
        decreases r.len() - i,
    {
        proof {
            assert(rv.take(i + 1).drop_last() =~= rv.take(i as int));
            lemma_bytes_total_prefix(rv, i + 1);
        }
        n = n + r[i].len();
        i = i + 1;
    }
    proof {
        assert(rv.take(r@.len() as int) =~= rv);
    }
    n
}

proof fn lemma_bytes_total_prefix(r: Seq<Seq<u8>>, i: int)
    requires
        0 <= i <= r.len(),
    ensures
        bytes_total(r.take(i)) <= bytes_total(r),
    decreases r.len() - i,
{
    if i < r.len() {
        lemma_bytes_total_prefix(r, i + 1);
        assert(r.take(i + 1).drop_last() =~= r.take(i));
    } else {
        assert(r.take(i) =~= r);
    }
}

/// Analyses the sources and prepares the font module: `None` when they do
/// not use the OLED module; refused when more than `MAX_GLYPHS` glyphs are
/// needed.
pub fn build_oled_font_module(source: &str) -> (r: Result<Option<FontModuleBuilder>, String>)
    ensures
        match analyze(source@) {
            Err(m) => r matches Err(e) && e@ == m,
            Ok(p) => if !p.uses {
                r matches Ok(None)
            } else if jobs_of(plan_glyphs(p)).len() > MAX_GLYPHS {
                r matches Err(e) && e@ == msg_too_many(jobs_of(plan_glyphs(p)).len())
            } else {
                r matches Ok(Some(b)) && b.wf() && b.glyph_lists() == plan_glyphs(p) && b.text_lists()
                    == plan_texts(p) && b.received().len() == 0
            },
        },
{
    let plan = analyze_oled_fonts(source)?;
    if !plan.uses_oled {
        return Ok(None);
    }
    let jobs = jobs_for(&plan.glyphs);
    if jobs.len() > MAX_GLYPHS {
        let mut out: Vec<char> = Vec::new();
        append_str(&mut out, "OLED 字模共 ");
        push_decimal(&mut out, jobs.len() as u64);
        append_str(&mut out, " 个，超过单次运行上限 192；请拆分工程文本");
        return Err(string_from(out.as_slice()));
    }
    let b = FontModuleBuilder { glyphs: plan.glyphs, texts: plan.texts, jobs, rasters: Vec::new() };
    proof {
        assert(rasters_view(b.rasters@) =~= Seq::<Seq<u8>>::empty());
    }
    Ok(Some(b))
}

impl FontModuleBuilder {
    /// Takes the raster of the pending glyph (page-major columns, `size`
    /// bytes per page); refused when the bitmaps would exceed
    /// `MAX_BITMAP_BYTES`.
    pub fn accept(&mut self, raster: Vec<u8>) -> (r: Result<(), String>)
        requires
            old(self).wf(),
            old(self).pending() matches Some(job) && raster@.len() <= job.0 * (job.0 / 8),
        ensures
            final(self).wf(),
            final(self).glyph_lists() == old(self).glyph_lists(),
            final(self).text_lists() == old(self).text_lists(),
            match r {
                Ok(()) => bytes_total(old(self).received()) + raster@.len() <= MAX_BITMAP_BYTES
                    && final(self).received() == old(self).received().push(raster@),
                Err(e) => bytes_total(old(self).received()) + raster@.len() > MAX_BITMAP_BYTES
                    && e@ == msg_too_big(bytes_total(old(self).received()) + raster@.len())
                    && final(self).received() == old(self).received(),
            },
    {
        let total = sum_lens(&self.rasters);
        if raster.len() > MAX_BITMAP_BYTES - total {
            let next: u128 = total as u128 + raster.len() as u128;
            let mut out: Vec<char> = Vec::new();
            append_str(&mut out, "OLED 字模数据 ");
            push_decimal_wide(&mut out, next);
            append_str(&mut out, " B 超过安全上限 12288 B");
            return Err(string_from(out.as_slice()));
        }
        let ghost before = self.rasters@;
        let ghost rv = raster@;
        self.rasters.push(raster);
        proof {
            assert(rasters_view(self.rasters@) =~= rasters_view(before).push(rv));
            assert(rasters_view(self.rasters@).drop_last() =~= rasters_view(before));
            assert forall|k: int| 0 <= k < self.rasters@.len() implies #[trigger] self.rasters@[k]@.len() <= self.jobs@[k].0
                * (self.jobs@[k].0 / 8) by {
                if k < before.len() {
                    assert(self.rasters@[k] == before[k]);
                }
            }
        }
        Ok(())
    }
}

fn push_page_line(out: &mut Vec<char>, size: u8, code: u32, r: &[u8], p: usize)
    requires
        p < 32,
    ensures
        final(out)@ == old(out)@ + page_line(size as nat, code, r@, p as nat),
{
    let sz = size as usize;
    proof {
        assert(p * sz <= 31 * 255 && (p + 1) * sz <= 32 * 255 && p * sz <= (p + 1) * sz) by (nonlinear_arith)
            requires
                p < 32,
                sz <= 255,
        ;
    }
    let start = p * sz;
    if start < r.len() {
        let end = if (p + 1) * sz < r.len() { (p + 1) * sz } else { r.len() };
        let ghost before = out@;
        append_str(out, "      [");
        push_decimal(out, code as u64);
        append_str(out, "] = ");
        out.push('"');
        let chunk = &r[start..end];
        proof {
            assert(chunk@ =~= r@.subrange(start as int, end as int));
        }
        push_bin_escaped(out, chunk);
        out.push('"');
        append_str(out, ",\n");
        proof {
            assert(out@ =~= before + page_line(size as nat, code, r@, p as nat));
        }
    } else {
        proof {
            assert(old(out)@ + Seq::<char>::empty() =~= old(out)@);
        }
    }
}

/// Page `p` of one size: lines of the glyphs `codes` with rasters `rs[off..off+n]`.
fn push_page_lines(out: &mut Vec<char>, size: u8, codes: &Vec<u32>, rs: &Vec<Vec<u8>>, off: usize, p: usize)
    requires
        p < 32,
        off + codes@.len() <= rs@.len(),
    ensures
        final(out)@ == old(out)@ + page_lines(
            size as nat,
            codes@,
            rasters_view(rs@).subrange(off as int, off + codes@.len()),
            p as nat,
        ),
{
    let ghost rz = rasters_view(rs@).subrange(off as int, off + codes@.len());
    let n = rs.len();
    let mut k: usize = 0;
    proof {
        assert(codes@.take(0) =~= Seq::<u32>::empty());
        assert(old(out)@ + Seq::<char>::empty() =~= old(out)@);
    }
    while k < codes.len()
        invariant
            k <= codes@.len(),
            p < 32,
            n == rs@.len(),
            off + codes@.len() <= n,
            rz == rasters_view(rs@).subrange(off as int, off + codes@.len()),
            out@ == old(out)@ + page_lines(size as nat, codes@.take(k as int), rz.take(k as int), p as nat),
        decreases codes.len() - k,
    {
        let ghost before = out@;
        push_page_line(out, size, codes[k], rs[off + k].as_slice(), p);
        proof {
            assert(codes@.take(k + 1).drop_last() =~= codes@.take(k as int));
            assert(rz.take(k + 1).drop_last() =~= rz.take(k as int));
            assert(rz.take(k + 1).last() == rs@[off + k]@);
            assert(out@ =~= old(out)@ + page_lines(size as nat, codes@.take(k + 1), rz.take(k + 1), p as nat));
        }
        k = k + 1;
    }
    proof {
        assert(codes@.take(codes@.len() as int) =~= codes@);
        assert(rz.take(codes@.len() as int) =~= rz);
    }
}

fn push_codes_list(out: &mut Vec<char>, cs: &Vec<u32>)
    ensures
        final(out)@ == old(out)@ + codes_list(cs@),
{
    let mut k: usize = 0;
    proof {
        assert(cs@.take(0) =~= Seq::<u32>::empty());
        assert(old(out)@ + Seq::<char>::empty() =~= old(out)@);
    }
    while k < cs.len()
        invariant
            k <= cs@.len(),
            out@ == old(out)@ + codes_list(cs@.take(k as int)),
        decreases cs.len() - k,
    {
        push_decimal(out, cs[k] as u64);
        append_str(out, ",");
        proof {
            assert(cs@.take(k + 1).drop_last() =~= cs@.take(k as int));
            assert(out@ =~= old(out)@ + codes_list(cs@.take(k + 1)));
        }
        k = k + 1;
    }
    proof {
        assert(cs@.take(cs@.len() as int) =~= cs@);
    }
}

fn push_texts_block(out: &mut Vec<char>, texts: &Vec<SizeTexts>, size: u8)
    ensures
        final(out)@ == old(out)@ + texts_block(texts_for(texts_view(texts@), size)),
{
    let ghost tx = texts_view(texts@);
    let mut i: usize = 0;
    proof {
        assert(tx.skip(0) =~= tx);
    }
    while i < texts.len() && texts[i].size != size
        invariant
            i <= texts@.len(),
            tx == texts_view(texts@),
            texts_for(tx, size) == texts_for(tx.skip(i as int), size),
        decreases texts.len() - i,
    {
        proof {
            assert(tx.skip(i as int).drop_first() =~= tx.skip(i + 1));
        }
        i = i + 1;
    }
    if i == texts.len() {
        proof {
            assert(tx.skip(i as int) =~= Seq::<(u8, Seq<Seq<char>>)>::empty());
            assert(old(out)@ + Seq::<char>::empty() =~= old(out)@);
        }
        return;
    }
    let list = &texts[i].texts;
    let ghost ts = list@.map_values(|x: StaticText| x.text@);
    proof {
        assert(tx.skip(i as int)[0] == tx[i as int]);
        assert(texts_for(tx, size) == ts);
        assert(ts.take(0) =~= Seq::<Seq<char>>::empty());
        assert(old(out)@ + Seq::<char>::empty() =~= old(out)@);
    }
    let mut k: usize = 0;
    while k < list.len()
        invariant
            k <= list@.len(),
            ts == list@.map_values(|x: StaticText| x.text@),
            out@ == old(out)@ + texts_block(ts.take(k as int)),
        decreases list.len() - k,
    {
        let chars = chars_of(list[k].text.as_str());
        let codes = codes_vec(chars.as_slice());
        let ghost before = out@;
        append_str(out, "    [");
        out.push('"');
        push_lua_escaped(out, chars.as_slice());
        out.push('"');
        append_str(out, "] = {");
        push_codes_list(out, &codes);
        append_str(out, "},\n");
        proof {
            assert(ts.take(k + 1).drop_last() =~= ts.take(k as int));
            assert(ts.take(k + 1).last() == chars@);
            assert(out@ =~= old(out)@ + texts_block(ts.take(k + 1)));
        }
        k = k + 1;
    }
    proof {
        assert(ts.take(list@.len() as int) =~= ts);
    }
}

fn push_size_block(out: &mut Vec<char>, size: u8, codes: &Vec<u32>, rs: &Vec<Vec<u8>>, off: usize, texts: &Vec<SizeTexts>)
    requires
        off + codes@.len() <= rs@.len(),
    ensures
        final(out)@ == old(out)@ + size_block(
            size,
            codes@,
            rasters_view(rs@).subrange(off as int, off + codes@.len()),
            texts_for(texts_view(texts@), size),
        ),
{
    let ghost rz = rasters_view(rs@).subrange(off as int, off + codes@.len());
    append_str(out, "  [");
    push_decimal(out, size as u64);
    append_str(out, "] = { width = ");
    push_decimal(out, size as u64);
    append_str(out, ", pages = ");
    push_decimal(out, (size / 8) as u64);
    append_str(out, ", glyphs = {\n");
    let ghost head = out@;
    let pages: usize = (size / 8) as usize;
    let mut p: usize = 0;
    proof {
        assert(head + pages_block(size as nat, codes@, rz, 0) =~= head);
    }
    while p < pages
        invariant
            p <= pages,
            pages == size / 8,
            pages < 32,
            off + codes@.len() <= rs@.len(),
            rz == rasters_view(rs@).subrange(off as int, off + codes@.len()),
            out@ == head + pages_block(size as nat, codes@, rz, p as nat),
        decreases pages - p,
    {
        append_str(out, "    {\n");
        push_page_lines(out, size, codes, rs, off, p);
        append_str(out, "    },\n");
        proof {
            assert(out@ =~= head + pages_block(size as nat, codes@, rz, (p + 1) as nat));
        }
        p = p + 1;
    }
    append_str(out, "  }, texts = {\n");
    push_texts_block(out, texts, size);
    append_str(out, "  } },\n");
    proof {
        assert(out@ =~= old(out)@ + size_block(size, codes@, rz, texts_for(texts_view(texts@), size)));
    }
}

proof fn lemma_jobs_of_len(g: Seq<(u8, Seq<u32>)>, i: int)
    requires
        0 <= i < g.len(),
    ensures
        jobs_of(g.take(i + 1)).len() == jobs_of(g.take(i)).len() + g[i].1.len(),
        jobs_of(g.take(i + 1)).len() <= jobs_of(g).len(),
    decreases g.len() - i,
{
    lemma_jobs_len(g, i);
    if i + 1 < g.len() {
        lemma_jobs_of_len(g, i + 1);
    } else {
        assert(g.take(i + 1) =~= g);
    }
}

impl FontModuleBuilder {
    /// A builder never holds more than `MAX_GLYPHS` glyphs, nor rasters of
    /// more than `MAX_BITMAP_BYTES` bytes in all: [`build_oled_font_module`]
    /// refuses larger glyph sets and [`FontModuleBuilder::accept`] larger
    /// rasters, so the module [`FontModuleBuilder::finish`] writes keeps
    /// both bounds.
    pub proof fn law_font_module_bounds(&self)
        requires
            self.wf(),
        ensures
            jobs_of(self.glyph_lists()).len() <= MAX_GLYPHS,
            self.received().len() <= jobs_of(self.glyph_lists()).len(),
            bytes_total(self.received()) <= MAX_BITMAP_BYTES,
    {
    }

    /// Writes the module once every glyph is rasterised: the summary
    /// message and the Lua source.
    pub fn finish(&self) -> (r: (String, String))
        requires
            self.wf(),
            self.pending() is None,
        ensures
            r.0@ == module_message(self.glyph_lists(), bytes_total(self.received())),
            r.1@ == module_text(self.glyph_lists(), self.text_lists(), self.received()),
    {
        let ghost g = glyphs_view(self.glyphs@);
        let ghost rv = rasters_view(self.rasters@);
        let mut out: Vec<char> = Vec::new();
        append_str(&mut out, "return {\n");
        let ghost head = out@;
        let mut i: usize = 0;
        let mut off: usize = 0;
        proof {
            assert(g.take(0) =~= Seq::<(u8, Seq<u32>)>::empty());
            assert(head + Seq::<char>::empty() =~= head);
        }
        while i < self.glyphs.len()
            invariant
                self.wf(),
                self.pending() is None,
                i <= self.glyphs@.len(),
                g == glyphs_view(self.glyphs@),
                rv == rasters_view(self.rasters@),
                rv.len() == jobs_of(g).len(),
                off == jobs_of(g.take(i as int)).len(),
                off <= rv.len(),
                out@ == head + sizes_text(g.take(i as int), texts_view(self.texts@), rv.take(off as int)),
            decreases self.glyphs.len() - i,
        {
            let size = self.glyphs[i].size;
            let codes = &self.glyphs[i].codes;
            proof {
                lemma_jobs_of_len(g, i as int);
                assert(g[i as int] == (size, codes@));
            }
            let ghost before = out@;
            push_size_block(&mut out, size, codes, &self.rasters, off, &self.texts);
            proof {
                let n = codes@.len();
                let gi = g.take(i + 1);
                assert(gi.drop_last() =~= g.take(i as int));
                assert(gi.last() == (size, codes@));
                let r1 = rv.take(off + n);
                assert(r1.take(r1.len() - n) =~= rv.take(off as int));
                assert(r1.skip(r1.len() - n) =~= rv.subrange(off as int, off + n));
                assert(out@ =~= head + sizes_text(gi, texts_view(self.texts@), r1));
            }
            off = off + codes.len();
            i = i + 1;
        }
        append_str(&mut out, "}\n");
        proof {
            assert(g.take(self.glyphs@.len() as int) =~= g);
            assert(rv.take(off as int) =~= rv);
        }
        let bitmap = sum_lens(&self.rasters);
        let mut msg: Vec<char> = Vec::new();
        append_str(&mut msg, "OLED 自动取模 ");
        let ghost mhead = msg@;
        let mut j: usize = 0;
        proof {
            assert(mhead + sizes_summary(g.take(0)) =~= mhead);
        }
        while j < self.glyphs.len()
            invariant
                j <= self.glyphs@.len(),
                g == glyphs_view(self.glyphs@),
                msg@ == mhead + sizes_summary(g.take(j as int)),
            decreases self.glyphs.len() - j,
        {
            if j > 0 {
                append_str(&mut msg, ", ");
            }
            push_decimal(&mut msg, self.glyphs[j].size as u64);
            append_str(&mut msg, "px:");
            push_decimal(&mut msg, self.glyphs[j].codes.len() as u64);
            append_str(&mut msg, "字");
            proof {
                assert(g.take(j + 1).drop_last() =~= g.take(j as int));
                assert(g.take(j + 1).last() == g[j as int]);
                assert(msg@ =~= mhead + sizes_summary(g.take(j + 1)));
            }
            j = j + 1;
        }
        proof {
            assert(g.take(self.glyphs@.len() as int) =~= g);
        }
        append_str(&mut msg, "，位图 ");
        push_decimal(&mut msg, bitmap as u64);
        append_str(&mut msg, " B -> _oled_font.luac");
        proof {
            assert(msg@ =~= module_message(g, bytes_total(rv)));
            assert(out@ =~= module_text(g, texts_view(self.texts@), rv));
        }
        (string_from(msg.as_slice()), string_from(out.as_slice()))
    }
}

/// Brightness of the pixel whose blue, green and red bytes start at `off`.
pub open spec fn luminance(px: Seq<u8>, off: int) -> int {
    (px[off] + px[off + 1] + px[off + 2]) / 3
}

/// Whether the pixel in row `y`, column `x` of a `width`-wide 32-bit
/// bitmap counts as lit.
pub open spec fn lit(px: Seq<u8>, width: int, y: int, x: int) -> bool {
    luminance(px, (y * width + x) * 4) > 96
}

/// `2^b` for a bit position `b` of a byte.
pub open spec fn bit_value(b: int) -> int
    decreases b,
{
    if b <= 0 {
        1
    } else {
        2 * bit_value(b - 1)
    }
}

/// The first `n` bits of the column at `x` of page `page`: bit `b` is the
/// pixel in row `page * 8 + b`.
pub open spec fn column_bits(px: Seq<u8>, width: int, page: int, x: int, n: int) -> int
    decreases n,
{
    if n <= 0 {
        0
    } else {
        column_bits(px, width, page, x, n - 1) + if lit(px, width, page * 8 + n - 1, x) {
            bit_value(n - 1)
        } else {
            0
        }
    }
}

/// A glyph bitmap packed for the display: one byte per column of each
/// 8-row page, pages one after the other.
pub open spec fn packed_glyph(px: Seq<u8>, size: int) -> Seq<u8> {
    Seq::new(
        (size * (size / 8)) as nat,
        |i: int| column_bits(px, size, i / size, i % size, 8) as u8,
    )
}

proof fn lemma_column_bits_bound(px: Seq<u8>, width: int, page: int, x: int, n: int)
    requires
        0 <= n <= 8,
    ensures
        0 <= column_bits(px, width, page, x, n) < bit_value(n),
    decreases n,
{
    if n > 0 {
        lemma_column_bits_bound(px, width, page, x, n - 1);
    }
}

/// Packs a rendered glyph (`size` x `size` pixels, 4 bytes each, rows top
/// down): a column bit is set where the pixel's brightness exceeds 96.
/// `None` when no bit is set and the glyph is not the space character:
/// the font lacks it.
pub fn pack_glyph(pixels: &[u8], size: u8, is_space: bool) -> (r: Option<Vec<u8>>)
    requires
        size == 8 || size == 16,
        pixels@.len() == size * size * 4,
    ensures
        match r {
            Some(v) => v@ == packed_glyph(pixels@, size as int) && (is_space || exists|i: int|
                0 <= i < v@.len() && v@[i] != 0),
            None => !is_space && forall|i: int| 0 <= i < packed_glyph(pixels@, size as int).len() ==> #[trigger] packed_glyph(pixels@, size as int)[i] == 0,
        },
{
    let width = size as usize;
    let pages = width / 8;
    let masks: [u8; 8] = [1, 2, 4, 8, 16, 32, 64, 128];
    let ghost px = pixels@;
    let ghost w = width as int;
    let mut out: Vec<u8> = Vec::new();
    let mut any = false;
    let mut page: usize = 0;
    while page < pages
        invariant
            width == size as usize,
            w == width,
            pages == width / 8,
            px == pixels@,
            pixels@.len() == size * size * 4,
            size == 8 || size == 16,
            page <= pages,
            masks@ == seq![1u8, 2, 4, 8, 16, 32, 64, 128],
            out@.len() == page * width,
            forall|i: int| 0 <= i < out@.len() ==> #[trigger] out@[i] == column_bits(px, w, i / w, i % w, 8) as u8,
            any == exists|i: int| 0 <= i < out@.len() && out@[i] != 0,
        decreases pages - page,
    {
        let mut x: usize = 0;
        while x < width
            invariant
                width == size as usize,
                w == width,
                pages == width / 8,
                px == pixels@,
                pixels@.len() == size * size * 4,
                size == 8 || size == 16,
                page < pages,
                x <= width,
                masks@ == seq![1u8, 2, 4, 8, 16, 32, 64, 128],
                out@.len() == page * width + x,
                forall|i: int| 0 <= i < out@.len() ==> #[trigger] out@[i] == column_bits(px, w, i / w, i % w, 8) as u8,
                any == exists|i: int| 0 <= i < out@.len() && out@[i] != 0,
            decreases width - x,
        {
            let mut column: u8 = 0;
            let mut bit: usize = 0;
            while bit < 8
                invariant
                    width == size as usize,
                    w == width,
                    px == pixels@,
                    pixels@.len() == size * size * 4,
                    size == 8 || size == 16,
                    page < pages,
                    pages == width / 8,
                    x < width,
                    bit <= 8,
                    masks@ == seq![1u8, 2, 4, 8, 16, 32, 64, 128],
                    column as int == column_bits(px, w, page as int, x as int, bit as int),
                decreases 8 - bit,
            {
                let y = page * 8 + bit;
                proof {
                    assert(y < width) by (nonlinear_arith)
                        requires
                            page < pages,
                            pages == width / 8,
                            bit < 8,
                            y == page * 8 + bit,
                            width == 8 || width == 16,
                    ;
                    assert((y * width + x) * 4 + 2 < pixels@.len()) by (nonlinear_arith)
                        requires
                            y < width,
                            x < width,
                            width == size,
                            pixels@.len() == size * size * 4,
                    ;
                    lemma_column_bits_bound(px, w, page as int, x as int, bit as int);
                    reveal_with_fuel(bit_value, 9);
                    assert(bit_value(bit as int) == masks@[bit as int] as int);
                    assert(bit_value(bit + 1) == 2 * bit_value(bit as int));
                    assert(bit_value(bit + 1) <= 256);
                }
                let offset = (y * width + x) * 4;
                let lum = (pixels[offset] as u16 + pixels[offset + 1] as u16 + pixels[offset + 2] as u16) / 3;
                if lum > 96 {
                    column = column + masks[bit];
                }
                bit = bit + 1;
            }
            proof {
                let i = out@.len() as int;
                vstd::arithmetic::div_mod::lemma_fundamental_div_mod_converse(i, w, page as int, x as int);
            }
            let ghost before = out@;
            out.push(column);
            if column != 0 {
                any = true;
            }
            proof {
                assert forall|i: int| 0 <= i < out@.len() implies #[trigger] out@[i] == column_bits(px, w, i / w, i % w, 8) as u8 by {
                    if i < before.len() {
                        assert(out@[i] == before[i]);
                    }
                }
                if any {
                    if column != 0 {
                        assert(out@[before.len() as int] != 0);
                    } else {
                        let k = choose|k: int| 0 <= k < before.len() && before[k] != 0;
                        assert(out@[k] != 0);
                    }
                }
                if exists|k: int| 0 <= k < out@.len() && out@[k] != 0 {
                    let k = choose|k: int| 0 <= k < out@.len() && out@[k] != 0;
                    if k < before.len() {
                        assert(before[k] != 0);
                    }
                }
            }
            x = x + 1;
        }
        page = page + 1;
        proof {
            assert(out@.len() == page * width) by (nonlinear_arith)
                requires
                    out@.len() == (page - 1) * width + width,
            ;
        }
    }
    proof {
        assert(out@.len() == size * (size / 8)) by (nonlinear_arith)
            requires
                out@.len() == page * width,
                page == pages,
                pages == width / 8,
                width == size,
        ;
        assert(out@ =~= packed_glyph(px, size as int));
    }
    if !any && !is_space {
        return None;
    }
    Some(out)
}

/// The font file extensions the rasteriser accepts (compared in lower case).
pub open spec fn font_ext_ok(ext: Seq<char>) -> bool {
    let e = to_ascii_lowercase(ext);
    e == "ttf"@ || e == "ttc"@ || e == "otf"@
}

/// Checks a resolved font file: it must exist and be a TrueType or
/// OpenType file; the error names the font by `label` and gives the path.
pub fn check_font_file(path: &str, label: &str, is_file: bool, extension: &str) -> (r: Result<(), String>)
    ensures
        !is_file ==> (r matches Err(e) && e@ == label@ + "字体不存在: "@ + path@),
        is_file && !font_ext_ok(extension@) ==> (r matches Err(e) && e@ == label@ + "字体格式不支持: "@ + path@),
        is_file && font_ext_ok(extension@) ==> r is Ok,
{
    if !is_file {
        let mut m = chars_of(label);
        append_str(&mut m, "字体不存在: ");
        append_str(&mut m, path);
        return Err(string_from(m.as_slice()));
    }
    let ext = ascii_lower(chars_of(extension).as_slice());
    if chars_eq(ext.as_slice(), chars_of("ttf").as_slice()) || chars_eq(ext.as_slice(), chars_of("ttc").as_slice())
        || chars_eq(ext.as_slice(), chars_of("otf").as_slice()) {
        Ok(())
    } else {
        let mut m = chars_of(label);
        append_str(&mut m, "字体格式不支持: ");
        append_str(&mut m, path);
        Err(string_from(m.as_slice()))
    }
}

} // verus!

