//! The project context copied for a coding assistant: operating rules, the
//! board's I2C and SPI routing, and a summary of the firmware API, all
//! written as plain text from the metadata documents.
use vstd::prelude::*;
use crate::text::{append_chars, append_str, chars_of, string_from, find_char, lemma_find_char, starts_with, starts_with_chars, sub_chars};
use crate::fontpack::{ins_str, insert_str, strs_view, chars_eq, str_lt, compare_chars, strs_rising, lemma_ins_str};
use crate::metadata::{Json, JsonMember, member, member_of, jget, jstr, jbool, jarr, opt_arr, str_elems, string_elems, opt_array, json_get, json_str, clone_chars, ins_sorted, sort_stable, find_first, lemma_find_first};
use crate::text::{dec, push_decimal};

verus! {

// ─── JSON as text ───────────────────────────────────────────────────────

/// The JSON string literal `serde_json` writes for `s`: quoted, with its
/// escapes.
pub uninterp spec fn json_quoted(s: Seq<char>) -> Seq<char>;

/// Writes `s` as a JSON string with `serde_json`, as `Value::String`'s
/// `Display` does. The contract names the result; the escaping rules are
/// not stated.
#[verifier::external_body]
fn json_string(s: &str) -> (r: String)
    ensures
        r@ == json_quoted(s@),
{
    serde_json::Value::String(s.to_string()).to_string()
}

/// The compact JSON text of a value (what `Value`'s `Display` writes):
/// numbers as their text, strings as `serde_json` quotes them, arrays and
/// objects with `,` between elements and members in order, no spaces.
pub open spec fn json_text(v: Json) -> Seq<char>
    decreases v, 0int,
{
    match v {
        Json::Null => "null"@,
        Json::Bool(b) => if b { "true"@ } else { "false"@ },
        Json::Number(_, t) => t@,
        Json::Str(s) => json_quoted(s@),
        Json::Array(a) => seq!['['] + items_text(a@) + seq![']'],
        Json::Object(m) => seq!['{'] + members_text(m@) + seq!['}'],
    }
}

/// Array elements as JSON, separated by `,`.
pub open spec fn items_text(a: Seq<Json>) -> Seq<char>
    decreases a, 1int,
{
    if a.len() == 0 {
        Seq::empty()
    } else if a.len() == 1 {
        json_text(a[0])
    } else {
        items_text(a.drop_last()) + seq![','] + json_text(a.last())
    }
}

/// Object members as JSON (`"key":value`), separated by `,`.
pub open spec fn members_text(m: Seq<JsonMember>) -> Seq<char>
    decreases m, 1int,
{
    if m.len() == 0 {
        Seq::empty()
    } else if m.len() == 1 {
        json_quoted(m[0].key@) + seq![':'] + json_text(m[0].value)
    } else {
        members_text(m.drop_last()) + seq![','] + json_quoted(m.last().key@) + seq![':'] + json_text(m.last().value)
    }
}

fn push_quoted(out: &mut Vec<char>, s: &Vec<char>)
    ensures
        final(out)@ == old(out)@ + json_quoted(s@),
{
    let t = string_from(s.as_slice());
    let q = json_string(t.as_str());
    append_str(out, q.as_str());
}

/// Appends the compact JSON text of `v`.
pub fn push_json(out: &mut Vec<char>, v: &Json)
    ensures
        final(out)@ == old(out)@ + json_text(*v),
    decreases v,
{
    match v {
        Json::Null => append_str(out, "null"),
        Json::Bool(b) => if *b {
            append_str(out, "true")
        } else {
            append_str(out, "false")
        },
        Json::Number(_, t) => append_chars(out, t.as_slice()),
        Json::Str(s) => push_quoted(out, s),
        Json::Array(a) => {
            out.push('[');
            let ghost start = out@;
            let mut i: usize = 0;
            while i < a.len()
                invariant
                    i <= a@.len(),
                    *v is Array,
                    (*v)->Array_0 == *a,
                    out@ == start + items_text(a@.take(i as int)),
                decreases a.len() - i,
            {
                proof {
                    assert(a@.take(i + 1).drop_last() =~= a@.take(i as int));
                    let ghost av: Vec<Json> = *a;
                    assert(decreases_to!(*v => (*v)->Array_0));
                    assert((*v)->Array_0 == av);
                    assert(decreases_to!(av => av@));
                    assert(decreases_to!(av@ => av@[i as int]));
                    assert(decreases_to!(*v => a@[i as int]));
                }
                if i > 0 {
                    out.push(',');
                }
                push_json(out, &a[i]);
                proof {
                    if i == 0 {
                        assert(out@ =~= start + items_text(a@.take(1)));
                    } else {
                        assert(out@ =~= start + items_text(a@.take(i + 1)));
                    }
                }
                i = i + 1;
            }
            proof {
                assert(a@.take(a@.len() as int) =~= a@);
            }
            out.push(']');
            proof {
                assert(out@ =~= old(out)@ + json_text(*v));
            }
        },
        Json::Object(m) => {
            out.push('{');
            let ghost start = out@;
            let mut i: usize = 0;
            while i < m.len()
                invariant
                    i <= m@.len(),
                    *v is Object,
                    (*v)->Object_0 == *m,
                    out@ == start + members_text(m@.take(i as int)),
                decreases m.len() - i,
            {
                proof {
                    assert(m@.take(i + 1).drop_last() =~= m@.take(i as int));
                    let ghost mv: Vec<JsonMember> = *m;
                    assert(decreases_to!(*v => (*v)->Object_0));
                    assert((*v)->Object_0 == mv);
                    assert(decreases_to!(mv => mv@));
                    assert(decreases_to!(mv@ => mv@[i as int]));
                    assert(decreases_to!(mv@[i as int] => mv@[i as int].value));
                    assert(decreases_to!(*v => m@[i as int].value));
                }
                if i > 0 {
                    out.push(',');
                }
                push_quoted(out, &m[i].key);
                out.push(':');
                push_json(out, &m[i].value);
                proof {
                    if i == 0 {
                        assert(out@ =~= start + members_text(m@.take(1)));
                    } else {
                        assert(out@ =~= start + members_text(m@.take(i + 1)));
                    }
                }
                i = i + 1;
            }
            proof {
                assert(m@.take(m@.len() as int) =~= m@);
            }
            out.push('}');
            proof {
                assert(out@ =~= old(out)@ + json_text(*v));
            }
        },
    }
}

// ─── board routing ──────────────────────────────────────────────────────

/// `f` split at its first `_`: what stands before and after it.
pub open spec fn split_underscore(f: Seq<char>) -> Option<(Seq<char>, Seq<char>)> {
    let k = find_char(f, '_');
    if k < f.len() {
        Some((f.take(k as int), f.skip(k + 1int)))
    } else {
        None
    }
}

/// The bus route a pin function names, as (instance, signal): for I2C an
/// `I2C…` instance with `SCL` or `SDA`; for SPI an `SPI…` instance with
/// `SCLK` (called `SCK`), `PICO` or `POCI`.
pub open spec fn bus_route(f: Seq<char>, spi: bool) -> Option<(Seq<char>, Seq<char>)> {
    match split_underscore(f) {
        None => None,
        Some((inst, sig)) => if !spi {
            if starts_with(inst, "I2C"@) && (sig == "SCL"@ || sig == "SDA"@) {
                Some((inst, sig))
            } else {
                None
            }
        } else {
            let named = if sig == "SCLK"@ {
                Some("SCK"@)
            } else if sig == "PICO"@ {
                Some("PICO"@)
            } else if sig == "POCI"@ {
                Some("POCI"@)
            } else {
                None
            };
            match named {
                Some(x) => if starts_with(inst, "SPI"@) { Some((inst, x)) } else { None },
                None => None,
            }
        },
    }
}

/// The string elements of `xs` as a sorted set.
pub open spec fn str_set(xs: Seq<Seq<char>>) -> Seq<Seq<char>>
    decreases xs.len(),
{
    if xs.len() == 0 {
        Seq::empty()
    } else {
        ins_str(str_set(xs.drop_last()), xs.last())
    }
}

/// The board's exposed pins (the strings of its `pins` array) as a sorted set.
pub open spec fn exposed_pins(board: Json) -> Seq<Seq<char>> {
    str_set(str_elems(opt_arr(board, "pins"@)))
}

/// The functions the chip's pin table lists for pin `p`.
pub open spec fn pin_fns(pins: Seq<JsonMember>, p: Seq<char>) -> Seq<Seq<char>> {
    match member(pins, p) {
        Some(Json::Array(a)) => str_elems(a@),
        _ => Seq::empty(),
    }
}

/// The instances named by routes among `fns`, added to the sorted set `acc`.
pub open spec fn fn_instances(acc: Seq<Seq<char>>, fns: Seq<Seq<char>>, spi: bool) -> Seq<Seq<char>>
    decreases fns.len(),
{
    if fns.len() == 0 {
        acc
    } else {
        let a = fn_instances(acc, fns.drop_last(), spi);
        match bus_route(fns.last(), spi) {
            Some(r) => ins_str(a, r.0),
            None => a,
        }
    }
}

/// The bus instances the pins `ps` can reach, as a sorted set.
pub open spec fn route_instances(pins: Seq<JsonMember>, ps: Seq<Seq<char>>, spi: bool) -> Seq<Seq<char>>
    decreases ps.len(),
{
    if ps.len() == 0 {
        Seq::empty()
    } else {
        fn_instances(route_instances(pins, ps.drop_last(), spi), pin_fns(pins, ps.last()), spi)
    }
}

/// Some function of `fns` routes `inst`'s signal `sig`.
pub open spec fn has_route(fns: Seq<Seq<char>>, spi: bool, inst: Seq<char>, sig: Seq<char>) -> bool {
    exists|k: int| 0 <= k < fns.len() && bus_route(#[trigger] fns[k], spi) == Some((inst, sig))
}

/// The pins of `ps` that carry `inst`'s signal `sig`, in order.
pub open spec fn routed_pins(
    pins: Seq<JsonMember>,
    ps: Seq<Seq<char>>,
    spi: bool,
    inst: Seq<char>,
    sig: Seq<char>,
) -> Seq<Seq<char>>
    decreases ps.len(),
{
    if ps.len() == 0 {
        Seq::empty()
    } else {
        let r = routed_pins(pins, ps.drop_last(), spi, inst, sig);
        if has_route(pin_fns(pins, ps.last()), spi, inst, sig) {
            r.push(ps.last())
        } else {
            r
        }
    }
}

/// `xs` joined with `sep` between neighbours.
pub open spec fn join_with(xs: Seq<Seq<char>>, sep: Seq<char>) -> Seq<char>
    decreases xs.len(),
{
    if xs.len() == 0 {
        Seq::empty()
    } else if xs.len() == 1 {
        xs[0]
    } else {
        join_with(xs.drop_last(), sep) + sep + xs.last()
    }
}

/// A pin list as shown: joined with `, `, or `none` when empty.
pub open spec fn pins_or_none(xs: Seq<Seq<char>>) -> Seq<char> {
    if xs.len() == 0 {
        "none"@
    } else {
        join_with(xs, ", "@)
    }
}

/// The signals shown per instance: `SCL`, `SDA` for I2C; `SCK`, `PICO`,
/// `POCI` for SPI.
pub open spec fn bus_signals(spi: bool) -> Seq<Seq<char>> {
    if spi {
        seq!["SCK"@, "PICO"@, "POCI"@]
    } else {
        seq!["SCL"@, "SDA"@]
    }
}

/// `SIG = pins` for each signal, separated by `; `.
pub open spec fn signal_parts(pins: Seq<JsonMember>, ps: Seq<Seq<char>>, spi: bool, inst: Seq<char>, sigs: Seq<Seq<char>>) -> Seq<
    char,
>
    decreases sigs.len(),
{
    if sigs.len() == 0 {
        Seq::empty()
    } else {
        let part = sigs.last() + " = "@ + pins_or_none(routed_pins(pins, ps, spi, inst, sigs.last()));
        if sigs.len() == 1 {
            part
        } else {
            signal_parts(pins, ps, spi, inst, sigs.drop_last()) + "; "@ + part
        }
    }
}

/// One line per instance: `- INST: SIG = pins; …`.
pub open spec fn instance_lines(pins: Seq<JsonMember>, ps: Seq<Seq<char>>, spi: bool, insts: Seq<Seq<char>>) -> Seq<char>
    decreases insts.len(),
{
    if insts.len() == 0 {
        Seq::empty()
    } else {
        instance_lines(pins, ps, spi, insts.drop_last()) + "- "@ + insts.last() + ": "@ + signal_parts(
            pins,
            ps,
            spi,
            insts.last(),
            bus_signals(spi),
        ) + "\n"@
    }
}

/// The advice line in front of a bus's instances.
pub open spec fn bus_advice(spi: bool) -> Seq<char> {
    if spi {
        "SPI requires one matching instance for SCK/PICO/POCI. CS/DC/RST are distinct exposed GPIOs.\n"@
    } else {
        "Use the same I2C instance for SCL and SDA; only the exposed pins below are valid for this board.\n"@
    }
}

/// A bus's section: nothing when no exposed pin reaches the bus.
pub open spec fn bus_section(pins: Seq<JsonMember>, ps: Seq<Seq<char>>, spi: bool) -> Seq<char> {
    let insts = route_instances(pins, ps, spi);
    if insts.len() == 0 {
        Seq::empty()
    } else {
        bus_advice(spi) + instance_lines(pins, ps, spi, insts)
    }
}

/// The board routing summary: nothing unless the chip file was read and
/// has a pin table (an object); else the heading, the I2C section and the
/// SPI section over the board's exposed pins.
pub open spec fn routing_summary(chip: Option<Json>, board: Json) -> Seq<char> {
    match chip {
        Some(c) => match jget(c, "pins"@) {
            Some(Json::Object(m)) => "\n## Board peripheral routing\n"@ + bus_section(m@, exposed_pins(board), false)
                + bus_section(m@, exposed_pins(board), true),
            _ => Seq::empty(),
        },
        None => Seq::empty(),
    }
}

fn eq_str(v: &[char], w: &str) -> (r: bool)
    ensures
        r == (v@ == w@),
{
    let x = chars_of(w);
    chars_eq(v, x.as_slice())
}

/// The bus route `f` names (see [`bus_route`]).
fn route_of(f: &[char], spi: bool) -> (r: Option<(Vec<char>, Vec<char>)>)
    ensures
        match r {
            Some(x) => bus_route(f@, spi) == Some((x.0@, x.1@)),
            None => bus_route(f@, spi) is None,
        },
{
    proof {
        lemma_find_char(f@, '_');
    }
    let mut k: usize = 0;
    while k < f.len() && f[k] != '_'
        invariant
            k <= f@.len(),
            forall|j: int| 0 <= j < k ==> f@[j] != '_',
        decreases f.len() - k,
    {
        k = k + 1;
    }
    proof {
        assert(k == find_char(f@, '_')) by {
            if k < find_char(f@, '_') {
                assert(f@[k as int] != '_');
            }
        }
    }
    if k == f.len() {
        return None;
    }
    let inst = sub_chars(f, 0, k);
    let sig = sub_chars(f, k + 1, f.len());
    proof {
        assert(inst@ =~= f@.take(k as int));
        assert(sig@ =~= f@.skip(k + 1));
    }
    if !spi {
        let p = chars_of("I2C");
        if starts_with_chars(inst.as_slice(), p.as_slice()) && (eq_str(sig.as_slice(), "SCL") || eq_str(
            sig.as_slice(),
            "SDA",
        )) {
            Some((inst, sig))
        } else {
            None
        }
    } else {
        let named = if eq_str(sig.as_slice(), "SCLK") {
            chars_of("SCK")
        } else if eq_str(sig.as_slice(), "PICO") {
            chars_of("PICO")
        } else if eq_str(sig.as_slice(), "POCI") {
            chars_of("POCI")
        } else {
            return None;
        };
        let p = chars_of("SPI");
        if starts_with_chars(inst.as_slice(), p.as_slice()) {
            Some((inst, named))
        } else {
            None
        }
    }
}

/// The board's exposed pins as a sorted set (see [`exposed_pins`]).
fn exposed_of(board: &Json) -> (r: Vec<Vec<char>>)
    ensures
        strs_view(r@) == exposed_pins(*board),
{
    let xs = match opt_array(board, "pins") {
        Some(a) => string_elems(a),
        None => {
            let e: Vec<Vec<char>> = Vec::new();
            proof {
                assert(str_elems(Seq::<Json>::empty()) =~= Seq::<Seq<char>>::empty());
                assert(strs_view(e@) =~= Seq::<Seq<char>>::empty());
            }
            e
        },
    };
    let ghost all = strs_view(xs@);
    let mut r: Vec<Vec<char>> = Vec::new();
    let mut i: usize = 0;
    proof {
        assert(all.take(0) =~= Seq::<Seq<char>>::empty());
        assert(strs_view(r@) =~= Seq::<Seq<char>>::empty());
    }
    while i < xs.len()
        invariant
            i <= xs@.len(),
            all == strs_view(xs@),
            strs_view(r@) == str_set(all.take(i as int)),
        decreases xs.len() - i,
    {
        proof {
            assert(all.take(i + 1).drop_last() =~= all.take(i as int));
        }
        insert_str(&mut r, clone_chars(&xs[i]));
        i = i + 1;
    }
    proof {
        assert(all.take(i as int) =~= all);
    }
    r
}

/// The functions the pin table lists for `p` (see [`pin_fns`]).
fn functions_of(pins: &Vec<JsonMember>, p: &[char]) -> (r: Vec<Vec<char>>)
    ensures
        strs_view(r@) == pin_fns(pins@, p@),
{
    match member_of(pins, p) {
        Some(Json::Array(a)) => string_elems(a),
        _ => {
            let e: Vec<Vec<char>> = Vec::new();
            proof {
                assert(strs_view(e@) =~= Seq::<Seq<char>>::empty());
            }
            e
        },
    }
}

/// The instances the pins `ps` reach on the bus (see [`route_instances`]).
fn instances_of(pins: &Vec<JsonMember>, ps: &Vec<Vec<char>>, spi: bool) -> (r: Vec<Vec<char>>)
    ensures
        strs_view(r@) == route_instances(pins@, strs_view(ps@), spi),
{
    let ghost pv = strs_view(ps@);
    let mut r: Vec<Vec<char>> = Vec::new();
    let mut i: usize = 0;
    proof {
        assert(strs_view(r@) =~= Seq::<Seq<char>>::empty());
        assert(pv.take(0) =~= Seq::<Seq<char>>::empty());
    }
    while i < ps.len()
        invariant
            i <= ps@.len(),
            pv == strs_view(ps@),
            strs_view(r@) == route_instances(pins@, pv.take(i as int), spi),
        decreases ps.len() - i,
    {
        let fns = functions_of(pins, ps[i].as_slice());
        let ghost fv = strs_view(fns@);
        let ghost acc = strs_view(r@);
        proof {
            assert(pv.take(i + 1).drop_last() =~= pv.take(i as int));
            assert(pv.take(i + 1).last() == ps@[i as int]@);
            assert(fv.take(0) =~= Seq::<Seq<char>>::empty());
        }
        let mut k: usize = 0;
        while k < fns.len()
            invariant
                k <= fns@.len(),
                fv == strs_view(fns@),
                strs_view(r@) == fn_instances(acc, fv.take(k as int), spi),
            decreases fns.len() - k,
        {
            proof {
                assert(fv.take(k + 1).drop_last() =~= fv.take(k as int));
            }
            match route_of(fns[k].as_slice(), spi) {
                Some((inst, _)) => insert_str(&mut r, inst),
                None => {},
            }
            k = k + 1;
        }
        proof {
            assert(fv.take(k as int) =~= fv);
        }
        i = i + 1;
    }
    proof {
        assert(pv.take(i as int) =~= pv);
    }
    r
}

/// Whether some function of `fns` routes `inst`'s signal `sig`.
fn routes_signal(fns: &Vec<Vec<char>>, spi: bool, inst: &[char], sig: &[char]) -> (b: bool)
    ensures
        b == has_route(strs_view(fns@), spi, inst@, sig@),
{
    let mut k: usize = 0;
    while k < fns.len()
        invariant
            k <= fns@.len(),
            forall|j: int| 0 <= j < k ==> bus_route(#[trigger] strs_view(fns@)[j], spi) != Some((inst@, sig@)),
        decreases fns.len() - k,
    {
        match route_of(fns[k].as_slice(), spi) {
            Some((i, s)) => {
                if chars_eq(i.as_slice(), inst) && chars_eq(s.as_slice(), sig) {
                    proof {
                        assert(strs_view(fns@)[k as int] == fns@[k as int]@);
                    }
                    return true;
                }
            },
            None => {},
        }
        proof {
            assert(strs_view(fns@)[k as int] == fns@[k as int]@);
        }
        k = k + 1;
    }
    false
}

/// The pins of `ps` carrying `inst`'s signal `sig` (see [`routed_pins`]).
fn pins_routing(pins: &Vec<JsonMember>, ps: &Vec<Vec<char>>, spi: bool, inst: &[char], sig: &[char]) -> (r: Vec<
    Vec<char>,
>)
    ensures
        strs_view(r@) == routed_pins(pins@, strs_view(ps@), spi, inst@, sig@),
{
    let ghost pv = strs_view(ps@);
    let mut r: Vec<Vec<char>> = Vec::new();
    let mut i: usize = 0;
    proof {
        assert(strs_view(r@) =~= Seq::<Seq<char>>::empty());
        assert(pv.take(0) =~= Seq::<Seq<char>>::empty());
    }
    while i < ps.len()
        invariant
            i <= ps@.len(),
            pv == strs_view(ps@),
            strs_view(r@) == routed_pins(pins@, pv.take(i as int), spi, inst@, sig@),
        decreases ps.len() - i,
    {
        proof {
            assert(pv.take(i + 1).drop_last() =~= pv.take(i as int));
            assert(pv.take(i + 1).last() == ps@[i as int]@);
        }
        let fns = functions_of(pins, ps[i].as_slice());
        if routes_signal(&fns, spi, inst, sig) {
            let ghost before = strs_view(r@);
            r.push(clone_chars(&ps[i]));
            proof {
                assert(strs_view(r@) =~= before.push(ps@[i as int]@));
            }
        }
        i = i + 1;
    }
    proof {
        assert(pv.take(i as int) =~= pv);
    }
    r
}

/// Appends `xs` joined with `sep`.
fn push_joined(out: &mut Vec<char>, xs: &Vec<Vec<char>>, sep: &str)
    ensures
        final(out)@ == old(out)@ + join_with(strs_view(xs@), sep@),
{
    let ghost xv = strs_view(xs@);
    let ghost start = out@;
    let mut i: usize = 0;
    proof {
        assert(xv.take(0) =~= Seq::<Seq<char>>::empty());
        assert(out@ =~= start + join_with(xv.take(0), sep@));
    }
    while i < xs.len()
        invariant
            i <= xs@.len(),
            xv == strs_view(xs@),
            out@ == start + join_with(xv.take(i as int), sep@),
        decreases xs.len() - i,
    {
        proof {
            assert(xv.take(i + 1).drop_last() =~= xv.take(i as int));
            assert(xv.take(i + 1).last() == xs@[i as int]@);
        }
        if i > 0 {
            append_str(out, sep);
        }
        append_chars(out, xs[i].as_slice());
        proof {
            if i == 0 {
                assert(xv.take(1)[0] == xs@[0]@);
                assert(out@ =~= start + join_with(xv.take(1), sep@));
            } else {
                assert(out@ =~= start + join_with(xv.take(i + 1), sep@));
            }
        }
        i = i + 1;
    }
    proof {
        assert(xv.take(i as int) =~= xv);
    }
}

fn push_pins(out: &mut Vec<char>, xs: &Vec<Vec<char>>)
    ensures
        final(out)@ == old(out)@ + pins_or_none(strs_view(xs@)),
{
    if xs.len() == 0 {
        append_str(out, "none");
    } else {
        push_joined(out, xs, ", ");
    }
}

/// Appends one bus's section (see [`bus_section`]).
fn push_bus_section(out: &mut Vec<char>, pins: &Vec<JsonMember>, ps: &Vec<Vec<char>>, spi: bool)
    ensures
        final(out)@ == old(out)@ + bus_section(pins@, strs_view(ps@), spi),
{
    let insts = instances_of(pins, ps, spi);
    if insts.len() == 0 {
        proof {
            assert(out@ =~= old(out)@ + bus_section(pins@, strs_view(ps@), spi));
        }
        return;
    }
    if spi {
        append_str(out, "SPI requires one matching instance for SCK/PICO/POCI. CS/DC/RST are distinct exposed GPIOs.\n");
    } else {
        append_str(out, "Use the same I2C instance for SCL and SDA; only the exposed pins below are valid for this board.\n");
    }
    let ghost iv = strs_view(insts@);
    let ghost pv = strs_view(ps@);
    let ghost start = out@;
    let sigs: Vec<&str> = if spi { vec!["SCK", "PICO", "POCI"] } else { vec!["SCL", "SDA"] };
    proof {
        reveal_strlit("SCK");
        reveal_strlit("PICO");
        reveal_strlit("POCI");
        reveal_strlit("SCL");
        reveal_strlit("SDA");
        assert(sigs@.map_values(|x: &str| x@) =~= bus_signals(spi));
        assert(iv.take(0) =~= Seq::<Seq<char>>::empty());
        assert(out@ =~= start + instance_lines(pins@, pv, spi, iv.take(0)));
    }
    let mut i: usize = 0;
    while i < insts.len()
        invariant
            i <= insts@.len(),
            iv == strs_view(insts@),
            pv == strs_view(ps@),
            sigs@.map_values(|x: &str| x@) == bus_signals(spi),
            out@ == start + instance_lines(pins@, pv, spi, iv.take(i as int)),
        decreases insts.len() - i,
    {
        proof {
            assert(iv.take(i + 1).drop_last() =~= iv.take(i as int));
            assert(iv.take(i + 1).last() == insts@[i as int]@);
        }
        let ghost line_start = out@;
        append_str(out, "- ");
        append_chars(out, insts[i].as_slice());
        append_str(out, ": ");
        let ghost parts_start = out@;
        let ghost sv = bus_signals(spi);
        let ghost inst = insts@[i as int]@;
        let mut k: usize = 0;
        proof {
            assert(sv.take(0) =~= Seq::<Seq<char>>::empty());
            assert(out@ =~= parts_start + signal_parts(pins@, pv, spi, inst, sv.take(0)));
        }
        while k < sigs.len()
            invariant
                k <= sigs@.len(),
                sigs@.map_values(|x: &str| x@) == sv,
                out@ == parts_start + signal_parts(pins@, pv, spi, inst, sv.take(k as int)),
                i < insts@.len(),
                inst == insts@[i as int]@,
                pv == strs_view(ps@),
            decreases sigs.len() - k,
        {
            proof {
                assert(sv.take(k + 1).drop_last() =~= sv.take(k as int));
                assert(sv.take(k + 1).last() == sigs@[k as int]@);
            }
            if k > 0 {
                append_str(out, "; ");
            }
            append_str(out, sigs[k]);
            append_str(out, " = ");
            let sig = chars_of(sigs[k]);
            let routed = pins_routing(pins, ps, spi, insts[i].as_slice(), sig.as_slice());
            push_pins(out, &routed);
            proof {
                if k == 0 {
                    assert(out@ =~= parts_start + signal_parts(pins@, pv, spi, inst, sv.take(1)));
                } else {
                    assert(out@ =~= parts_start + signal_parts(pins@, pv, spi, inst, sv.take(k + 1)));
                }
            }
            k = k + 1;
        }
        proof {
            assert(sv.take(k as int) =~= sv);
        }
        append_str(out, "\n");
        proof {
            assert(out@ =~= start + instance_lines(pins@, pv, spi, iv.take(i + 1)));
        }
        i = i + 1;
    }
    proof {
        assert(iv.take(i as int) =~= iv);
        assert(out@ =~= old(out)@ + bus_section(pins@, strs_view(ps@), spi));
    }
}

/// Appends the board's I2C and SPI routing (see [`routing_summary`]);
/// `chip` is the chip file's document, `None` when it could not be read.
pub fn append_board_capability_summary(out: &mut Vec<char>, chip: Option<&Json>, board: &Json)
    ensures
        final(out)@ == old(out)@ + routing_summary(
            match chip {
                Some(c) => Some(*c),
                None => None,
            },
            *board,
        ),
{
    let c = match chip {
        Some(c) => c,
        None => {
            proof {
                assert(out@ =~= old(out)@ + Seq::<char>::empty());
            }
            return;
        },
    };
    let m = match json_get(c, "pins") {
        Some(Json::Object(m)) => m,
        _ => {
            proof {
                assert(out@ =~= old(out)@ + Seq::<char>::empty());
            }
            return;
        },
    };
    let ps = exposed_of(board);
    append_str(out, "\n## Board peripheral routing\n");
    push_bus_section(out, m, &ps, false);
    push_bus_section(out, m, &ps, true);
    proof {
        assert(out@ =~= old(out)@ + routing_summary(Some(*c), *board));
    }
}

proof fn lemma_str_set_rising(xs: Seq<Seq<char>>)
    ensures
        strs_rising(str_set(xs)),
    decreases xs.len(),
{
    if xs.len() > 0 {
        lemma_str_set_rising(xs.drop_last());
        lemma_ins_str(str_set(xs.drop_last()), xs.last());
    }
}

proof fn lemma_routed_pins(pins: Seq<JsonMember>, ps: Seq<Seq<char>>, spi: bool, inst: Seq<char>, sig: Seq<char>)
    requires
        strs_rising(ps),
    ensures
        strs_rising(routed_pins(pins, ps, spi, inst, sig)),
        forall|p: Seq<char>|
            #[trigger] routed_pins(pins, ps, spi, inst, sig).contains(p) <==> (ps.contains(p) && has_route(
                pin_fns(pins, p),
                spi,
                inst,
                sig,
            )),
    decreases ps.len(),
{
    if ps.len() > 0 {
        let pre = ps.drop_last();
        assert(strs_rising(pre)) by {
            assert forall|i: int, j: int| 0 <= i < j < pre.len() implies str_lt(#[trigger] pre[i], #[trigger] pre[j]) by {
                assert(pre[i] == ps[i] && pre[j] == ps[j]);
            }
        }
        lemma_routed_pins(pins, pre, spi, inst, sig);
        let r0 = routed_pins(pins, pre, spi, inst, sig);
        let r = routed_pins(pins, ps, spi, inst, sig);
        let last = ps.last();
        assert(!pre.contains(last)) by {
            if pre.contains(last) {
                let k = choose|k: int| 0 <= k < pre.len() && pre[k] == last;
                assert(str_lt(ps[k], ps[ps.len() - 1]));
                crate::fontpack::law_str_lt_order(last, last, last);
            }
        }
        assert(!r0.contains(last));
        assert forall|p: Seq<char>| #[trigger] r.contains(p) <==> (ps.contains(p) && has_route(
            pin_fns(pins, p),
            spi,
            inst,
            sig,
        )) by {
            assert(ps.contains(p) <==> (pre.contains(p) || p == last)) by {
                if ps.contains(p) && p != last {
                    let k = choose|k: int| 0 <= k < ps.len() && ps[k] == p;
                    assert(pre[k] == p);
                }
                if pre.contains(p) {
                    let k = choose|k: int| 0 <= k < pre.len() && pre[k] == p;
                    assert(ps[k] == p);
                }
                if p == last {
                    assert(ps[ps.len() - 1] == p);
                }
            }
            if has_route(pin_fns(pins, last), spi, inst, sig) {
                assert(r == r0.push(last));
                assert(r.contains(p) <==> (r0.contains(p) || p == last)) by {
                    if r.contains(p) && p != last {
                        let k = choose|k: int| 0 <= k < r.len() && r[k] == p;
                        assert(k < r0.len());
                        assert(r0[k] == p);
                    }
                    if r0.contains(p) {
                        let k = choose|k: int| 0 <= k < r0.len() && r0[k] == p;
                        assert(r[k] == p);
                    }
                    if p == last {
                        assert(r[r0.len() as int] == p);
                    }
                }
            } else {
                assert(r == r0);
            }
        }
        if has_route(pin_fns(pins, last), spi, inst, sig) {
            assert forall|i: int, j: int| 0 <= i < j < r.len() implies str_lt(#[trigger] r[i], #[trigger] r[j]) by {
                if j == r0.len() {
                    assert(r0.contains(r[i]));
                    let k = choose|k: int| 0 <= k < pre.len() && pre[k] == r[i];
                    assert(str_lt(ps[k], ps[ps.len() - 1]));
                } else {
                    assert(r[i] == r0[i] && r[j] == r0[j]);
                }
            }
        }
    }
}

/// A routing line lists exactly the exposed pins that carry the
/// instance's signal, each once and in ascending order.
pub proof fn law_routing_lists_exposed_pins(
    pins: Seq<JsonMember>,
    board: Json,
    spi: bool,
    inst: Seq<char>,
    sig: Seq<char>,
)
    ensures
        strs_rising(routed_pins(pins, exposed_pins(board), spi, inst, sig)),
        forall|p: Seq<char>|
            #[trigger] routed_pins(pins, exposed_pins(board), spi, inst, sig).contains(p) <==> (exposed_pins(
                board,
            ).contains(p) && has_route(pin_fns(pins, p), spi, inst, sig)),
{
    lemma_str_set_rising(str_elems(opt_arr(board, "pins"@)));
    lemma_routed_pins(pins, exposed_pins(board), spi, inst, sig);
}

// ─── the API summary ────────────────────────────────────────────────────

/// `Value::as_str` with a fallback.
pub open spec fn str_or(v: Option<Json>, d: Seq<char>) -> Seq<char> {
    match jstr(v) {
        Some(x) => x,
        None => d,
    }
}

/// The string elements of an optional array (none when it is no array).
pub open spec fn string_list(v: Option<Json>) -> Seq<Seq<char>> {
    match jarr(v) {
        Some(a) => str_elems(a),
        None => Seq::empty(),
    }
}

/// The elements of an optional array (none when it is no array).
pub open spec fn items_of(v: Option<Json>) -> Seq<Json> {
    match jarr(v) {
        Some(a) => a,
        None => Seq::empty(),
    }
}

/// An optional value, JSON `null` when absent.
pub open spec fn or_null(v: Option<Json>) -> Json {
    match v {
        Some(x) => x,
        None => Json::Null,
    }
}

/// `x` behind `sep` when `x` is not empty.
pub open spec fn tagged(sep: Seq<char>, x: Seq<char>) -> Seq<char> {
    if x.len() == 0 {
        Seq::empty()
    } else {
        sep + x
    }
}

/// A list behind `sep`, joined with `, `, when it is not empty.
pub open spec fn tagged_list(sep: Seq<char>, xs: Seq<Seq<char>>) -> Seq<char> {
    if xs.len() == 0 {
        Seq::empty()
    } else {
        sep + join_with(xs, ", "@)
    }
}

/// One return value: `name: type` or the type (default `any`).
pub open spec fn return_text(v: Json) -> Seq<char> {
    let ty = str_or(jget(v, "type"@), "any"@);
    match jstr(jget(v, "name"@)) {
        Some(n) => n + ": "@ + ty,
        None => ty,
    }
}

pub open spec fn return_texts(a: Seq<Json>) -> Seq<Seq<char>>
    decreases a.len(),
{
    if a.len() == 0 {
        Seq::empty()
    } else {
        return_texts(a.drop_last()).push(return_text(a.last()))
    }
}

/// The return values of an overload, joined with `, `.
pub open spec fn returns_text(rets: Option<Json>) -> Seq<char> {
    join_with(return_texts(items_of(rets)), ", "@)
}

/// One effect: `kind target`, its lifetime in brackets, `exclusive`.
pub open spec fn effect_text(e: Json) -> Seq<char> {
    str_or(jget(e, "kind"@), "effect"@) + " "@ + str_or(jget(e, "target"@), "resource"@) + (match jstr(
        jget(e, "lifetime"@),
    ) {
        Some(l) => " ("@ + l + ")"@,
        None => Seq::empty(),
    }) + (if jbool(jget(e, "exclusive"@)) == Some(true) {
        " exclusive"@
    } else {
        Seq::empty()
    })
}

pub open spec fn effect_texts(a: Seq<Json>) -> Seq<Seq<char>>
    decreases a.len(),
{
    if a.len() == 0 {
        Seq::empty()
    } else {
        effect_texts(a.drop_last()).push(effect_text(a.last()))
    }
}

/// The effects of an overload, joined with `, `.
pub open spec fn effects_text(effects: Option<Json>) -> Seq<char> {
    join_with(effect_texts(items_of(effects)), ", "@)
}

/// A capability value: a string as it is, anything else as JSON.
pub open spec fn capability_value_text(v: Json) -> Seq<char> {
    match v {
        Json::Str(s) => s@,
        _ => json_text(v),
    }
}

pub open spec fn capability_entries(m: Seq<JsonMember>) -> Seq<Seq<char>>
    decreases m.len(),
{
    if m.len() == 0 {
        Seq::empty()
    } else {
        capability_entries(m.drop_last()).push(m.last().key@ + "="@ + capability_value_text(m.last().value))
    }
}

/// String order as a sorting relation.
pub open spec fn str_before() -> spec_fn(Seq<char>, Seq<char>) -> bool {
    |a: Seq<char>, b: Seq<char>| str_lt(a, b)
}

/// A resource as shown inside `{…}`: its scope and its capability's
/// `key=value` entries in string order, joined with `; `; its kind (or
/// `resource`) when there is neither.
pub open spec fn resource_text(resource: Option<Json>) -> Seq<char> {
    match resource {
        None => Seq::empty(),
        Some(r) => {
            let scope = match jstr(jget(r, "scope"@)) {
                Some(sc) => seq![sc],
                None => Seq::empty(),
            };
            let entries = match jget(r, "capability"@) {
                Some(Json::Object(m)) => sort_stable(capability_entries(m@), str_before()),
                _ => Seq::empty(),
            };
            let parts = scope + entries;
            if parts.len() == 0 {
                str_or(jget(r, "kind"@), "resource"@)
            } else {
                join_with(parts, "; "@)
            }
        },
    }
}

pub open spec fn json_texts(a: Seq<Json>) -> Seq<Seq<char>>
    decreases a.len(),
{
    if a.len() == 0 {
        Seq::empty()
    } else {
        json_texts(a.drop_last()).push(json_text(a.last()))
    }
}

/// Value constraints: `[min..max]` (`-inf`, `+inf` when one is missing),
/// `one of {…}`, `max length …`, joined with `, `.
pub open spec fn constraints_text(constraints: Option<Json>) -> Seq<char> {
    match constraints {
        None => Seq::empty(),
        Some(c) => {
            let min = jget(c, "minimum"@);
            let max = jget(c, "maximum"@);
            let range = if min is Some || max is Some {
                seq![
                    "["@ + (match min {
                        Some(x) => json_text(x),
                        None => "-inf"@,
                    }) + ".."@ + (match max {
                        Some(x) => json_text(x),
                        None => "+inf"@,
                    }) + "]"@,
                ]
            } else {
                Seq::empty()
            };
            let allowed = items_of(jget(c, "allowed_values"@));
            let one_of = if allowed.len() > 0 {
                seq!["one of {"@ + join_with(json_texts(allowed), ", "@) + "}"@]
            } else {
                Seq::empty()
            };
            let length = match jget(c, "max_length"@) {
                Some(x) => seq!["max length "@ + json_text(x)],
                None => Seq::empty(),
            };
            join_with(range + one_of + length, ", "@)
        },
    }
}

/// A parameter: `name: type`, `...` when variadic, its constraints, its
/// resource in braces, `= default`; in brackets when optional.
pub open spec fn param_text(p: Json) -> Seq<char> {
    let t0 = str_or(jget(p, "name"@), "value"@) + ": "@ + str_or(jget(p, "type"@), "any"@);
    let t1 = if jbool(jget(p, "variadic"@)) == Some(true) { t0 + "..."@ } else { t0 };
    let t2 = t1 + tagged(" "@, constraints_text(jget(p, "value_constraints"@)));
    let r = resource_text(jget(p, "resource"@));
    let t3 = if r.len() == 0 { t2 } else { t2 + " {"@ + r + "}"@ };
    let t4 = match jget(p, "default"@) {
        Some(d) => t3 + " = "@ + json_text(d),
        None => t3,
    };
    if jbool(jget(p, "optional"@)) == Some(true) {
        "["@ + t4 + "]"@
    } else {
        t4
    }
}

pub open spec fn param_texts(a: Seq<Json>) -> Seq<Seq<char>>
    decreases a.len(),
{
    if a.len() == 0 {
        Seq::empty()
    } else {
        param_texts(a.drop_last()).push(param_text(a.last()))
    }
}

/// `name(params)` with ` -> returns` when there are return values.
pub open spec fn signature_text(name: Seq<char>, ov: Json) -> Seq<char> {
    name + "("@ + join_with(param_texts(items_of(jget(ov, "params"@))), ", "@) + ")"@ + tagged(
        " -> "@,
        returns_text(jget(ov, "returns"@)),
    )
}

/// What a function's lines share: aliases, blocking, errors.
pub struct FnNotes {
    pub aliases: Seq<Seq<char>>,
    pub blocking: Option<bool>,
    pub errors: Seq<Seq<char>>,
}

pub open spec fn fn_notes(f: Json) -> FnNotes {
    let ext = or_null(jget(f, "extensions"@));
    FnNotes {
        aliases: string_list(jget(f, "aliases"@)),
        blocking: jbool(jget(ext, "mspm0.blocking"@)),
        errors: string_list(jget(ext, "mspm0.errors"@)),
    }
}

/// The line of overload `k` (of `n`) of the function `q`.
pub open spec fn overload_line(q: Seq<char>, notes: FnNotes, ov: Json, k: nat, n: nat) -> Seq<char> {
    "- "@ + signature_text(q, ov) + (if n > 1 { " [overload "@ + dec(k + 1) + "]"@ } else { Seq::empty() })
        + tagged_list("; aliases: "@, notes.aliases) + (match notes.blocking {
        Some(true) => "; blocking"@,
        Some(false) => "; nonblocking"@,
        None => Seq::empty(),
    }) + tagged("; effects: "@, effects_text(jget(ov, "effects"@))) + tagged_list("; errors: "@, notes.errors)
        + "\n"@
}

pub open spec fn overload_lines(q: Seq<char>, notes: FnNotes, ovs: Seq<Json>, n: nat) -> Seq<char>
    decreases ovs.len(),
{
    if ovs.len() == 0 {
        Seq::empty()
    } else {
        overload_lines(q, notes, ovs.drop_last(), n) + overload_line(q, notes, ovs.last(), (ovs.len() - 1) as nat, n)
    }
}

/// A function's lines, one per overload, its name behind `prefix`;
/// nothing when it has no name.
pub open spec fn function_text(prefix: Seq<char>, f: Json) -> Seq<char> {
    match jstr(jget(f, "name"@)) {
        None => Seq::empty(),
        Some(name) => {
            let ovs = items_of(jget(f, "overloads"@));
            overload_lines(prefix + name, fn_notes(f), ovs, ovs.len())
        },
    }
}

pub open spec fn functions_text(prefix: Seq<char>, fs: Seq<Json>) -> Seq<char>
    decreases fs.len(),
{
    if fs.len() == 0 {
        Seq::empty()
    } else {
        functions_text(prefix, fs.drop_last()) + function_text(prefix, fs.last())
    }
}

/// A module's native-module and compiler-injection requirements.
pub open spec fn requirements_text(module: Json) -> Seq<char> {
    let ext = or_null(jget(module, "extensions"@));
    (match jget(ext, "mspm0.native_module"@) {
        Some(native) => "  native module: "@ + str_or(jget(native, "id"@), "unknown"@) + " >= "@ + str_or(
            jget(native, "minimum_version"@),
            "unknown"@,
        ) + tagged_list("; depends on "@, string_list(jget(native, "dependencies"@))) + tagged_list(
            "; conflicts with "@,
            string_list(jget(native, "conflicts"@)),
        ) + "\n"@,
        None => Seq::empty(),
    }) + (match jget(ext, "mspm0.compiler_injected"@) {
        Some(inj) => "  compiler injected: "@ + str_or(jget(inj, "runtime"@), "unknown"@) + tagged_list(
            "; native modules: "@,
            string_list(jget(inj, "required_native_modules"@)),
        ) + tagged_list("; enabled by: "@, string_list(jget(inj, "trigger_symbols"@))) + "\n"@,
        None => Seq::empty(),
    })
}

/// The first element of `a` whose `name` is `name`.
pub open spec fn named_in(a: Seq<Json>, name: Seq<char>) -> Option<int> {
    find_first(a, |x: Json| jstr(jget(x, "name"@)) == Some(name))
}

/// The functions of the `i2c` quick reference, in order.
pub open spec fn quick_names() -> Seq<Seq<char>> {
    seq!["valid"@, "probe_on"@, "write_on"@, "read_on"@, "write_read_on"@, "bytes"@]
}

/// The quick-reference line of function `name` of `module`: its first
/// overload's signature; nothing when it is missing.
pub open spec fn quick_line(module: Json, name: Seq<char>) -> Seq<char> {
    match jarr(jget(module, "functions"@)) {
        None => Seq::empty(),
        Some(fs) => match named_in(fs, name) {
            None => Seq::empty(),
            Some(j) => match jarr(jget(fs[j], "overloads"@)) {
                None => Seq::empty(),
                Some(os) => if os.len() == 0 {
                    Seq::empty()
                } else {
                    "- "@ + signature_text("i2c."@ + name, os[0]) + "\n"@
                },
            },
        },
    }
}

pub open spec fn quick_lines(module: Json, names: Seq<Seq<char>>) -> Seq<char>
    decreases names.len(),
{
    if names.len() == 0 {
        Seq::empty()
    } else {
        quick_lines(module, names.drop_last()) + quick_line(module, names.last())
    }
}

/// The I2C quick reference: nothing when the API has no `i2c` module.
pub open spec fn i2c_reference(api: Json) -> Seq<char> {
    match jarr(jget(api, "modules"@)) {
        None => Seq::empty(),
        Some(ms) => match named_in(ms, "i2c"@) {
            None => Seq::empty(),
            Some(k) => "\n### I2C quick reference\n"@ + quick_lines(ms[k], quick_names()),
        },
    }
}

/// A module's section: heading (with its description), requirements and
/// its functions; nothing when it has no name.
pub open spec fn module_text(m: Json) -> Seq<char> {
    match jstr(jget(m, "name"@)) {
        None => Seq::empty(),
        Some(name) => "\n#### "@ + name + (match jstr(jget(m, "description"@)) {
            Some(d) => " - "@ + d,
            None => Seq::empty(),
        }) + "\n"@ + requirements_text(m) + functions_text(name + "."@, items_of(jget(m, "functions"@))),
    }
}

pub open spec fn modules_text(ms: Seq<Json>) -> Seq<char>
    decreases ms.len(),
{
    if ms.len() == 0 {
        Seq::empty()
    } else {
        modules_text(ms.drop_last()) + module_text(ms.last())
    }
}

/// The line explaining the signature notation.
pub open spec fn notation_line() -> Seq<char> {
    "Notation: [param] is optional; = is the default; pin{...} restricts the pin to the exposed board pins with the listed capability.\n"@
}

/// The API summary: identity and versions, notation, the I2C quick
/// reference, the global functions and the modules.
pub open spec fn api_summary(api: Json) -> Seq<char> {
    let fw = or_null(jget(api, "firmware"@));
    "API: "@ + str_or(jget(api, "id"@), "unknown"@) + " v"@ + str_or(jget(api, "version"@), "unknown"@)
        + "; firmware v"@ + str_or(jget(fw, "version"@), "unknown"@) + "; Lua "@ + str_or(
        jget(fw, "lua_version"@),
        "unknown"@,
    ) + "\n"@ + notation_line() + i2c_reference(api) + "\n### Global functions\n"@ + functions_text(
        Seq::empty(),
        items_of(jget(api, "globals"@)),
    ) + "\n### Modules\n"@ + modules_text(items_of(jget(api, "modules"@)))
}

/// A borrowed optional value as a value.
pub open spec fn opt_json(v: Option<&Json>) -> Option<Json> {
    match v {
        Some(x) => Some(*x),
        None => None,
    }
}

fn str_or_exec(v: Option<&Json>, d: &str) -> (r: Vec<char>)
    ensures
        r@ == str_or(opt_json(v), d@),
{
    match v {
        Some(Json::Str(x)) => clone_chars(x),
        _ => chars_of(d),
    }
}

/// The string elements of an optional array (`json_string_list`).
pub fn json_string_list(v: Option<&Json>) -> (r: Vec<Vec<char>>)
    ensures
        strs_view(r@) == string_list(opt_json(v)),
{
    match v {
        Some(Json::Array(a)) => string_elems(a),
        _ => {
            let e: Vec<Vec<char>> = Vec::new();
            proof {
                assert(strs_view(e@) =~= Seq::<Seq<char>>::empty());
            }
            e
        },
    }
}

fn bool_of(v: Option<&Json>) -> (r: Option<bool>)
    ensures
        r == jbool(opt_json(v)),
{
    match v {
        Some(Json::Bool(b)) => Some(*b),
        _ => None,
    }
}

fn push_tagged(out: &mut Vec<char>, sep: &str, x: &[char])
    ensures
        final(out)@ == old(out)@ + tagged(sep@, x@),
{
    if x.len() > 0 {
        append_str(out, sep);
        append_chars(out, x);
    } else {
        proof {
            assert(out@ =~= old(out)@ + tagged(sep@, x@));
        }
    }
}

fn push_tagged_list(out: &mut Vec<char>, sep: &str, xs: &Vec<Vec<char>>)
    ensures
        final(out)@ == old(out)@ + tagged_list(sep@, strs_view(xs@)),
{
    if xs.len() > 0 {
        append_str(out, sep);
        push_joined(out, xs, ", ");
        proof {
            assert(out@ =~= old(out)@ + tagged_list(sep@, strs_view(xs@)));
        }
    } else {
        proof {
            assert(out@ =~= old(out)@ + tagged_list(sep@, strs_view(xs@)));
        }
    }
}

fn return_text_exec(v: &Json) -> (r: Vec<char>)
    ensures
        r@ == return_text(*v),
{
    let ty = str_or_exec(json_get(v, "type"), "any");
    match json_str(json_get(v, "name")) {
        Some(n) => {
            let mut r = n;
            append_str(&mut r, ": ");
            append_chars(&mut r, ty.as_slice());
            r
        },
        None => ty,
    }
}

fn effect_text_exec(e: &Json) -> (r: Vec<char>)
    ensures
        r@ == effect_text(*e),
{
    let mut r = str_or_exec(json_get(e, "kind"), "effect");
    append_str(&mut r, " ");
    let target = str_or_exec(json_get(e, "target"), "resource");
    append_chars(&mut r, target.as_slice());
    match json_str(json_get(e, "lifetime")) {
        Some(l) => {
            append_str(&mut r, " (");
            append_chars(&mut r, l.as_slice());
            append_str(&mut r, ")");
        },
        None => {},
    }
    if bool_of(json_get(e, "exclusive")) == Some(true) {
        append_str(&mut r, " exclusive");
    }
    proof {
        assert(r@ =~= effect_text(*e));
    }
    r
}

/// The return values of an overload, joined with `, `.
pub fn format_api_returns(rets: Option<&Json>) -> (r: String)
    ensures
        r@ == returns_text(opt_json(rets)),
{
    let mut texts: Vec<Vec<char>> = Vec::new();
    match rets {
        Some(Json::Array(a)) => {
            let mut i: usize = 0;
            proof {
                assert(strs_view(texts@) =~= return_texts(a@.take(0)));
            }
            while i < a.len()
                invariant
                    i <= a@.len(),
                    strs_view(texts@) == return_texts(a@.take(i as int)),
                decreases a.len() - i,
            {
                proof {
                    assert(a@.take(i + 1).drop_last() =~= a@.take(i as int));
                }
                let t = return_text_exec(&a[i]);
                let ghost before = strs_view(texts@);
                texts.push(t);
                proof {
                    assert(strs_view(texts@) =~= before.push(return_text(a@[i as int])));
                }
                i = i + 1;
            }
            proof {
                assert(a@.take(i as int) =~= a@);
            }
        },
        _ => {
            proof {
                assert(strs_view(texts@) =~= return_texts(Seq::empty()));
            }
        },
    }
    let mut out: Vec<char> = Vec::new();
    push_joined(&mut out, &texts, ", ");
    proof {
        assert(out@ =~= returns_text(opt_json(rets)));
    }
    string_from(out.as_slice())
}

/// The effects of an overload, joined with `, `.
pub fn format_api_effects(effects: Option<&Json>) -> (r: String)
    ensures
        r@ == effects_text(opt_json(effects)),
{
    let mut texts: Vec<Vec<char>> = Vec::new();
    match effects {
        Some(Json::Array(a)) => {
            let mut i: usize = 0;
            proof {
                assert(strs_view(texts@) =~= effect_texts(a@.take(0)));
            }
            while i < a.len()
                invariant
                    i <= a@.len(),
                    strs_view(texts@) == effect_texts(a@.take(i as int)),
                decreases a.len() - i,
            {
                proof {
                    assert(a@.take(i + 1).drop_last() =~= a@.take(i as int));
                }
                let t = effect_text_exec(&a[i]);
                let ghost before = strs_view(texts@);
                texts.push(t);
                proof {
                    assert(strs_view(texts@) =~= before.push(effect_text(a@[i as int])));
                }
                i = i + 1;
            }
            proof {
                assert(a@.take(i as int) =~= a@);
            }
        },
        _ => {
            proof {
                assert(strs_view(texts@) =~= effect_texts(Seq::empty()));
            }
        },
    }
    let mut out: Vec<char> = Vec::new();
    push_joined(&mut out, &texts, ", ");
    proof {
        assert(out@ =~= effects_text(opt_json(effects)));
    }
    string_from(out.as_slice())
}

/// A capability value: a string as it is, anything else as JSON.
pub fn format_api_capability_value(value: &Json) -> (r: String)
    ensures
        r@ == capability_value_text(*value),
{
    match value {
        Json::Str(s) => string_from(s.as_slice()),
        _ => {
            let mut out: Vec<char> = Vec::new();
            push_json(&mut out, value);
            proof {
                assert(out@ =~= json_text(*value));
            }
            string_from(out.as_slice())
        },
    }
}

/// Inserts `x` into `v` after the strings not above it (a stable
/// insertion-sort step).
fn insert_sorted_str(v: &mut Vec<Vec<char>>, x: Vec<char>)
    ensures
        strs_view(final(v)@) == ins_sorted(strs_view(old(v)@), x@, str_before()),
{
    let ghost o = strs_view(old(v)@);
    let ghost xv = x@;
    let mut j: usize = 0;
    proof {
        assert(o.skip(0) =~= o);
        assert(o.take(0) + ins_sorted(o, xv, str_before()) =~= ins_sorted(o, xv, str_before()));
    }
    while j < v.len()
        invariant
            j <= v@.len(),
            strs_view(v@) == o,
            o == strs_view(old(v)@),
            x@ == xv,
            ins_sorted(o, xv, str_before()) == o.take(j as int) + ins_sorted(o.skip(j as int), xv, str_before()),
        decreases v.len() - j,
    {
        let ghost rest = o.skip(j as int);
        proof {
            assert(rest[0] == v@[j as int]@);
        }
        let c = compare_chars(x.as_slice(), v[j].as_slice());
        if c == -1 {
            v.insert(j, x);
            proof {
                assert(ins_sorted(rest, xv, str_before()) == seq![xv] + rest);
                assert(strs_view(v@) =~= o.take(j as int) + (seq![xv] + rest));
            }
            return;
        }
        proof {
            assert(rest.drop_first() =~= o.skip(j + 1));
            assert(o.take(j as int) + (seq![rest[0]] + ins_sorted(o.skip(j + 1), xv, str_before())) =~= o.take(j + 1)
                + ins_sorted(o.skip(j + 1), xv, str_before()));
        }
        j = j + 1;
    }
    v.push(x);
    proof {
        assert(o.skip(j as int) =~= Seq::<Seq<char>>::empty());
        assert(o.take(j as int) =~= o);
        assert(strs_view(v@) =~= o.push(xv));
    }
}

/// A resource as shown inside braces (see [`resource_text`]).
pub fn format_api_resource(resource: Option<&Json>) -> (r: String)
    ensures
        r@ == resource_text(opt_json(resource)),
{
    let res = match resource {
        Some(x) => x,
        None => {
            let e: Vec<char> = Vec::new();
            proof {
                assert(e@ =~= Seq::<char>::empty());
            }
            return string_from(e.as_slice());
        },
    };
    let ghost spec_scope = match jstr(jget(*res, "scope"@)) {
        Some(sc) => seq![sc],
        None => Seq::<Seq<char>>::empty(),
    };
    let ghost spec_entries = match jget(*res, "capability"@) {
        Some(Json::Object(m)) => sort_stable(capability_entries(m@), str_before()),
        _ => Seq::<Seq<char>>::empty(),
    };
    let mut parts: Vec<Vec<char>> = Vec::new();
    match json_str(json_get(res, "scope")) {
        Some(sc) => {
            parts.push(sc);
            proof {
                assert(strs_view(parts@) =~= spec_scope);
            }
        },
        None => {
            proof {
                assert(strs_view(parts@) =~= spec_scope);
            }
        },
    }
    let ghost scope_part = strs_view(parts@);
    let mut sorted: Vec<Vec<char>> = Vec::new();
    match json_get(res, "capability") {
        Some(Json::Object(m)) => {
            let ghost entries = capability_entries(m@);
            let mut i: usize = 0;
            proof {
                assert(m@.take(0) =~= Seq::<JsonMember>::empty());
                assert(strs_view(sorted@) =~= sort_stable(capability_entries(m@.take(0)), str_before()));
            }
            while i < m.len()
                invariant
                    i <= m@.len(),
                    strs_view(sorted@) == sort_stable(capability_entries(m@.take(i as int)), str_before()),
                decreases m.len() - i,
            {
                let mut e = clone_chars(&m[i].key);
                append_str(&mut e, "=");
                let cv = format_api_capability_value(&m[i].value);
                let cvc = chars_of(cv.as_str());
                append_chars(&mut e, cvc.as_slice());
                proof {
                    assert(m@.take(i + 1).drop_last() =~= m@.take(i as int));
                    let ce = capability_entries(m@.take(i + 1));
                    assert(ce.drop_last() == capability_entries(m@.take(i as int)));
                    assert(ce.last() == e@);
                    assert(ce.len() > 0);
                }
                insert_sorted_str(&mut sorted, e);
                i = i + 1;
            }
            proof {
                assert(m@.take(i as int) =~= m@);
                assert(strs_view(sorted@) == spec_entries);
            }
        },
        _ => {
            proof {
                assert(strs_view(sorted@) =~= spec_entries);
            }
        },
    }
    let ghost entry_part = strs_view(sorted@);
    let mut k: usize = 0;
    while k < sorted.len()
        invariant
            k <= sorted@.len(),
            strs_view(parts@) == scope_part + entry_part.take(k as int),
            entry_part == strs_view(sorted@),
        decreases sorted.len() - k,
    {
        let ghost before = strs_view(parts@);
        parts.push(clone_chars(&sorted[k]));
        proof {
            assert(strs_view(parts@) =~= before.push(entry_part[k as int]));
            assert(entry_part.take(k + 1) =~= entry_part.take(k as int).push(entry_part[k as int]));
        }
        k = k + 1;
    }
    proof {
        assert(entry_part.take(k as int) =~= entry_part);
    }
    let mut out: Vec<char> = Vec::new();
    if parts.len() == 0 {
        out = str_or_exec(json_get(res, "kind"), "resource");
    } else {
        push_joined(&mut out, &parts, "; ");
    }
    proof {
        assert(out@ =~= resource_text(opt_json(resource)));
    }
    string_from(out.as_slice())
}

/// Value constraints as shown (see [`constraints_text`]).
pub fn format_api_constraints(constraints: Option<&Json>) -> (r: String)
    ensures
        r@ == constraints_text(opt_json(constraints)),
{
    let c = match constraints {
        Some(x) => x,
        None => {
            let e: Vec<char> = Vec::new();
            proof {
                assert(e@ =~= Seq::<char>::empty());
            }
            return string_from(e.as_slice());
        },
    };
    let min = json_get(c, "minimum");
    let max = json_get(c, "maximum");
    let mut parts: Vec<Vec<char>> = Vec::new();
    if min.is_some() || max.is_some() {
        let mut t: Vec<char> = Vec::new();
        append_str(&mut t, "[");
        match min {
            Some(x) => push_json(&mut t, x),
            None => append_str(&mut t, "-inf"),
        }
        append_str(&mut t, "..");
        match max {
            Some(x) => push_json(&mut t, x),
            None => append_str(&mut t, "+inf"),
        }
        append_str(&mut t, "]");
        parts.push(t);
    }
    let ghost p1 = strs_view(parts@);
    let ghost spec_range = if jget(*c, "minimum"@) is Some || jget(*c, "maximum"@) is Some {
        seq![
            "["@ + (match jget(*c, "minimum"@) {
                Some(x) => json_text(x),
                None => "-inf"@,
            }) + ".."@ + (match jget(*c, "maximum"@) {
                Some(x) => json_text(x),
                None => "+inf"@,
            }) + "]"@,
        ]
    } else {
        Seq::<Seq<char>>::empty()
    };
    proof {
        assert(p1 =~= spec_range);
    }
    match json_get(c, "allowed_values") {
        Some(Json::Array(a)) => {
            if a.len() > 0 {
                let mut texts: Vec<Vec<char>> = Vec::new();
                let mut i: usize = 0;
                proof {
                    assert(strs_view(texts@) =~= json_texts(a@.take(0)));
                }
                while i < a.len()
                    invariant
                        i <= a@.len(),
                        strs_view(texts@) == json_texts(a@.take(i as int)),
                    decreases a.len() - i,
                {
                    proof {
                        assert(a@.take(i + 1).drop_last() =~= a@.take(i as int));
                    }
                    let mut t: Vec<char> = Vec::new();
                    push_json(&mut t, &a[i]);
                    let ghost before = strs_view(texts@);
                    texts.push(t);
                    proof {
                        assert(strs_view(texts@) =~= before.push(json_text(a@[i as int])));
                    }
                    i = i + 1;
                }
                proof {
                    assert(a@.take(i as int) =~= a@);
                }
                let mut t = chars_of("one of {");
                push_joined(&mut t, &texts, ", ");
                append_str(&mut t, "}");
                let ghost before = strs_view(parts@);
                parts.push(t);
                proof {
                    assert(strs_view(parts@) =~= before.push("one of {"@ + join_with(json_texts(a@), ", "@) + "}"@));
                }
            }
        },
        _ => {},
    }
    let ghost p2 = strs_view(parts@);
    proof {
        let allowed = items_of(jget(*c, "allowed_values"@));
        let one_of = if allowed.len() > 0 {
            seq!["one of {"@ + join_with(json_texts(allowed), ", "@) + "}"@]
        } else {
            Seq::<Seq<char>>::empty()
        };
        assert(p2 =~= p1 + one_of);
    }
    match json_get(c, "max_length") {
        Some(x) => {
            let mut t = chars_of("max length ");
            push_json(&mut t, x);
            parts.push(t);
        },
        None => {},
    }
    proof {
        let length = match jget(*c, "max_length"@) {
            Some(x) => seq!["max length "@ + json_text(x)],
            None => Seq::<Seq<char>>::empty(),
        };
        assert(strs_view(parts@) =~= p2 + length);
    }
    let mut out: Vec<char> = Vec::new();
    push_joined(&mut out, &parts, ", ");
    proof {
        assert(out@ =~= constraints_text(opt_json(constraints)));
    }
    string_from(out.as_slice())
}

/// A parameter as shown (see [`param_text`]).
pub fn format_api_param(param: &Json) -> (r: String)
    ensures
        r@ == param_text(*param),
{
    let mut text = str_or_exec(json_get(param, "name"), "value");
    append_str(&mut text, ": ");
    let ty = str_or_exec(json_get(param, "type"), "any");
    append_chars(&mut text, ty.as_slice());
    if bool_of(json_get(param, "variadic")) == Some(true) {
        append_str(&mut text, "...");
    }
    let c = format_api_constraints(json_get(param, "value_constraints"));
    let cc = chars_of(c.as_str());
    push_tagged(&mut text, " ", cc.as_slice());
    let r = format_api_resource(json_get(param, "resource"));
    let rc = chars_of(r.as_str());
    if rc.len() > 0 {
        append_str(&mut text, " {");
        append_chars(&mut text, rc.as_slice());
        append_str(&mut text, "}");
    }
    match json_get(param, "default") {
        Some(d) => {
            append_str(&mut text, " = ");
            push_json(&mut text, d);
        },
        None => {},
    }
    let out = if bool_of(json_get(param, "optional")) == Some(true) {
        let mut o = chars_of("[");
        append_chars(&mut o, text.as_slice());
        append_str(&mut o, "]");
        o
    } else {
        text
    };
    proof {
        assert(out@ =~= param_text(*param));
    }
    string_from(out.as_slice())
}

/// Appends `name(params)` and ` -> returns` (see [`signature_text`]).
fn push_signature(out: &mut Vec<char>, name: &[char], ov: &Json)
    ensures
        final(out)@ == old(out)@ + signature_text(name@, *ov),
{
    let mut texts: Vec<Vec<char>> = Vec::new();
    let ps = opt_array(ov, "params");
    match ps {
        Some(a) => {
            let mut i: usize = 0;
            proof {
                assert(strs_view(texts@) =~= param_texts(a@.take(0)));
            }
            while i < a.len()
                invariant
                    i <= a@.len(),
                    strs_view(texts@) == param_texts(a@.take(i as int)),
                decreases a.len() - i,
            {
                proof {
                    assert(a@.take(i + 1).drop_last() =~= a@.take(i as int));
                }
                let t = format_api_param(&a[i]);
                let tc = chars_of(t.as_str());
                let ghost before = strs_view(texts@);
                texts.push(tc);
                proof {
                    assert(strs_view(texts@) =~= before.push(param_text(a@[i as int])));
                }
                i = i + 1;
            }
            proof {
                assert(a@.take(i as int) =~= a@);
                assert(items_of(jget(*ov, "params"@)) == a@);
            }
        },
        None => {
            proof {
                assert(strs_view(texts@) =~= param_texts(Seq::empty()));
                assert(items_of(jget(*ov, "params"@)) =~= Seq::<Json>::empty());
            }
        },
    }
    let ghost start = out@;
    append_chars(out, name);
    append_str(out, "(");
    push_joined(out, &texts, ", ");
    append_str(out, ")");
    let rets = format_api_returns(json_get(ov, "returns"));
    let rc = chars_of(rets.as_str());
    push_tagged(out, " -> ", rc.as_slice());
    proof {
        assert(out@ =~= start + signature_text(name@, *ov));
    }
}

/// Appends the line of overload `k` of `n` (see [`overload_line`]).
fn push_overload_line(
    out: &mut Vec<char>,
    q: &[char],
    aliases: &Vec<Vec<char>>,
    blocking: Option<bool>,
    errors: &Vec<Vec<char>>,
    ov: &Json,
    k: usize,
    n: usize,
)
    requires
        k < n,
    ensures
        final(out)@ == old(out)@ + overload_line(
            q@,
            FnNotes { aliases: strs_view(aliases@), blocking, errors: strs_view(errors@) },
            *ov,
            k as nat,
            n as nat,
        ),
{
    let ghost notes = FnNotes { aliases: strs_view(aliases@), blocking, errors: strs_view(errors@) };
    let ghost s0 = old(out)@;
    let mut line: Vec<char> = Vec::new();
    append_str(&mut line, "- ");
    push_signature(&mut line, q, ov);
    let ghost a1 = line@;
    if n > 1 {
        append_str(&mut line, " [overload ");
        push_decimal(&mut line, (k + 1) as u64);
        append_str(&mut line, "]");
    }
    let ghost a2 = line@;
    push_tagged_list(&mut line, "; aliases: ", aliases);
    let ghost a3 = line@;
    match blocking {
        Some(true) => append_str(&mut line, "; blocking"),
        Some(false) => append_str(&mut line, "; nonblocking"),
        None => {},
    }
    let ghost a4 = line@;
    let eff = format_api_effects(json_get(ov, "effects"));
    let ec = chars_of(eff.as_str());
    push_tagged(&mut line, "; effects: ", ec.as_slice());
    let ghost a5 = line@;
    push_tagged_list(&mut line, "; errors: ", errors);
    let ghost a6 = line@;
    append_str(&mut line, "\n");
    proof {
        let tag = if n > 1 { " [overload "@ + dec(k as nat + 1) + "]"@ } else { Seq::<char>::empty() };
        let bl = match blocking {
            Some(true) => "; blocking"@,
            Some(false) => "; nonblocking"@,
            None => Seq::<char>::empty(),
        };
        assert(a1 =~= "- "@ + signature_text(q@, *ov));
        assert(a2 =~= a1 + tag);
        assert(a4 =~= a3 + bl);
        assert(line@ =~= a6 + "\n"@);
    }
    append_chars(out, line.as_slice());
}

/// Appends the lines of an API function, its name behind `prefix` (see
/// [`function_text`]).
pub fn append_api_function(out: &mut Vec<char>, prefix: &[char], function: &Json)
    ensures
        final(out)@ == old(out)@ + function_text(prefix@, *function),
{
    let name = match json_str(json_get(function, "name")) {
        Some(n) => n,
        None => {
            proof {
                assert(out@ =~= old(out)@ + function_text(prefix@, *function));
            }
            return;
        },
    };
    let mut q: Vec<char> = Vec::new();
    append_chars(&mut q, prefix);
    append_chars(&mut q, name.as_slice());
    let aliases = json_string_list(json_get(function, "aliases"));
    let null = Json::Null;
    let ext = match json_get(function, "extensions") {
        Some(x) => x,
        None => &null,
    };
    let blocking = bool_of(json_get(ext, "mspm0.blocking"));
    let errors = json_string_list(json_get(ext, "mspm0.errors"));
    let ghost notes = fn_notes(*function);
    proof {
        assert(or_null(jget(*function, "extensions"@)) == *ext);
        assert(notes.aliases == strs_view(aliases@));
        assert(notes.blocking == blocking);
        assert(notes.errors == strs_view(errors@));
    }
    let empty: Vec<Json> = Vec::new();
    let ovs = match opt_array(function, "overloads") {
        Some(a) => a,
        None => &empty,
    };
    proof {
        assert(items_of(jget(*function, "overloads"@)) =~= ovs@);
    }
    let n = ovs.len();
    let ghost start = out@;
    let mut i: usize = 0;
    proof {
        assert(ovs@.take(0) =~= Seq::<Json>::empty());
        assert(out@ =~= start + overload_lines(q@, notes, ovs@.take(0), n as nat));
    }
    while i < n
        invariant
            i <= n,
            n == ovs@.len(),
            notes.aliases == strs_view(aliases@),
            notes.blocking == blocking,
            notes.errors == strs_view(errors@),
            out@ == start + overload_lines(q@, notes, ovs@.take(i as int), n as nat),
        decreases n - i,
    {
        proof {
            assert(ovs@.take(i + 1).drop_last() =~= ovs@.take(i as int));
            assert(ovs@.take(i + 1).last() == ovs@[i as int]);
        }
        push_overload_line(out, q.as_slice(), &aliases, blocking, &errors, &ovs[i], i, n);
        proof {
            assert(FnNotes { aliases: strs_view(aliases@), blocking, errors: strs_view(errors@) } == notes);
        }
        i = i + 1;
    }
    proof {
        assert(ovs@.take(i as int) =~= ovs@);
        assert(q@ == prefix@ + name@);
    }
}

/// Appends a module's native-module and compiler-injection requirements
/// (see [`requirements_text`]).
pub fn append_module_requirements(out: &mut Vec<char>, module: &Json)
    ensures
        final(out)@ == old(out)@ + requirements_text(*module),
{
    let null = Json::Null;
    let ext = match json_get(module, "extensions") {
        Some(x) => x,
        None => &null,
    };
    proof {
        assert(or_null(jget(*module, "extensions"@)) == *ext);
    }
    let mut part1: Vec<char> = Vec::new();
    match json_get(ext, "mspm0.native_module") {
        Some(native) => {
            append_str(&mut part1, "  native module: ");
            let id = str_or_exec(json_get(native, "id"), "unknown");
            append_chars(&mut part1, id.as_slice());
            append_str(&mut part1, " >= ");
            let minimum = str_or_exec(json_get(native, "minimum_version"), "unknown");
            append_chars(&mut part1, minimum.as_slice());
            let deps = json_string_list(json_get(native, "dependencies"));
            push_tagged_list(&mut part1, "; depends on ", &deps);
            let conflicts = json_string_list(json_get(native, "conflicts"));
            push_tagged_list(&mut part1, "; conflicts with ", &conflicts);
            append_str(&mut part1, "\n");
        },
        None => {},
    }
    let mut part2: Vec<char> = Vec::new();
    match json_get(ext, "mspm0.compiler_injected") {
        Some(inj) => {
            append_str(&mut part2, "  compiler injected: ");
            let runtime = str_or_exec(json_get(inj, "runtime"), "unknown");
            append_chars(&mut part2, runtime.as_slice());
            let required = json_string_list(json_get(inj, "required_native_modules"));
            push_tagged_list(&mut part2, "; native modules: ", &required);
            let triggers = json_string_list(json_get(inj, "trigger_symbols"));
            push_tagged_list(&mut part2, "; enabled by: ", &triggers);
            append_str(&mut part2, "\n");
        },
        None => {},
    }
    proof {
        assert(part1@ =~= (match jget(*ext, "mspm0.native_module"@) {
            Some(native) => "  native module: "@ + str_or(jget(native, "id"@), "unknown"@) + " >= "@ + str_or(
                jget(native, "minimum_version"@),
                "unknown"@,
            ) + tagged_list("; depends on "@, string_list(jget(native, "dependencies"@))) + tagged_list(
                "; conflicts with "@,
                string_list(jget(native, "conflicts"@)),
            ) + "\n"@,
            None => Seq::<char>::empty(),
        }));
        assert(part2@ =~= (match jget(*ext, "mspm0.compiler_injected"@) {
            Some(inj) => "  compiler injected: "@ + str_or(jget(inj, "runtime"@), "unknown"@) + tagged_list(
                "; native modules: "@,
                string_list(jget(inj, "required_native_modules"@)),
            ) + tagged_list("; enabled by: "@, string_list(jget(inj, "trigger_symbols"@))) + "\n"@,
            None => Seq::<char>::empty(),
        }));
    }
    append_chars(out, part1.as_slice());
    append_chars(out, part2.as_slice());
    proof {
        assert(out@ =~= old(out)@ + requirements_text(*module));
    }
}

/// The first element of `a` whose `name` is `name` (see [`named_in`]).
fn find_named(a: &Vec<Json>, name: &str) -> (r: Option<usize>)
    ensures
        match r {
            Some(i) => named_in(a@, name@) == Some(i as int) && i < a@.len(),
            None => named_in(a@, name@) is None,
        },
{
    let ghost p = |x: Json| jstr(jget(x, "name"@)) == Some(name@);
    let mut k: usize = 0;
    while k < a.len()
        invariant
            k <= a@.len(),
            p == (|x: Json| jstr(jget(x, "name"@)) == Some(name@)),
            forall|j: int| 0 <= j < k ==> !p(#[trigger] a@[j]),
        decreases a.len() - k,
    {
        let hit = match json_str(json_get(&a[k], "name")) {
            Some(n) => chars_eq(n.as_slice(), chars_of(name).as_slice()),
            None => false,
        };
        if hit {
            proof {
                lemma_find_first(a@, p, k as int);
            }
            return Some(k);
        }
        k = k + 1;
    }
    proof {
        lemma_find_first(a@, p, k as int);
    }
    None
}

/// Appends the quick-reference line of `name` (see [`quick_line`]).
fn push_quick_line(out: &mut Vec<char>, module: &Json, name: &str)
    ensures
        final(out)@ == old(out)@ + quick_line(*module, name@),
{
    let fs = match json_get(module, "functions") {
        Some(Json::Array(fs)) => fs,
        _ => {
            proof {
                assert(out@ =~= old(out)@ + quick_line(*module, name@));
            }
            return;
        },
    };
    let j = match find_named(fs, name) {
        Some(j) => j,
        None => {
            proof {
                assert(out@ =~= old(out)@ + quick_line(*module, name@));
            }
            return;
        },
    };
    let os = match json_get(&fs[j], "overloads") {
        Some(Json::Array(os)) => os,
        _ => {
            proof {
                assert(out@ =~= old(out)@ + quick_line(*module, name@));
            }
            return;
        },
    };
    if os.len() == 0 {
        proof {
            assert(out@ =~= old(out)@ + quick_line(*module, name@));
        }
        return;
    }
    let mut q = chars_of("i2c.");
    append_str(&mut q, name);
    let mut line: Vec<char> = Vec::new();
    append_str(&mut line, "- ");
    push_signature(&mut line, q.as_slice(), &os[0]);
    append_str(&mut line, "\n");
    append_chars(out, line.as_slice());
    proof {
        assert(line@ =~= "- "@ + signature_text("i2c."@ + name@, os@[0]) + "\n"@);
        assert(out@ =~= old(out)@ + quick_line(*module, name@));
    }
}

/// Appends the I2C quick reference (see [`i2c_reference`]).
pub fn append_i2c_quick_reference(out: &mut Vec<char>, api: &Json)
    ensures
        final(out)@ == old(out)@ + i2c_reference(*api),
{
    let ms = match json_get(api, "modules") {
        Some(Json::Array(ms)) => ms,
        _ => {
            proof {
                assert(out@ =~= old(out)@ + i2c_reference(*api));
            }
            return;
        },
    };
    let k = match find_named(ms, "i2c") {
        Some(k) => k,
        None => {
            proof {
                assert(out@ =~= old(out)@ + i2c_reference(*api));
            }
            return;
        },
    };
    let module = &ms[k];
    append_str(out, "\n### I2C quick reference\n");
    let ghost start = out@;
    let names: Vec<&str> = vec!["valid", "probe_on", "write_on", "read_on", "write_read_on", "bytes"];
    let ghost nv = quick_names();
    proof {
        assert(names@.map_values(|x: &str| x@) =~= nv);
        assert(nv.take(0) =~= Seq::<Seq<char>>::empty());
        assert(out@ =~= start + quick_lines(*module, nv.take(0)));
    }
    let mut i: usize = 0;
    while i < names.len()
        invariant
            i <= names@.len(),
            names@.map_values(|x: &str| x@) == nv,
            out@ == start + quick_lines(*module, nv.take(i as int)),
        decreases names.len() - i,
    {
        proof {
            assert(nv.take(i + 1).drop_last() =~= nv.take(i as int));
            assert(nv.take(i + 1).last() == names@[i as int]@);
        }
        push_quick_line(out, module, names[i]);
        proof {
            assert(out@ =~= start + quick_lines(*module, nv.take(i + 1)));
        }
        i = i + 1;
    }
    proof {
        assert(nv.take(i as int) =~= nv);
        assert(out@ =~= old(out)@ + i2c_reference(*api));
    }
}

/// Appends the functions of `fs`, names behind `prefix`.
fn push_functions(out: &mut Vec<char>, prefix: &[char], fs: &Vec<Json>)
    ensures
        final(out)@ == old(out)@ + functions_text(prefix@, fs@),
{
    let ghost start = out@;
    let mut i: usize = 0;
    proof {
        assert(fs@.take(0) =~= Seq::<Json>::empty());
        assert(out@ =~= start + functions_text(prefix@, fs@.take(0)));
    }
    while i < fs.len()
        invariant
            i <= fs@.len(),
            out@ == start + functions_text(prefix@, fs@.take(i as int)),
        decreases fs.len() - i,
    {
        proof {
            assert(fs@.take(i + 1).drop_last() =~= fs@.take(i as int));
        }
        append_api_function(out, prefix, &fs[i]);
        proof {
            assert(out@ =~= start + functions_text(prefix@, fs@.take(i + 1)));
        }
        i = i + 1;
    }
    proof {
        assert(fs@.take(i as int) =~= fs@);
    }
}

/// Appends a module's section (see [`module_text`]).
fn push_module(out: &mut Vec<char>, m: &Json)
    ensures
        final(out)@ == old(out)@ + module_text(*m),
{
    let name = match json_str(json_get(m, "name")) {
        Some(n) => n,
        None => {
            proof {
                assert(out@ =~= old(out)@ + module_text(*m));
            }
            return;
        },
    };
    let mut head: Vec<char> = Vec::new();
    append_str(&mut head, "\n#### ");
    append_chars(&mut head, name.as_slice());
    match json_str(json_get(m, "description")) {
        Some(d) => {
            append_str(&mut head, " - ");
            append_chars(&mut head, d.as_slice());
        },
        None => {},
    }
    append_str(&mut head, "\n");
    proof {
        assert(head@ =~= "\n#### "@ + name@ + (match jstr(jget(*m, "description"@)) {
            Some(d) => " - "@ + d,
            None => Seq::<char>::empty(),
        }) + "\n"@);
    }
    let ghost s0 = out@;
    append_chars(out, head.as_slice());
    append_module_requirements(out, m);
    let mut prefix = clone_chars(&name);
    append_str(&mut prefix, ".");
    let empty: Vec<Json> = Vec::new();
    let fs = match opt_array(m, "functions") {
        Some(a) => a,
        None => &empty,
    };
    proof {
        assert(items_of(jget(*m, "functions"@)) =~= fs@);
    }
    push_functions(out, prefix.as_slice(), fs);
    proof {
        assert(out@ =~= s0 + module_text(*m));
    }
}

/// The first line of the summary and the notation line.
pub open spec fn summary_head(api: Json) -> Seq<char> {
    let fw = or_null(jget(api, "firmware"@));
    "API: "@ + str_or(jget(api, "id"@), "unknown"@) + " v"@ + str_or(jget(api, "version"@), "unknown"@)
        + "; firmware v"@ + str_or(jget(fw, "version"@), "unknown"@) + "; Lua "@ + str_or(
        jget(fw, "lua_version"@),
        "unknown"@,
    ) + "\n"@ + notation_line()
}

fn head_of(api: &Json) -> (r: Vec<char>)
    ensures
        r@ == summary_head(*api),
{
    let null = Json::Null;
    let fw = match json_get(api, "firmware") {
        Some(x) => x,
        None => &null,
    };
    proof {
        assert(or_null(jget(*api, "firmware"@)) == *fw);
    }
    let mut head: Vec<char> = Vec::new();
    append_str(&mut head, "API: ");
    let id = str_or_exec(json_get(api, "id"), "unknown");
    append_chars(&mut head, id.as_slice());
    append_str(&mut head, " v");
    let version = str_or_exec(json_get(api, "version"), "unknown");
    append_chars(&mut head, version.as_slice());
    append_str(&mut head, "; firmware v");
    let fv = str_or_exec(json_get(fw, "version"), "unknown");
    append_chars(&mut head, fv.as_slice());
    append_str(&mut head, "; Lua ");
    let lv = str_or_exec(json_get(fw, "lua_version"), "unknown");
    append_chars(&mut head, lv.as_slice());
    append_str(&mut head, "\n");
    append_str(
        &mut head,
        "Notation: [param] is optional; = is the default; pin{...} restricts the pin to the exposed board pins with the listed capability.\n",
    );
    proof {
        assert(head@ =~= summary_head(*api));
    }
    head
}

fn push_modules(out: &mut Vec<char>, ms: &Vec<Json>)
    ensures
        final(out)@ == old(out)@ + modules_text(ms@),
{
    let ghost s3 = out@;
    let mut i: usize = 0;
    proof {
        assert(ms@.take(0) =~= Seq::<Json>::empty());
        assert(out@ =~= s3 + modules_text(ms@.take(0)));
    }
    while i < ms.len()
        invariant
            i <= ms@.len(),
            out@ == s3 + modules_text(ms@.take(i as int)),
        decreases ms.len() - i,
    {
        proof {
            assert(ms@.take(i + 1).drop_last() =~= ms@.take(i as int));
        }
        push_module(out, &ms[i]);
        proof {
            assert(out@ =~= s3 + modules_text(ms@.take(i + 1)));
        }
        i = i + 1;
    }
    proof {
        assert(ms@.take(i as int) =~= ms@);
    }
}

/// Appends the API summary (see [`api_summary`]).
pub fn append_api_summary(out: &mut Vec<char>, api: &Json)
    ensures
        final(out)@ == old(out)@ + api_summary(*api),
{
    let head = head_of(api);
    let mut quick: Vec<char> = Vec::new();
    append_i2c_quick_reference(&mut quick, api);
    let empty: Vec<Json> = Vec::new();
    let gs = match opt_array(api, "globals") {
        Some(a) => a,
        None => &empty,
    };
    let mut globals: Vec<char> = Vec::new();
    let no_prefix: Vec<char> = Vec::new();
    push_functions(&mut globals, no_prefix.as_slice(), gs);
    let ms = match opt_array(api, "modules") {
        Some(a) => a,
        None => &empty,
    };
    let mut modules: Vec<char> = Vec::new();
    push_modules(&mut modules, ms);
    proof {
        assert(items_of(jget(*api, "globals"@)) =~= gs@);
        assert(items_of(jget(*api, "modules"@)) =~= ms@);
        assert(no_prefix@ =~= Seq::<char>::empty());
    }
    let ghost s0 = out@;
    append_chars(out, head.as_slice());
    append_chars(out, quick.as_slice());
    append_str(out, "\n### Global functions\n");
    append_chars(out, globals.as_slice());
    append_str(out, "\n### Modules\n");
    append_chars(out, modules.as_slice());
    proof {
        assert(api_summary(*api) == summary_head(*api) + i2c_reference(*api) + "\n### Global functions\n"@
            + functions_text(Seq::empty(), gs@) + "\n### Modules\n"@ + modules_text(ms@));
        assert(out@ =~= s0 + api_summary(*api));
    }
}

/// The operating rules for an assistant working from this context.
pub open spec fn operating_rules() -> Seq<char> {
    "\n## Operating rules\n"@
        + "- The Board routing and API signatures below are authoritative. Do not invent functions, parameters, pin pairs, or module IDs.\n"@
        + "- A firmware API absent from this context is unsupported. State uncertainty instead of substituting a guessed API.\n"@
        + "- This firmware has no standard `math`, `string`, or `table` library. For integer color bytes use `value // 256` and `value % 256`; use `iq.*` for trigonometry. Do not use string.char/string.byte/string.format: use i2c.bytes/spi.bytes (1..3 bytes), byte(data, index), and multi-argument print.\n"@
        + "- I2C addresses are 7-bit values: MPU6050 uses 0x68 or 0x69, never 0xD0/0xD1. Diagnose with i2c.valid then i2c.probe_on before register reads.\n"@
        + "- For spi.xfer_on, SCK/PICO/POCI must be a same-instance route listed below and pass spi.valid. CS is a distinct exposed GPIO; DC and RST must also be distinct GPIOs, never reused as SPI bus pins. Use spi.bytes for SPI payload bytes, not i2c.bytes.\n"@
}

/// Appends the operating rules.
pub fn append_operating_rules(out: &mut Vec<char>)
    ensures
        final(out)@ == old(out)@ + operating_rules(),
{
    let ghost s0 = out@;
    append_str(out, "\n## Operating rules\n");
    append_str(
        out,
        "- The Board routing and API signatures below are authoritative. Do not invent functions, parameters, pin pairs, or module IDs.\n",
    );
    append_str(
        out,
        "- A firmware API absent from this context is unsupported. State uncertainty instead of substituting a guessed API.\n",
    );
    append_str(
        out,
        "- This firmware has no standard `math`, `string`, or `table` library. For integer color bytes use `value // 256` and `value % 256`; use `iq.*` for trigonometry. Do not use string.char/string.byte/string.format: use i2c.bytes/spi.bytes (1..3 bytes), byte(data, index), and multi-argument print.\n",
    );
    append_str(
        out,
        "- I2C addresses are 7-bit values: MPU6050 uses 0x68 or 0x69, never 0xD0/0xD1. Diagnose with i2c.valid then i2c.probe_on before register reads.\n",
    );
    append_str(
        out,
        "- For spi.xfer_on, SCK/PICO/POCI must be a same-instance route listed below and pass spi.valid. CS is a distinct exposed GPIO; DC and RST must also be distinct GPIOs, never reused as SPI bus pins. Use spi.bytes for SPI payload bytes, not i2c.bytes.\n",
    );
    proof {
        assert(out@ =~= s0 + operating_rules());
    }
}

// ─── the whole context ──────────────────────────────────────────────────

/// What became of the selected board's file.
pub enum BoardRead {
    /// No board is selected.
    NotSelected,
    /// The file's text, and its document when it parses as JSON.
    Read { text: String, doc: Option<Json> },
    /// The file could not be read; the reason.
    Unavailable(String),
}

/// A file of the project folder: its path relative to the folder, and its
/// text (`None` when it is not text) and size in bytes.
pub struct WorkspaceFile {
    pub name: String,
    pub text: Option<String>,
    pub size: u64,
}

/// The sources shown: the project folder's files (in path order), or the
/// single open source with its file name (if it has one).
pub enum Workspace {
    Files(Vec<WorkspaceFile>),
    Single { name: Option<String>, source: String },
}

/// The chip whose API and pin table the context uses: the board's `chip`,
/// or `mspm0g3507` when there is no board document or it names none.
pub open spec fn context_chip_spec(board: Option<Json>) -> Seq<char> {
    match board {
        Some(b) => match jstr(jget(b, "chip"@)) {
            Some(c) => c,
            None => "mspm0g3507"@,
        },
        None => "mspm0g3507"@,
    }
}

/// The chip whose API and pin table the context uses (see
/// [`context_chip_spec`]).
pub fn context_chip(board: Option<&Json>) -> (r: String)
    ensures
        r@ == context_chip_spec(opt_json(board)),
{
    match board {
        Some(b) => match json_str(json_get(b, "chip")) {
            Some(c) => string_from(c.as_slice()),
            None => String::from_str("mspm0g3507"),
        },
        None => String::from_str("mspm0g3507"),
    }
}

/// `\` made `/` (a path written with forward slashes).
pub open spec fn slashes(s: Seq<char>) -> Seq<char> {
    s.map_values(|c: char| if c == '\\' { '/' } else { c })
}

/// One workspace file as shown: `--- name` and its text, or a note with
/// its size when it is not text.
pub open spec fn workspace_file_text(f: WorkspaceFile) -> Seq<char> {
    "\n--- "@ + slashes(f.name@) + "\n"@ + (match f.text {
        Some(t) => t@,
        None => "[binary file omitted: "@ + dec(f.size as nat) + " bytes]"@,
    }) + "\n"@
}

pub open spec fn workspace_files_text(fs: Seq<WorkspaceFile>) -> Seq<char>
    decreases fs.len(),
{
    if fs.len() == 0 {
        Seq::empty()
    } else {
        workspace_files_text(fs.drop_last()) + workspace_file_text(fs.last())
    }
}

pub open spec fn workspace_text(w: Workspace) -> Seq<char> {
    match w {
        Workspace::Files(fs) => workspace_files_text(fs@),
        Workspace::Single { name, source } => "\n--- "@ + (match name {
            Some(n) => n@,
            None => "untitled.lua"@,
        }) + "\n"@ + source@ + "\n"@,
    }
}

pub open spec fn board_text(board: BoardRead) -> Seq<char> {
    match board {
        BoardRead::NotSelected => Seq::empty(),
        BoardRead::Read { text, doc: _ } => "\n## Board\n"@ + text@ + "\n"@,
        BoardRead::Unavailable(e) => "\n## Board\nUnavailable: "@ + e@ + "\n"@,
    }
}

pub open spec fn board_doc(board: BoardRead) -> Option<Json> {
    match board {
        BoardRead::Read { text: _, doc } => doc,
        _ => None,
    }
}

/// The whole context: heading, the board file, the operating rules, the
/// routing (when the board document parsed), the API summary (or
/// `Unavailable`), and the workspace sources. `chip` and `api` are the
/// documents of the chip and API files of [`context_chip_spec`], `None`
/// when they could not be read or parsed.
pub open spec fn project_context_text(board: BoardRead, chip: Option<Json>, api: Option<Json>, w: Workspace) -> Seq<
    char,
> {
    "# Lua IDE context\n"@ + board_text(board) + operating_rules() + (match board_doc(board) {
        Some(b) => routing_summary(chip, b),
        None => Seq::empty(),
    }) + "\n## Available API\n"@ + (match api {
        Some(a) => api_summary(a),
        None => "Unavailable\n"@,
    }) + "\n## Workspace files\n"@ + workspace_text(w)
}

/// Appends one workspace file (see [`workspace_file_text`]).
pub fn append_workspace_file(out: &mut Vec<char>, f: &WorkspaceFile)
    ensures
        final(out)@ == old(out)@ + workspace_file_text(*f),
{
    let mut t: Vec<char> = Vec::new();
    append_str(&mut t, "\n--- ");
    let name = chars_of(f.name.as_str());
    let ghost t0 = t@;
    let mut i: usize = 0;
    while i < name.len()
        invariant
            i <= name@.len(),
            name@ == f.name@,
            t@ == t0 + slashes(name@.take(i as int)),
        decreases name.len() - i,
    {
        let c = name[i];
        t.push(if c == '\\' { '/' } else { c });
        proof {
            assert(slashes(name@.take(i + 1)) =~= slashes(name@.take(i as int)).push(
                if c == '\\' { '/' } else { c },
            ));
        }
        i = i + 1;
    }
    proof {
        assert(name@.take(i as int) =~= name@);
    }
    append_str(&mut t, "\n");
    match &f.text {
        Some(text) => append_str(&mut t, text.as_str()),
        None => {
            append_str(&mut t, "[binary file omitted: ");
            push_decimal(&mut t, f.size);
            append_str(&mut t, " bytes]");
        },
    }
    append_str(&mut t, "\n");
    proof {
        assert(t@ =~= workspace_file_text(*f));
    }
    append_chars(out, t.as_slice());
}

fn push_workspace(out: &mut Vec<char>, w: &Workspace)
    ensures
        final(out)@ == old(out)@ + workspace_text(*w),
{
    match w {
        Workspace::Files(fs) => {
            let ghost s0 = out@;
            let mut i: usize = 0;
            proof {
                assert(fs@.take(0) =~= Seq::<WorkspaceFile>::empty());
                assert(out@ =~= s0 + workspace_files_text(fs@.take(0)));
            }
            while i < fs.len()
                invariant
                    i <= fs@.len(),
                    out@ == s0 + workspace_files_text(fs@.take(i as int)),
                decreases fs.len() - i,
            {
                proof {
                    assert(fs@.take(i + 1).drop_last() =~= fs@.take(i as int));
                }
                append_workspace_file(out, &fs[i]);
                proof {
                    assert(out@ =~= s0 + workspace_files_text(fs@.take(i + 1)));
                }
                i = i + 1;
            }
            proof {
                assert(fs@.take(i as int) =~= fs@);
            }
        },
        Workspace::Single { name, source } => {
            let mut t: Vec<char> = Vec::new();
            append_str(&mut t, "\n--- ");
            match name {
                Some(n) => append_str(&mut t, n.as_str()),
                None => append_str(&mut t, "untitled.lua"),
            }
            append_str(&mut t, "\n");
            append_str(&mut t, source.as_str());
            append_str(&mut t, "\n");
            proof {
                assert(t@ =~= workspace_text(*w));
            }
            append_chars(out, t.as_slice());
        },
    }
}

fn board_part(board: &BoardRead) -> (r: Vec<char>)
    ensures
        r@ == "# Lua IDE context\n"@ + board_text(*board),
{
    let mut head: Vec<char> = Vec::new();
    append_str(&mut head, "# Lua IDE context\n");
    match board {
        BoardRead::NotSelected => {},
        BoardRead::Read { text, doc: _ } => {
            append_str(&mut head, "\n## Board\n");
            append_str(&mut head, text.as_str());
            append_str(&mut head, "\n");
        },
        BoardRead::Unavailable(e) => {
            append_str(&mut head, "\n## Board\nUnavailable: ");
            append_str(&mut head, e.as_str());
            append_str(&mut head, "\n");
        },
    }
    proof {
        assert(head@ =~= "# Lua IDE context\n"@ + board_text(*board));
    }
    head
}

fn routing_part(board: &BoardRead, chip: Option<&Json>) -> (r: Vec<char>)
    ensures
        r@ == (match board_doc(*board) {
            Some(b) => routing_summary(opt_json(chip), b),
            None => Seq::<char>::empty(),
        }),
{
    let mut routing: Vec<char> = Vec::new();
    match board {
        BoardRead::Read { text: _, doc: Some(b) } => append_board_capability_summary(&mut routing, chip, b),
        _ => {},
    }
    proof {
        assert(routing@ =~= (match board_doc(*board) {
            Some(b) => routing_summary(opt_json(chip), b),
            None => Seq::<char>::empty(),
        }));
    }
    routing
}

fn api_and_files_part(api: Option<&Json>, workspace: &Workspace) -> (r: Vec<char>)
    ensures
        r@ == "\n## Available API\n"@ + (match opt_json(api) {
            Some(a) => api_summary(a),
            None => "Unavailable\n"@,
        }) + "\n## Workspace files\n"@ + workspace_text(*workspace),
{
    let mut part: Vec<char> = Vec::new();
    append_str(&mut part, "\n## Available API\n");
    match api {
        Some(a) => append_api_summary(&mut part, a),
        None => append_str(&mut part, "Unavailable\n"),
    }
    append_str(&mut part, "\n## Workspace files\n");
    push_workspace(&mut part, workspace);
    proof {
        assert(part@ =~= "\n## Available API\n"@ + (match opt_json(api) {
            Some(a) => api_summary(a),
            None => "Unavailable\n"@,
        }) + "\n## Workspace files\n"@ + workspace_text(*workspace));
    }
    part
}

/// The project context for an assistant (see [`project_context_text`]).
pub fn build_project_context(board: &BoardRead, chip: Option<&Json>, api: Option<&Json>, workspace: &Workspace) -> (r:
    String)
    ensures
        r@ == project_context_text(*board, opt_json(chip), opt_json(api), *workspace),
{
    let head = board_part(board);
    let mut rules: Vec<char> = Vec::new();
    append_operating_rules(&mut rules);
    let routing = routing_part(board, chip);
    let rest = api_and_files_part(api, workspace);
    let mut out = head;
    append_chars(&mut out, rules.as_slice());
    append_chars(&mut out, routing.as_slice());
    append_chars(&mut out, rest.as_slice());
    proof {
        assert(rules@ =~= Seq::<char>::empty() + operating_rules());
        assert(out@ =~= project_context_text(*board, opt_json(chip), opt_json(api), *workspace));
    }
    string_from(out.as_slice())
}

} // verus!
