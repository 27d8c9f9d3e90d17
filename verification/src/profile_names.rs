//! Every profile that loads names each of its parts once: global functions,
//! modules, each module's functions, chip pins, peripherals and board pins.
//! Lookups by name therefore never have to choose between two entries.
use vstd::prelude::*;
use crate::metadata::{ProfileV, FunctionV, ModuleV, ChipPinV, PeriphV, BoardPinV, CapV, SimpleChip, SimpleBoard, SimpleApi, SimpleFunction, SimpleModule, Json, simple_profile, profile_body, profile_given, profile_from, functions_stage, function_stage, module_stage, modules_stage, chip_stage, note_periph, note_periphs, periph_pos, board_stage, pin_pairs, flash_pin_names, json_functions, json_function, json_module, json_modules, json_periphs, chip_periphs, json_chip_pins, chip_pin_list, json_board_pins, apply_reserved, apply_devices, apply_connections, pin_table, declared_types, jarr, jget, jstr, opt_arr};

verus! {

/// No two elements of `v` have the same key.
pub open spec fn keys_distinct<A>(v: Seq<A>, key: spec_fn(A) -> Seq<char>) -> bool {
    forall|i: int, j: int| 0 <= i < j < v.len() ==> key(#[trigger] v[i]) != key(#[trigger] v[j])
}

pub open spec fn fn_name() -> spec_fn(FunctionV) -> Seq<char> {
    |f: FunctionV| f.name
}

pub open spec fn module_name() -> spec_fn(ModuleV) -> Seq<char> {
    |m: ModuleV| m.name
}

pub open spec fn chip_pin_name() -> spec_fn(ChipPinV) -> Seq<char> {
    |c: ChipPinV| c.name
}

pub open spec fn periph_id() -> spec_fn(PeriphV) -> Seq<char> {
    |p: PeriphV| p.id
}

pub open spec fn board_pin_id() -> spec_fn(BoardPinV) -> Seq<char> {
    |b: BoardPinV| b.id
}

/// Each part of the profile is named once.
pub open spec fn names_unique(p: ProfileV) -> bool {
    &&& keys_distinct(p.globals, fn_name())
    &&& keys_distinct(p.modules, module_name())
    &&& forall|k: int| 0 <= k < p.modules.len() ==> keys_distinct(#[trigger] p.modules[k].functions, fn_name())
    &&& keys_distinct(p.chip_pins, chip_pin_name())
    &&& keys_distinct(p.peripherals, periph_id())
    &&& keys_distinct(p.board_pins, board_pin_id())
}

proof fn lemma_push_distinct<A>(v: Seq<A>, x: A, key: spec_fn(A) -> Seq<char>)
    requires
        keys_distinct(v, key),
        forall|i: int| 0 <= i < v.len() ==> key(#[trigger] v[i]) != key(x),
    ensures
        keys_distinct(v.push(x), key),
{
    let w = v.push(x);
    assert forall|i: int, j: int| 0 <= i < j < w.len() implies key(#[trigger] w[i]) != key(#[trigger] w[j]) by {
        assert(w[i] == v[i]);
        if j < v.len() {
            assert(w[j] == v[j]);
        }
    }
}

proof fn lemma_functions_stage(fs: Seq<SimpleFunction>, declared: Seq<Seq<char>>, dup: Seq<char>)
    ensures
        functions_stage(fs, declared, dup) is Ok ==> keys_distinct(functions_stage(fs, declared, dup)->Ok_0, fn_name()),
    decreases fs.len(),
{
    if fs.len() > 0 {
        lemma_functions_stage(fs.drop_last(), declared, dup);
        if functions_stage(fs, declared, dup) is Ok {
            let v = functions_stage(fs.drop_last(), declared, dup)->Ok_0;
            let x = function_stage(fs.last(), declared)->Ok_0;
            assert(!exists|i: int| 0 <= i < v.len() && (#[trigger] v[i]).name == x.name);
            lemma_push_distinct(v, x, fn_name());
        }
    }
}

proof fn lemma_modules_stage(ms: Seq<SimpleModule>, declared: Seq<Seq<char>>)
    ensures
        modules_stage(ms, declared) is Ok ==> {
            let v = modules_stage(ms, declared)->Ok_0;
            &&& keys_distinct(v, module_name())
            &&& forall|k: int| 0 <= k < v.len() ==> keys_distinct(#[trigger] v[k].functions, fn_name())
        },
    decreases ms.len(),
{
    if ms.len() > 0 {
        lemma_modules_stage(ms.drop_last(), declared);
        if modules_stage(ms, declared) is Ok {
            let v = modules_stage(ms.drop_last(), declared)->Ok_0;
            let m = ms.last();
            let x = module_stage(m, declared)->Ok_0;
            lemma_functions_stage(m.functions@, declared, "API 模块 "@ + m.name@ + " 存在重复函数"@);
            assert(keys_distinct(x.functions, fn_name()));
            assert(!exists|i: int| 0 <= i < v.len() && (#[trigger] v[i]).name == x.name);
            lemma_push_distinct(v, x, module_name());
            let w = v.push(x);
            assert forall|k: int| 0 <= k < w.len() implies keys_distinct(#[trigger] w[k].functions, fn_name()) by {
                if k < v.len() {
                    assert(w[k] == v[k]);
                }
            }
        }
    }
}

proof fn lemma_note_periph(ps: Seq<PeriphV>, c: CapV)
    requires
        keys_distinct(ps, periph_id()),
    ensures
        keys_distinct(note_periph(ps, c), periph_id()),
{
    if let Some(id) = c.peripheral {
        match periph_pos(ps, id) {
            None => {
                let p = |x: PeriphV| x.id == id;
                assert forall|i: int| 0 <= i < ps.len() implies periph_id()(#[trigger] ps[i]) != id by {
                    if ps[i].id == id {
                        crate::metadata::lemma_exists_first(ps, p, i);
                    }
                }
                let q = note_periph(ps, c);
                lemma_push_distinct(ps, q.last(), periph_id());
                assert(q =~= ps.push(q.last()));
            },
            Some(i) => {
                let q = note_periph(ps, c);
                assert(q.len() == ps.len());
                assert forall|a: int| 0 <= a < q.len() implies #[trigger] q[a].id == ps[a].id by {}
                assert forall|a: int, b: int| 0 <= a < b < q.len() implies periph_id()(#[trigger] q[a]) != periph_id()(
                    #[trigger] q[b],
                ) by {
                    assert(q[a].id == ps[a].id && q[b].id == ps[b].id);
                }
            },
        }
    }
}

proof fn lemma_note_periphs(ps: Seq<PeriphV>, cs: Seq<CapV>)
    requires
        keys_distinct(ps, periph_id()),
    ensures
        keys_distinct(note_periphs(ps, cs), periph_id()),
    decreases cs.len(),
{
    if cs.len() > 0 {
        lemma_note_periphs(ps, cs.drop_last());
        lemma_note_periph(note_periphs(ps, cs.drop_last()), cs.last());
    }
}

proof fn lemma_chip_stage(pins: Seq<(Seq<char>, Seq<Seq<char>>)>)
    ensures
        chip_stage(pins) is Ok ==> {
            let st = chip_stage(pins)->Ok_0;
            keys_distinct(st.0, chip_pin_name()) && keys_distinct(st.1, periph_id())
        },
    decreases pins.len(),
{
    if pins.len() > 0 {
        lemma_chip_stage(pins.drop_last());
        if chip_stage(pins) is Ok {
            let st = chip_stage(pins.drop_last())->Ok_0;
            let r = chip_stage(pins)->Ok_0;
            let name = pins.last().0;
            assert(!exists|i: int| 0 <= i < st.0.len() && (#[trigger] st.0[i]).name == name);
            lemma_push_distinct(st.0, r.0.last(), chip_pin_name());
            assert(r.0 =~= st.0.push(r.0.last()));
            lemma_note_periphs(st.1, r.0.last().caps);
        }
    } else {
        assert(chip_stage(pins)->Ok_0.0 =~= Seq::<ChipPinV>::empty());
    }
}

proof fn lemma_board_stage(pairs: Seq<(Seq<char>, Seq<char>)>, cps: Seq<ChipPinV>, flash: Seq<Seq<char>>)
    ensures
        board_stage(pairs, cps, flash) is Ok ==> keys_distinct(board_stage(pairs, cps, flash)->Ok_0, board_pin_id()),
    decreases pairs.len(),
{
    if pairs.len() > 0 {
        lemma_board_stage(pairs.drop_last(), cps, flash);
        if board_stage(pairs, cps, flash) is Ok {
            let bps = board_stage(pairs.drop_last(), cps, flash)->Ok_0;
            let r = board_stage(pairs, cps, flash)->Ok_0;
            let name = pairs.last().0;
            assert(!exists|i: int| 0 <= i < bps.len() && (#[trigger] bps[i]).name == name);
            assert forall|i: int| 0 <= i < bps.len() implies board_pin_id()(#[trigger] bps[i]) != name by {
                lemma_board_stage_ids(pairs.drop_last(), cps, flash, i);
            }
            lemma_push_distinct(bps, r.last(), board_pin_id());
            assert(r =~= bps.push(r.last()));
        }
    }
}

proof fn lemma_board_stage_ids(pairs: Seq<(Seq<char>, Seq<char>)>, cps: Seq<ChipPinV>, flash: Seq<Seq<char>>, i: int)
    requires
        board_stage(pairs, cps, flash) is Ok,
        0 <= i < board_stage(pairs, cps, flash)->Ok_0.len(),
    ensures
        board_stage(pairs, cps, flash)->Ok_0[i].id == board_stage(pairs, cps, flash)->Ok_0[i].name,
    decreases pairs.len(),
{
    if pairs.len() > 0 {
        let bps = board_stage(pairs.drop_last(), cps, flash)->Ok_0;
        if i < bps.len() {
            lemma_board_stage_ids(pairs.drop_last(), cps, flash, i);
        }
    }
}

/// A profile built from the three simple files names each part once.
pub proof fn law_simple_profile_names_unique(chip: SimpleChip, board: SimpleBoard, api: SimpleApi)
    ensures
        simple_profile(chip, board, api) is Ok ==> names_unique(simple_profile(chip, board, api)->Ok_0),
{
    if simple_profile(chip, board, api) is Ok {
        lemma_chip_stage(pin_table(chip.pins@));
        let cs = chip_stage(pin_table(chip.pins@))->Ok_0;
        lemma_board_stage(pin_pairs(board), cs.0, flash_pin_names(board));
        lemma_functions_stage(api.globals@, declared_types(api), "API 存在重复全局函数"@);
        lemma_modules_stage(api.modules@, declared_types(api));
    }
}

proof fn lemma_json_functions(fs: Seq<Json>, dup: Seq<char>)
    ensures
        json_functions(fs, dup) is Ok ==> keys_distinct(json_functions(fs, dup)->Ok_0, fn_name()),
    decreases fs.len(),
{
    if fs.len() > 0 {
        lemma_json_functions(fs.drop_last(), dup);
        if json_functions(fs, dup) is Ok {
            let v = json_functions(fs.drop_last(), dup)->Ok_0;
            let x = json_function(fs.last())->Ok_0;
            assert(!exists|i: int| 0 <= i < v.len() && (#[trigger] v[i]).name == x.name);
            lemma_push_distinct(v, x, fn_name());
        }
    }
}

proof fn lemma_json_modules(ms: Seq<Json>)
    ensures
        json_modules(ms) is Ok ==> {
            let v = json_modules(ms)->Ok_0;
            &&& keys_distinct(v, module_name())
            &&& forall|k: int| 0 <= k < v.len() ==> keys_distinct(#[trigger] v[k].functions, fn_name())
        },
    decreases ms.len(),
{
    if ms.len() > 0 {
        lemma_json_modules(ms.drop_last());
        if json_modules(ms) is Ok {
            let v = json_modules(ms.drop_last())->Ok_0;
            let m = ms.last();
            let x = json_module(m)->Ok_0;
            let name = jstr(jget(m, "name"@))->Some_0;
            let fs = jarr(jget(m, "functions"@))->Some_0;
            lemma_json_functions(fs, "META001: 模块 "@ + name + " 存在重复函数"@);
            assert(keys_distinct(x.functions, fn_name()));
            assert(!exists|i: int| 0 <= i < v.len() && (#[trigger] v[i]).name == x.name);
            lemma_push_distinct(v, x, module_name());
            let w = v.push(x);
            assert forall|k: int| 0 <= k < w.len() implies keys_distinct(#[trigger] w[k].functions, fn_name()) by {
                if k < v.len() {
                    assert(w[k] == v[k]);
                }
            }
        }
    }
}

proof fn lemma_json_periphs(vs: Seq<Json>)
    ensures
        json_periphs(vs) is Ok ==> keys_distinct(json_periphs(vs)->Ok_0, periph_id()),
    decreases vs.len(),
{
    if vs.len() > 0 {
        lemma_json_periphs(vs.drop_last());
        if json_periphs(vs) is Ok {
            let ps = json_periphs(vs.drop_last())->Ok_0;
            let r = json_periphs(vs)->Ok_0;
            let id = jstr(jget(vs.last(), "id"@))->Some_0;
            assert(!exists|i: int| 0 <= i < ps.len() && (#[trigger] ps[i]).id == id);
            lemma_push_distinct(ps, r.last(), periph_id());
            assert(r =~= ps.push(r.last()));
        }
    }
}

proof fn lemma_json_chip_pins(vs: Seq<Json>, ps: Seq<PeriphV>)
    ensures
        json_chip_pins(vs, ps) is Ok ==> keys_distinct(json_chip_pins(vs, ps)->Ok_0, chip_pin_name()),
    decreases vs.len(),
{
    if vs.len() > 0 {
        lemma_json_chip_pins(vs.drop_last(), ps);
        if json_chip_pins(vs, ps) is Ok {
            let cps = json_chip_pins(vs.drop_last(), ps)->Ok_0;
            let r = json_chip_pins(vs, ps)->Ok_0;
            let id = jstr(jget(vs.last(), "id"@))->Some_0;
            assert(!exists|i: int| 0 <= i < cps.len() && (#[trigger] cps[i]).name == id);
            lemma_push_distinct(cps, r.last(), chip_pin_name());
            assert(r =~= cps.push(r.last()));
        }
    }
}

proof fn lemma_json_board_pins(vs: Seq<Json>, cps: Seq<ChipPinV>)
    ensures
        json_board_pins(vs, cps) is Ok ==> keys_distinct(json_board_pins(vs, cps)->Ok_0, board_pin_id()),
    decreases vs.len(),
{
    if vs.len() > 0 {
        lemma_json_board_pins(vs.drop_last(), cps);
        if json_board_pins(vs, cps) is Ok {
            let bps = json_board_pins(vs.drop_last(), cps)->Ok_0;
            let r = json_board_pins(vs, cps)->Ok_0;
            let id = jstr(jget(vs.last(), "id"@))->Some_0;
            assert(!exists|i: int| 0 <= i < bps.len() && (#[trigger] bps[i]).id == id);
            lemma_push_distinct(bps, r.last(), board_pin_id());
            assert(r =~= bps.push(r.last()));
        }
    }
}

/// Same length and the same id at every position.
pub open spec fn same_ids(a: Seq<BoardPinV>, b: Seq<BoardPinV>) -> bool {
    a.len() == b.len() && forall|i: int| 0 <= i < a.len() ==> (#[trigger] a[i]).id == b[i].id
}

proof fn lemma_same_ids_distinct(a: Seq<BoardPinV>, b: Seq<BoardPinV>)
    requires
        same_ids(a, b),
        keys_distinct(a, board_pin_id()),
    ensures
        keys_distinct(b, board_pin_id()),
{
    assert forall|i: int, j: int| 0 <= i < j < b.len() implies board_pin_id()(#[trigger] b[i]) != board_pin_id()(
        #[trigger] b[j],
    ) by {
        assert(a[i].id == b[i].id && a[j].id == b[j].id);
    }
}

proof fn lemma_apply_reserved(bps: Seq<BoardPinV>, rs: Seq<Json>)
    ensures
        apply_reserved(bps, rs) is Ok ==> same_ids(bps, apply_reserved(bps, rs)->Ok_0),
    decreases rs.len(),
{
    if rs.len() > 0 {
        lemma_apply_reserved(bps, rs.drop_last());
        if apply_reserved(bps, rs) is Ok {
            let b = apply_reserved(bps, rs.drop_last())->Ok_0;
            let r = apply_reserved(bps, rs)->Ok_0;
            assert forall|i: int| 0 <= i < bps.len() implies (#[trigger] bps[i]).id == r[i].id by {
                assert(b[i].id == r[i].id);
            }
        }
    }
}

proof fn lemma_apply_connections(bps: Seq<BoardPinV>, dev: Seq<char>, cs: Seq<Json>)
    ensures
        apply_connections(bps, dev, cs) is Ok ==> same_ids(bps, apply_connections(bps, dev, cs)->Ok_0),
    decreases cs.len(),
{
    if cs.len() > 0 {
        lemma_apply_connections(bps, dev, cs.drop_last());
        if apply_connections(bps, dev, cs) is Ok {
            let b = apply_connections(bps, dev, cs.drop_last())->Ok_0;
            let r = apply_connections(bps, dev, cs)->Ok_0;
            assert forall|i: int| 0 <= i < bps.len() implies (#[trigger] bps[i]).id == r[i].id by {
                assert(b[i].id == r[i].id);
            }
        }
    }
}

proof fn lemma_apply_devices(bps: Seq<BoardPinV>, ds: Seq<Json>)
    ensures
        apply_devices(bps, ds) is Ok ==> same_ids(bps, apply_devices(bps, ds)->Ok_0),
    decreases ds.len(),
{
    if ds.len() > 0 {
        lemma_apply_devices(bps, ds.drop_last());
        if apply_devices(bps, ds) is Ok {
            let b = apply_devices(bps, ds.drop_last())->Ok_0;
            let r = apply_devices(bps, ds)->Ok_0;
            let dev = jstr(jget(ds.last(), "id"@))->Some_0;
            lemma_apply_connections(b, dev, opt_arr(ds.last(), "connections"@));
            assert forall|i: int| 0 <= i < bps.len() implies (#[trigger] bps[i]).id == r[i].id by {
                assert(b[i].id == r[i].id);
            }
        }
    }
}

/// A profile built from the chip, board and API documents names each part
/// once, whatever SemVer answers.
pub proof fn law_profile_names_unique(
    chip: Json,
    board: Json,
    api: Json,
    version: Option<Seq<char>>,
    matched: Option<bool>,
)
    ensures
        profile_given(chip, board, api, version, matched) is Ok ==> names_unique(
            profile_given(chip, board, api, version, matched)->Ok_0,
        ),
        profile_from(chip, board, api) is Ok ==> names_unique(profile_from(chip, board, api)->Ok_0),
{
    assert forall|chip_id: Seq<char>, board_id: Seq<char>, api_id: Seq<char>|
        #[trigger] profile_body(chip, board, api, chip_id, board_id, api_id) is Ok implies names_unique(
        profile_body(chip, board, api, chip_id, board_id, api_id)->Ok_0,
    ) by {
        law_body_names_unique(chip, board, api, chip_id, board_id, api_id);
    }
}

/// A profile body built from the chip, board and API documents names each
/// part once.
pub proof fn law_body_names_unique(
    chip: Json,
    board: Json,
    api: Json,
    chip_id: Seq<char>,
    board_id: Seq<char>,
    api_id: Seq<char>,
)
    requires
        profile_body(chip, board, api, chip_id, board_id, api_id) is Ok,
    ensures
        names_unique(profile_body(chip, board, api, chip_id, board_id, api_id)->Ok_0),
{
        let ps = chip_periphs(chip)->Ok_0;
        lemma_json_periphs(jarr(jget(chip, "peripherals"@))->Some_0);
        let cps = chip_pin_list(chip, ps)->Ok_0;
        lemma_json_chip_pins(jarr(jget(chip, "pins"@))->Some_0, ps);
        let vs = jarr(jget(board, "pins"@))->Some_0;
        lemma_json_board_pins(vs, cps);
        let b1 = json_board_pins(vs, cps)->Ok_0;
        lemma_apply_reserved(b1, opt_arr(board, "reserved_pins"@));
        let b2 = apply_reserved(b1, opt_arr(board, "reserved_pins"@))->Ok_0;
        lemma_apply_devices(b2, opt_arr(board, "onboard_devices"@));
        let b3 = apply_devices(b2, opt_arr(board, "onboard_devices"@))->Ok_0;
        lemma_same_ids_distinct(b1, b2);
        lemma_same_ids_distinct(b2, b3);
        lemma_json_functions(jarr(jget(api, "globals"@))->Some_0, "META001: API 存在重复全局函数"@);
        lemma_json_modules(jarr(jget(api, "modules"@))->Some_0);
}

} // verus!