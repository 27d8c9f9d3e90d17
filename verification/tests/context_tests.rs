use gpui_ide::context::{
    append_api_summary, append_board_capability_summary, append_operating_rules, build_project_context,
    context_chip, format_api_capability_value, format_api_constraints, format_api_param, format_api_resource,
    json_string_list, push_json, BoardRead, Workspace, WorkspaceFile,
};
use gpui_ide::metadata::{Json, JsonMember};

fn chars(x: &str) -> Vec<char> {
    x.chars().collect()
}

fn text(v: &[char]) -> String {
    v.iter().collect()
}

fn jstr(x: &str) -> Json {
    Json::Str(chars(x))
}

fn num(n: i64) -> Json {
    Json::Number(Some(n), chars(&n.to_string()))
}

fn arr(items: Vec<Json>) -> Json {
    Json::Array(items)
}

fn obj(members: Vec<(&str, Json)>) -> Json {
    Json::Object(members.into_iter().map(|(k, v)| JsonMember { key: chars(k), value: v }).collect())
}

fn strs(xs: &[&str]) -> Json {
    arr(xs.iter().map(|x| jstr(x)).collect())
}

#[test]
fn context_api_summary_includes_call_contracts() {
    let api = obj(vec![
        ("id", jstr("test.lua")),
        ("version", jstr("1.2.3")),
        ("firmware", obj(vec![("version", jstr("2.0.0")), ("lua_version", jstr("5.5.0"))])),
        ("globals", arr(vec![])),
        (
            "modules",
            arr(vec![obj(vec![
                ("name", jstr("i2c")),
                ("description", jstr("I2C bus")),
                (
                    "extensions",
                    obj(vec![(
                        "mspm0.native_module",
                        obj(vec![
                            ("id", jstr("i2c")),
                            ("minimum_version", jstr("1.0.1")),
                            ("dependencies", arr(vec![])),
                            ("conflicts", arr(vec![])),
                        ]),
                    )]),
                ),
                (
                    "functions",
                    arr(vec![obj(vec![
                        ("name", jstr("write")),
                        ("aliases", strs(&["send"])),
                        (
                            "overloads",
                            arr(vec![obj(vec![
                                (
                                    "params",
                                    arr(vec![
                                        obj(vec![
                                            ("name", jstr("scl")),
                                            ("type", jstr("pin")),
                                            (
                                                "resource",
                                                obj(vec![
                                                    ("kind", jstr("pin")),
                                                    ("scope", jstr("board.exposed")),
                                                    (
                                                        "capability",
                                                        obj(vec![("class", jstr("i2c")), ("signal", jstr("SCL"))]),
                                                    ),
                                                ]),
                                            ),
                                        ]),
                                        obj(vec![
                                            ("name", jstr("address")),
                                            ("type", jstr("integer")),
                                            ("optional", Json::Bool(true)),
                                            ("default", num(60)),
                                            (
                                                "value_constraints",
                                                obj(vec![("minimum", num(0)), ("maximum", num(127))]),
                                            ),
                                        ]),
                                    ]),
                                ),
                                ("returns", arr(vec![obj(vec![("name", jstr("ok")), ("type", jstr("boolean"))])])),
                                (
                                    "effects",
                                    arr(vec![obj(vec![
                                        ("kind", jstr("write")),
                                        ("target", jstr("bus")),
                                        ("lifetime", jstr("call")),
                                    ])]),
                                ),
                            ])]),
                        ),
                        (
                            "extensions",
                            obj(vec![("mspm0.blocking", Json::Bool(true)), ("mspm0.errors", strs(&["i2c:nack"]))]),
                        ),
                    ])]),
                ),
            ])]),
        ),
    ]);
    let mut out: Vec<char> = Vec::new();
    append_api_summary(&mut out, &api);
    let summary = text(&out);

    assert!(summary.contains("API: test.lua v1.2.3; firmware v2.0.0; Lua 5.5.0"));
    assert!(summary.contains("native module: i2c >= 1.0.1"));
    assert!(summary.contains(
        "i2c.write(scl: pin {board.exposed; class=i2c; signal=SCL}, [address: integer [0..127] = 60]) -> ok: boolean"
    ));
    assert!(summary.contains("aliases: send; blocking; effects: write bus (call); errors: i2c:nack"));
}

#[test]
fn api_summary_has_exact_layout() {
    let api = obj(vec![
        ("id", jstr("t")),
        (
            "globals",
            arr(vec![obj(vec![
                ("name", jstr("sleep")),
                ("overloads", arr(vec![obj(vec![]), obj(vec![("params", arr(vec![obj(vec![])]))])])),
            ])]),
        ),
        ("modules", arr(vec![obj(vec![("description", jstr("nameless"))])])),
    ]);
    let mut out: Vec<char> = Vec::new();
    append_api_summary(&mut out, &api);
    assert_eq!(
        text(&out),
        "API: t vunknown; firmware vunknown; Lua unknown\n\
         Notation: [param] is optional; = is the default; pin{...} restricts the pin to the exposed board pins with the listed capability.\n\
         \n### Global functions\n\
         - sleep() [overload 1]\n\
         - sleep(value: any) [overload 2]\n\
         \n### Modules\n"
    );
}

#[test]
fn i2c_quick_reference_lists_first_overloads_in_fixed_order() {
    let f = |name: &str| {
        obj(vec![
            ("name", jstr(name)),
            ("overloads", arr(vec![obj(vec![("params", arr(vec![obj(vec![("name", jstr("id")), ("type", jstr("integer"))])]))])])),
        ])
    };
    let api = obj(vec![
        ("globals", arr(vec![])),
        ("modules", arr(vec![obj(vec![("name", jstr("i2c")), ("functions", arr(vec![f("bytes"), f("valid")]))])])),
    ]);
    let mut out: Vec<char> = Vec::new();
    append_api_summary(&mut out, &api);
    let s = text(&out);
    assert!(s.contains("\n### I2C quick reference\n- i2c.valid(id: integer)\n- i2c.bytes(id: integer)\n"));
    assert!(s.contains("\n#### i2c\n- i2c.bytes(id: integer)\n- i2c.valid(id: integer)\n"));
}

#[test]
fn json_values_render_compactly() {
    let v = obj(vec![
        ("a", arr(vec![num(1), Json::Null, Json::Bool(false)])),
        ("b", jstr("q\"\\\n\u{1}")),
        ("c", Json::Number(None, chars("1.5"))),
    ]);
    let mut out: Vec<char> = Vec::new();
    push_json(&mut out, &v);
    assert_eq!(text(&out), "{\"a\":[1,null,false],\"b\":\"q\\\"\\\\\\n\\u0001\",\"c\":1.5}");
}

#[test]
fn constraints_render_range_choices_and_length() {
    let c = obj(vec![
        ("maximum", num(9)),
        ("allowed_values", arr(vec![jstr("out"), jstr("in")])),
        ("max_length", num(3)),
    ]);
    assert_eq!(format_api_constraints(Some(&c)), "[-inf..9], one of {\"out\", \"in\"}, max length 3");
    assert_eq!(format_api_constraints(None), "");
    assert_eq!(format_api_constraints(Some(&obj(vec![("minimum", num(2))]))), "[2..+inf]");
}

#[test]
fn resource_sorts_capability_entries_and_falls_back_to_kind() {
    let r = obj(vec![
        ("kind", jstr("pin")),
        ("capability", obj(vec![("signal", jstr("SDA")), ("class", jstr("i2c")), ("instance", num(1))])),
    ]);
    assert_eq!(format_api_resource(Some(&r)), "class=i2c; instance=1; signal=SDA");
    assert_eq!(format_api_resource(Some(&obj(vec![("kind", jstr("uart"))]))), "uart");
    assert_eq!(format_api_resource(Some(&obj(vec![]))), "resource");
    assert_eq!(format_api_capability_value(&num(4)), "4");
    assert_eq!(format_api_capability_value(&jstr("x")), "x");
}

#[test]
fn param_marks_variadic_default_and_optional() {
    let p = obj(vec![
        ("name", jstr("args")),
        ("type", jstr("any")),
        ("variadic", Json::Bool(true)),
        ("optional", Json::Bool(true)),
        ("default", jstr("x")),
    ]);
    assert_eq!(format_api_param(&p), "[args: any... = \"x\"]");
    let strings = json_string_list(Some(&arr(vec![jstr("a"), num(1), jstr("b")])));
    assert_eq!(strings, vec![chars("a"), chars("b")]);
}

fn routing_chip() -> Json {
    obj(vec![(
        "pins",
        obj(vec![
            ("PA0", strs(&["I2C0_SDA", "UART0_TX"])),
            ("PA1", strs(&["I2C0_SCL"])),
            ("PB2", strs(&["I2C1_SCL", "SPI1_SCLK"])),
            ("PB3", strs(&["I2C1_SDA", "SPI1_PICO", "SPI1_CS0"])),
            ("PA9", strs(&["GPIO"])),
        ]),
    )])
}

#[test]
fn board_routing_groups_exposed_pins_by_instance() {
    let board = obj(vec![("pins", strs(&["PB3", "PB2", "PA1", "PB2", "PA9"]))]);
    let chip = routing_chip();
    let mut out: Vec<char> = Vec::new();
    append_operating_rules(&mut out);
    append_board_capability_summary(&mut out, Some(&chip), &board);
    let s = text(&out);
    assert!(s.contains("no standard `math`, `string`, or `table` library"));
    assert!(s.ends_with(
        "\n## Board peripheral routing\n\
         Use the same I2C instance for SCL and SDA; only the exposed pins below are valid for this board.\n\
         - I2C0: SCL = PA1; SDA = none\n\
         - I2C1: SCL = PB2; SDA = PB3\n\
         SPI requires one matching instance for SCK/PICO/POCI. CS/DC/RST are distinct exposed GPIOs.\n\
         - SPI1: SCK = PB2; PICO = PB3; POCI = none\n"
    ));
}

#[test]
fn board_routing_needs_a_chip_pin_table() {
    let board = obj(vec![("pins", strs(&["PA0"]))]);
    let mut out: Vec<char> = Vec::new();
    append_board_capability_summary(&mut out, None, &board);
    assert!(out.is_empty());
    append_board_capability_summary(&mut out, Some(&obj(vec![("pins", arr(vec![]))])), &board);
    assert!(out.is_empty());
    let gpio_only = obj(vec![("pins", obj(vec![("PA0", strs(&["GPIO"]))]))]);
    append_board_capability_summary(&mut out, Some(&gpio_only), &board);
    assert_eq!(text(&out), "\n## Board peripheral routing\n");
}

#[test]
fn project_context_assembles_sections() {
    let board_doc = obj(vec![("chip", jstr("mspm0g3507")), ("pins", strs(&["PA1"]))]);
    assert_eq!(context_chip(Some(&board_doc)), "mspm0g3507");
    assert_eq!(context_chip(Some(&obj(vec![]))), "mspm0g3507");
    assert_eq!(context_chip(Some(&obj(vec![("chip", jstr("other"))]))), "other");
    let board = BoardRead::Read { text: "{}".to_string(), doc: Some(board_doc) };
    let chip = routing_chip();
    let ws = Workspace::Files(vec![
        WorkspaceFile { name: "src\\main.lua".to_string(), text: Some("print(1)".to_string()), size: 8 },
        WorkspaceFile { name: "logo.bin".to_string(), text: None, size: 42 },
    ]);
    let ctx = build_project_context(&board, Some(&chip), None, &ws);
    assert!(ctx.starts_with("# Lua IDE context\n\n## Board\n{}\n\n## Operating rules\n"));
    assert!(ctx.contains("- I2C0: SCL = PA1; SDA = none\n"));
    assert!(ctx.ends_with(
        "\n## Available API\nUnavailable\n\n## Workspace files\n\n--- src/main.lua\nprint(1)\n\n--- logo.bin\n[binary file omitted: 42 bytes]\n"
    ));
    let single = Workspace::Single { name: None, source: "x = 1".to_string() };
    let ctx2 = build_project_context(&BoardRead::Unavailable("gone".to_string()), None, None, &single);
    assert!(ctx2.starts_with("# Lua IDE context\n\n## Board\nUnavailable: gone\n\n## Operating rules\n"));
    assert!(ctx2.ends_with("\n## Workspace files\n\n--- untitled.lua\nx = 1\n"));
}
