use gpui_ide::metadata::{
    build_simple_profile, is_lua_integer_literal, literal_matches_type, load_board, parses_as_float,
    validate_identifier, Json, JsonMember, SimpleApi, SimpleBoard, SimpleBoardPins, SimpleChip, SimpleFlash,
    SimpleFunction, SimpleModule, SimpleOverload, SimpleParam, TargetProfile,
};

fn s(x: &str) -> String {
    x.to_string()
}

fn chars(x: &str) -> Vec<char> {
    x.chars().collect()
}

fn jstr(x: &str) -> Json {
    Json::Str(chars(x))
}

fn obj(members: Vec<(&str, Json)>) -> Json {
    Json::Object(members.into_iter().map(|(k, v)| JsonMember { key: chars(k), value: v }).collect())
}

fn pin_res(class: &str, signal: Option<&str>, bind: Option<(&str, &str)>) -> Json {
    let mut cap = vec![("class", jstr(class))];
    if let Some(sig) = signal {
        cap.push(("signal", jstr(sig)));
    }
    let mut m = vec![("kind", jstr("pin")), ("scope", jstr("board.exposed")), ("capability", obj(cap))];
    if let Some((p, slot)) = bind {
        m.push(("bindings", obj(vec![(p, jstr(slot))])));
    }
    obj(m)
}

fn periph_res(class: &str, bind: (&str, &str)) -> Json {
    obj(vec![
        ("kind", jstr("peripheral")),
        ("scope", jstr("chip")),
        ("capability", obj(vec![("class", jstr(class))])),
        ("bindings", obj(vec![(bind.0, jstr(bind.1))])),
    ])
}

fn param(name: &str, ty: &str, resource: Option<Json>) -> SimpleParam {
    SimpleParam { name: s(name), ty: s(ty), optional: false, variadic: false, resource }
}

fn function(name: &str, params: Vec<SimpleParam>) -> SimpleFunction {
    SimpleFunction {
        name: s(name),
        description: String::new(),
        overloads: vec![SimpleOverload { params, returns: vec![s("boolean")] }],
    }
}

fn chip() -> SimpleChip {
    let pin = |n: &str, f: &[&str]| (s(n), f.iter().map(|x| s(x)).collect::<Vec<_>>());
    SimpleChip {
        name: s("mspm0g3507"),
        pins: vec![
            pin("PA0", &["GPIO", "I2C0_SDA", "UART0_TX"]),
            pin("PA1", &["GPIO", "I2C0_SCL", "UART0_RX"]),
            pin("PA10", &["GPIO", "UART0_TX"]),
            pin("PA15", &["GPIO", "I2C1_SCL"]),
            pin("PA16", &["GPIO", "I2C1_SDA"]),
            pin("PA23", &["GPIO", "UART2_TX"]),
            pin("PA24", &["GPIO", "UART2_RX", "A0_2"]),
            pin("PA25", &["GPIO", "A0_3"]),
            pin("PA26", &["GPIO", "A0_4"]),
            pin("PA27", &["GPIO", "A0_5"]),
            pin("PB14", &["GPIO", "I2C1_SCL", "SPI1_SCLK"]),
            pin("PB2", &["GPIO", "I2C1_SCL", "UART1_TX"]),
            pin("PB3", &["GPIO", "I2C1_SDA", "UART1_RX"]),
            pin("PB6", &["TIMA0_C0"]),
        ],
    }
}

fn board() -> SimpleBoard {
    let names = ["PA0", "PA1", "PA10", "PA15", "PA16", "PA23", "PA24", "PA25", "PA26", "PA27", "PB14", "PB2", "PB3"];
    SimpleBoard {
        name: s("地猛星"),
        chip: s("mspm0g3507"),
        pins: SimpleBoardPins::Direct(names.iter().map(|x| s(x)).collect()),
        flash: Some(SimpleFlash {
            name: s("W25Q"),
            storage: s("external"),
            luac: true,
            pins: vec![(s("CLK"), s("PB14"))],
        }),
    }
}

fn api() -> SimpleApi {
    let i2c = SimpleModule {
        name: s("i2c"),
        description: s("I2C bus"),
        functions: vec![function(
            "write_on",
            vec![
                param("id", "integer", Some(periph_res("i2c", ("peripheral", "bus")))),
                param("scl", "pin", Some(pin_res("i2c", Some("SCL"), Some(("peripheral", "bus"))))),
                param("sda", "pin", Some(pin_res("i2c", Some("SDA"), Some(("peripheral", "bus"))))),
                param("addr", "integer", None),
                param("data", "string", None),
                param("freq", "integer", None),
            ],
        )],
    };
    let uart = SimpleModule {
        name: s("uart"),
        description: String::new(),
        functions: vec![function(
            "open",
            vec![
                param("id", "integer", Some(periph_res("uart", ("peripheral", "port")))),
                param("tx", "pin", Some(pin_res("uart", Some("TX"), Some(("peripheral", "port"))))),
                param("rx", "pin", Some(pin_res("uart", Some("RX"), Some(("peripheral", "port"))))),
                param("baud", "integer", None),
            ],
        )],
    };
    let adc = SimpleModule {
        name: s("adc"),
        description: s("analog input"),
        functions: vec![function("read", vec![param("pin", "pin", Some(pin_res("adc", None, None)))])],
    };
    let iq = SimpleModule {
        name: s("iq"),
        description: s("fixed point"),
        functions: vec![
            function("sin_deg", vec![param("x", "number", None)]),
            function("sqrt", vec![param("x", "number", None)]),
            function("cos_deg", vec![param("x", "number", None)]),
        ],
    };
    SimpleApi {
        chip: String::new(),
        id: s("mspm0g3507.lua"),
        types: vec![s("pin")],
        enums: vec![],
        globals: vec![function("print", vec![param("value", "any", None)]), function("delay", vec![param("ms", "integer", None)])],
        modules: vec![i2c, uart, adc, iq],
    }
}

fn profile() -> TargetProfile {
    build_simple_profile("LKDMX", chip(), board(), api()).unwrap()
}

fn labels(v: &[gpui_ide::metadata::ProfileCompletion]) -> Vec<String> {
    v.iter().map(|c| c.label.clone()).collect()
}

fn args(v: &[&str]) -> Vec<String> {
    v.iter().map(|x| s(x)).collect()
}

#[test]
fn lua_hex_literals_match_integer_and_number_types() {
    assert!(literal_matches_type("0x3c", "integer"));
    assert!(literal_matches_type("-0X10", "number"));
    assert!(!literal_matches_type("0x", "integer"));
}

#[test]
fn literal_types_follow_lua_syntax() {
    assert!(literal_matches_type(" 'x' ", "string"));
    assert!(literal_matches_type("\"PA1\"", "pin"));
    assert!(!literal_matches_type("12", "string"));
    assert!(literal_matches_type("1.5e3", "number"));
    assert!(!literal_matches_type("1.5", "integer"));
    assert!(literal_matches_type("true", "boolean"));
    assert!(!literal_matches_type("nil", "boolean"));
    assert!(literal_matches_type("anything", "table"));
    assert!(is_lua_integer_literal(&chars("-9223372036854775808")));
    assert!(!is_lua_integer_literal(&chars("9223372036854775808")));
    assert!(is_lua_integer_literal(&chars("+0x7FFFFFFFFFFFFFFF")));
    assert!(parses_as_float(&chars("-inf")));
    assert!(parses_as_float(&chars("5.")));
    assert!(!parses_as_float(&chars(".")));
    assert!(!parses_as_float(&chars("1e")));
}

#[test]
fn identifiers_are_ascii_words() {
    assert!(validate_identifier("LKDMX_2-a", "开发板文件名").is_ok());
    assert_eq!(
        validate_identifier("a b", "开发板文件名").unwrap_err(),
        "开发板文件名 只能包含字母、数字、下划线和连字符: a b"
    );
    assert!(validate_identifier("", "x").is_err());
}

#[test]
fn profile_identity_comes_from_the_files() {
    let p = profile();
    assert_eq!(p.board_id(), "地猛星");
    assert_eq!(p.chip_id(), "mspm0g3507");
    assert_eq!(p.api_id(), "mspm0g3507_lua");
    assert!(p.has_module("i2c"));
    assert!(!p.has_module("spi"));
    assert!(p.has_global("print"));
    assert!(!p.has_global("write_on"));
}

#[test]
fn member_completions_filter_by_prefix_and_sort_by_label() {
    let p = profile();
    assert_eq!(labels(&p.member_completions("iq", "sin_")), vec![s("sin_deg")]);
    let all = p.member_completions("iq", "");
    assert_eq!(labels(&all), vec![s("cos_deg"), s("sin_deg"), s("sqrt")]);
    assert_eq!(all[0].insert, "cos_deg()");
    assert_eq!(all[0].detail, "firmware API");
    assert!(p.member_completions("nope", "").is_empty());
    assert_eq!(labels(&p.member_completions("iq", "SQ")), vec![s("sqrt")]);
}

#[test]
fn global_completions_offer_functions_and_modules() {
    let p = profile();
    let items = p.global_completions("");
    assert_eq!(
        labels(&items),
        vec![s("adc."), s("delay"), s("i2c."), s("iq."), s("print"), s("uart.")]
    );
    let i2c = items.iter().find(|c| c.label == "i2c.").unwrap();
    assert_eq!(i2c.insert, "i2c.");
    assert_eq!(i2c.detail, "I2C bus");
    let uart = items.iter().find(|c| c.label == "uart.").unwrap();
    assert_eq!(uart.detail, "firmware module");
    assert_eq!(labels(&p.global_completions("I")), vec![s("i2c."), s("iq.")]);
}

#[test]
fn pin_completions_follow_the_selected_bus() {
    let p = profile();
    let scl = labels(&p.resource_completions(Some("i2c"), "write_on", 1, &args(&["1"])));
    assert!(scl.contains(&s("PA15")));
    assert!(scl.contains(&s("PB2")));
    assert!(!scl.contains(&s("PA10")));
    assert!(!scl.contains(&s("PB14")));
    assert!(!scl.contains(&s("PA1")));

    let sda = labels(&p.resource_completions(Some("i2c"), "write_on", 2, &args(&["1", "'PB2'"])));
    assert!(sda.contains(&s("PB3")));
    assert!(!sda.contains(&s("PA0")));

    let any_bus = labels(&p.resource_completions(Some("i2c"), "write_on", 1, &args(&["value"])));
    assert_eq!(any_bus, vec![s("PA1"), s("PA15"), s("PB2")]);

    let detail = p.resource_completions(Some("i2c"), "write_on", 1, &args(&["0"]));
    assert_eq!(detail.len(), 1);
    assert_eq!(detail[0].label, "PA1");
    assert_eq!(detail[0].detail, "I2C0_SCL · I2C0");

    assert!(p.resource_completions(Some("i2c"), "write_on", 3, &args(&["1"])).is_empty());
    assert!(p.resource_completions(Some("i2c"), "nope", 1, &[]).is_empty());
    assert!(p.resource_completions(Some("i2c"), "write_on", 9, &[]).is_empty());
}

#[test]
fn calls_on_a_consistent_route_validate() {
    let p = profile();
    let ok = p.validate_call(Some("i2c"), "write_on", &args(&["1", "'PA15'", "'PA16'", "60", "'x'", "100000"]));
    assert!(ok.is_empty(), "{ok:?}");
    let imu = p.validate_call(Some("i2c"), "write_on", &args(&["1", "'PB2'", "'PB3'", "0x68", "'x'", "100000"]));
    assert!(imu.is_empty(), "{imu:?}");
    let uart2 = p.validate_call(Some("uart"), "open", &args(&["2", "'PA23'", "'PA24'", "115200"]));
    assert!(uart2.is_empty(), "{uart2:?}");
    for pin in ["PA27", "PA26", "PA25", "PA24"] {
        let adc = p.validate_call(Some("adc"), "read", &[format!("'{pin}'")]);
        assert!(adc.is_empty(), "{pin}: {adc:?}");
    }
}

#[test]
fn calls_on_the_wrong_bus_are_reported() {
    let p = profile();
    let wrong = p.validate_call(Some("i2c"), "write_on", &args(&["0", "'PB2'", "'PB3'", "0x68", "'x'", "100000"]));
    assert_eq!(wrong.len(), 2);
    assert_eq!(wrong[0].code, "PIN004");
    assert_eq!(wrong[0].message, "引脚 PB2 与同一调用中的外设或 route 不一致");
    let wrong_uart = p.validate_call(Some("uart"), "open", &args(&["1", "'PA23'", "'PA24'", "115200"]));
    assert!(!wrong_uart.is_empty());
}

#[test]
fn every_call_issue_code() {
    let p = profile();
    let unknown = p.validate_call(Some("i2c"), "nope", &[]);
    assert_eq!(unknown[0].code, "API001");
    assert_eq!(unknown[0].message, "当前固件 API 不包含 i2c.nope");
    let unknown_global = p.validate_call(None, "nope", &[]);
    assert_eq!(unknown_global[0].message, "当前固件 API 不包含 nope");
    let arity = p.validate_call(None, "delay", &args(&["1", "2"]));
    assert_eq!(arity[0].code, "API002");
    assert_eq!(arity[0].message, "delay 的参数数量与任何重载均不匹配");
    let ty = p.validate_call(None, "delay", &args(&["'x'"]));
    assert_eq!(ty[0].message, "参数 ms 应为 integer");
    let no_periph = p.validate_call(Some("i2c"), "write_on", &args(&["7", "x", "y", "1", "d", "1"]));
    assert_eq!(no_periph[0].code, "API002");
    assert_eq!(no_periph[0].message, "外设实例 7 不存在于当前芯片");
    let not_exposed = p.validate_call(Some("adc"), "read", &args(&["'PB6'"]));
    assert_eq!(not_exposed[0].code, "PIN002");
    assert_eq!(not_exposed[0].message, "引脚 PB6 未由当前开发板引出");
    let no_pin = p.validate_call(Some("adc"), "read", &args(&["'PC9'"]));
    assert_eq!(no_pin[0].code, "PIN001");
    let occupied = p.validate_call(Some("i2c"), "write_on", &args(&["1", "'PB14'", "y", "1", "d", "1"]));
    assert_eq!(occupied[0].code, "PIN005");
    assert_eq!(occupied[0].message, "引脚 PB14 已被板载设备 external-flash 占用");
    let no_cap = p.validate_call(Some("adc"), "read", &args(&["'pa10'"]));
    assert_eq!(no_cap[0].code, "PIN003");
    assert_eq!(no_cap[0].message, "引脚 PA10 不支持参数要求的功能");
    assert!(p.validate_call(Some("adc"), "read", &args(&["name"])).is_empty());
}

#[test]
fn inconsistent_files_are_refused() {
    let mut b = board();
    b.chip = s("other");
    assert_eq!(
        build_simple_profile("LKDMX", chip(), b, api()).unwrap_err(),
        "三文件不一致：开发板引用 other，芯片文件声明 mspm0g3507"
    );
    let mut a = api();
    a.id = s("x.lua");
    assert_eq!(
        build_simple_profile("LKDMX", chip(), board(), a).unwrap_err(),
        "三文件不一致：芯片为 mspm0g3507，API 声明 "
    );
    let mut b = board();
    b.pins = SimpleBoardPins::Mapped(vec![(s("D0"), s("PZ9"))]);
    assert_eq!(
        build_simple_profile("LKDMX", chip(), b, api()).unwrap_err(),
        "开发板引出脚 D0 引用了芯片中不存在的引脚 PZ9"
    );
    let mut c = chip();
    c.pins[0].1 = vec![s("GPIO"), s("GPIO")];
    assert_eq!(
        build_simple_profile("LKDMX", c, board(), api()).unwrap_err(),
        "芯片引脚 PA0 包含空值或重复功能 GPIO"
    );
    let mut a = api();
    a.modules[0].functions[0].overloads[0].params[3].ty = s("word");
    assert_eq!(
        build_simple_profile("LKDMX", chip(), board(), a).unwrap_err(),
        "API 函数 write_on 引用了未知类型 word"
    );
    let mut a = api();
    a.modules.push(SimpleModule { name: s("pwm"), description: String::new(), functions: vec![function(
        "start",
        vec![param("out", "pin", Some(pin_res("pwm", None, None)))],
    )] });
    assert_eq!(
        build_simple_profile("LKDMX", chip(), board(), a).unwrap_err(),
        "META001: API start.out 在 Board 上没有可用引出脚"
    );
}

#[test]
fn board_loading_checks_file_names() {
    assert_eq!(
        load_board("../x", board(), chip(), api()).unwrap_err(),
        "开发板文件名 只能包含字母、数字、下划线和连字符: ../x"
    );
    assert!(load_board("LKDMX", board(), chip(), api()).is_ok());
}
