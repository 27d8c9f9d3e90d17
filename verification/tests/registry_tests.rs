use gpui_ide::registry::{choose_registry_entry, validate_api_bytes, validate_document, RegistryEntry};

fn entry(root: usize, kind: &str, id: &str, version: &str) -> RegistryEntry {
    RegistryEntry { root, kind: kind.to_string(), id: id.to_string(), version: version.to_string() }
}

#[test]
fn registry_prefers_the_first_root_then_the_highest_version() {
    let entries = vec![
        entry(1, "board", "LKDMX", "1.4.0"),
        entry(0, "board", "LKDMX", "1.1.0"),
        entry(0, "board", "LKDMX", "1.2.0"),
        entry(0, "board", "OTHER", "9.0.0"),
        entry(0, "chip", "LKDMX", "5.0.0"),
        entry(0, "board", "LKDMX", "not-a-version"),
    ];
    assert_eq!(choose_registry_entry(&entries, "board", "LKDMX", ">=1.0.0", "r0, r1"), Ok(2));
    assert_eq!(choose_registry_entry(&entries, "board", "LKDMX", "=1.4.0", "r0, r1"), Ok(0));
    assert_eq!(choose_registry_entry(&entries, "board", "LKDMX", ">=1.0.0 <1.2.0", "r0, r1"), Ok(1));
}

#[test]
fn registry_refusals() {
    let entries = vec![entry(0, "api", "lua", "2.0.0"), entry(0, "api", "lua", "2.0.0"), entry(1, "api", "lua", "3.0.0")];
    assert_eq!(
        choose_registry_entry(&entries, "api", "lua", "^2", "r"),
        Err("META001: api lua 2.0.0 存在重复注册".to_string())
    );
    assert_eq!(
        choose_registry_entry(&entries, "api", "lua", "=4.0.0", "a, b"),
        Err("META001: 在 metadata registry 中找不到 api lua (=4.0.0)；搜索路径: a, b".to_string())
    );
    assert_eq!(choose_registry_entry(&entries, "api", "lua", "~~1", "r"), Err("无效版本约束 ~~1".to_string()));
}

const SCHEMA: &str = r#"{"type":"object","required":["id"],"properties":{"id":{"type":"string"}}}"#;

#[test]
fn documents_are_checked_against_their_schema() {
    assert_eq!(validate_document("\u{feff}{\"id\":\"x\"}", "Board", "b.json", SCHEMA), Ok("{\"id\":\"x\"}".to_string()));
    assert_eq!(validate_document("{", "Board", "b.json", SCHEMA), Err("解析 Board b.json".to_string()));
    assert_eq!(validate_document("{}", "Board", "b.json", "{"), Err("内置元数据 Schema 无效".to_string()));
    let refused = validate_document("{\"id\":3}", "Board", "b.json", SCHEMA).unwrap_err();
    assert!(refused.starts_with("Board Schema 校验失败 b.json: "));
    assert!(refused.contains("/id"));
}

#[test]
fn api_bytes_must_be_utf8() {
    assert_eq!(validate_api_bytes(&[0xff, 0xfe], "mem", SCHEMA), Err("API mem 不是 UTF-8".to_string()));
    assert_eq!(validate_api_bytes(b"{\"id\":\"a\"}", "mem", SCHEMA), Ok("{\"id\":\"a\"}".to_string()));
}
