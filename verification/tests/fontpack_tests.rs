use gpui_ide::fontpack::{
    analyze_and_pack, analyze_and_pack_f16, analyze_oled_fonts, build_oled_font_module, check_font_file,
    lex, lua_binary_literal, lua_string_literal, OledFontPlan, Token,
};

fn glyphs(plan: &OledFontPlan, size: u8) -> &Vec<u32> {
    &plan.glyphs.iter().find(|g| g.size == size).unwrap().codes
}

fn text_codes<'a>(plan: &'a OledFontPlan, size: u8, text: &str) -> &'a Vec<u32> {
    let texts = &plan.texts.iter().find(|t| t.size == size).unwrap().texts;
    &texts.iter().find(|t| t.text == text).unwrap().codes
}

#[test]
fn extracts_literals_per_size_and_always_adds_numeric_glyphs() {
    let source = r#"
local display = require("oled")
display.text(0, 0, "温度", 16)
display.number(0, 16, value, 1, 8)
"#;
    let plan = analyze_oled_fonts(source).unwrap();
    assert!(plan.uses_oled);
    assert!(glyphs(&plan, 16).contains(&('温' as u32)));
    assert!(glyphs(&plan, 16).contains(&('9' as u32)));
    assert!(glyphs(&plan, 8).contains(&('.' as u32)));
    assert!(!glyphs(&plan, 8).contains(&('温' as u32)));
    assert_eq!(text_codes(&plan, 16, "温度"), &vec!['温' as u32, '度' as u32]);
}

#[test]
fn ignores_comments_and_plain_string_mentions() {
    let plan = analyze_oled_fonts("-- oled.text(0,0,'假',16)\nlocal s = \"oled.text(0,0,'x',8)\"").unwrap();
    assert!(!plan.uses_oled);
    assert!(plan.glyphs.is_empty());
}

#[test]
fn rejects_dynamic_or_unsupported_sizes() {
    assert!(analyze_oled_fonts("oled.text(0, 0, 'x', size)").is_err());
    assert!(analyze_oled_fonts("oled.text(0, 0, 'x', 12)").is_err());
    assert!(analyze_oled_fonts("oled.text(0, 0, value, 8)").is_err());
}

#[test]
fn packs_only_static_fill_values() {
    let plan = analyze_oled_fonts("local d=require('oled'); d.clear(); d.fill(0xaa); d.fill(17)").unwrap();
    assert_eq!(plan.fill_bytes, vec![0, 17, 0xaa]);
    assert!(analyze_oled_fonts("oled.fill(value)").is_err());
    assert!(analyze_oled_fonts("oled.fill(256)").is_err());
}

#[test]
fn missing_selected_font_is_a_hard_error() {
    let builder = build_oled_font_module("oled.text(0,0,'A',8)").unwrap().unwrap();
    assert!(builder.glyph_count() > 0);
    let error = check_font_file("Z:/missing/chinese.ttf", "中文", false, "ttf").unwrap_err();
    assert!(error.contains("字体不存在"));
}

#[test]
fn font_file_must_be_truetype_or_opentype() {
    assert_eq!(
        check_font_file("C:/f/a.woff", "英文", true, "woff").unwrap_err(),
        "英文字体格式不支持: C:/f/a.woff"
    );
    assert!(check_font_file("C:/f/a.TTF", "英文", true, "TTF").is_ok());
}

#[test]
fn glyph_lists_are_sorted_without_repeats() {
    let plan = analyze_oled_fonts("oled.text(0,0,'baab',8)").unwrap();
    let g = glyphs(&plan, 8);
    assert!(g.windows(2).all(|w| w[0] < w[1]));
    assert!(g.contains(&('a' as u32)) && g.contains(&('b' as u32)));
    assert_eq!(g.len(), 13 + 2);
}

#[test]
fn module_builder_collects_rasters_and_writes_the_module() {
    let mut b = build_oled_font_module("oled.text(0,0,'A',8)").unwrap().unwrap();
    let n = b.glyph_count();
    assert_eq!(n, 14);
    let mut k = 0;
    while let Some((size, code)) = b.next_job() {
        assert_eq!(size, 8);
        let raster = vec![code as u8; 8];
        b.accept(raster).unwrap();
        k += 1;
    }
    assert_eq!(k, n);
    let (message, module) = b.finish();
    assert!(message.contains("8px:14字"));
    assert!(message.contains("位图 112 B"));
    assert!(module.starts_with("return {\n"));
    assert!(module.contains("[65] = \"\\x41"));
    assert!(module.contains("[\"A\"] = {65,}"));
}

#[test]
fn no_oled_use_needs_no_module() {
    assert!(build_oled_font_module("print(1)").unwrap().is_none());
    assert_eq!(analyze_and_pack_f16("print(1)").unwrap().0, "未使用 OLED");
    assert!(analyze_and_pack_f16("oled.text(0,0,'A',8)").is_err());
    let (fills, pack) = analyze_and_pack("oled.fill(1)");
    assert!(fills.is_empty() && pack.is_empty());
}

#[test]
fn lua_literals_escape_text_and_bytes() {
    assert_eq!(lua_string_literal("a\"b\\c\n\t\u{1}"), "\"a\\\"b\\\\c\\n\\t\\x01\"");
    assert_eq!(lua_binary_literal(&[0, 0xab]), "\"\\x00\\xab\"");
}

#[test]
fn characters_outside_strings_are_symbols_per_byte() {
    let source: Vec<char> = "x = é".chars().collect();
    let tokens = lex(&source).unwrap();
    assert_eq!(tokens.len(), 4);
    assert!(matches!(&tokens[1], Token::Symbol('=')));
    assert!(matches!(&tokens[2], Token::Symbol('\u{c3}')));
    assert!(matches!(&tokens[3], Token::Symbol('\u{a9}')));
}

#[test]
fn lexing_a_string_literal_gives_back_the_text() {
    let text = "温度 \"25\"\\\n\tok";
    let literal: Vec<char> = lua_string_literal(text).chars().collect();
    let tokens = lex(&literal).unwrap();
    assert_eq!(tokens.len(), 1);
    match &tokens[0] {
        Token::Str(v) => assert_eq!(v.iter().collect::<String>(), text),
        _ => panic!("not a string token"),
    }
}
