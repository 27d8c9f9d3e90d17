use gpui_ide::tabs::{tab_title_for, title_from_name, window_title, window_title_from, EditorTabs};

fn some(s: &str) -> Option<String> {
    Some(s.to_string())
}

#[test]
fn editor_starts_with_one_untitled_tab() {
    let tabs = EditorTabs::new();
    assert_eq!(tabs.tabs.len(), 1);
    assert_eq!(tabs.active, 0);
    assert_eq!(tabs.tabs[0].title, "未命名.lua");
    assert_eq!(tabs.tabs[0].target_name, "main.luac");
    assert!(tabs.tabs[0].path.is_none());
    assert!(tabs.tabs[0].content.is_empty());
}

#[test]
fn tab_titles_are_file_names() {
    assert_eq!(tab_title_for(&some("project/scripts/blink.lua")), "blink.lua");
    assert_eq!(tab_title_for(&None), "未命名.lua");
    assert_eq!(tab_title_for(&some("/")), "未命名.lua");
    assert_eq!(title_from_name(some("x.lua")), "x.lua");
}

#[test]
fn window_title_shows_file_dirty_mark_and_project() {
    assert_eq!(window_title(&some("work/demo/main.lua"), true, &some("work/demo"), "Demo"), "main.lua * — demo");
    assert_eq!(window_title(&None, false, &None, "Demo"), "未命名.lua");
    assert_eq!(window_title_from(None, false, Some((None, "Demo"))), "未命名.lua — Demo");
}

#[test]
fn opening_a_file_twice_reuses_its_tab() {
    let mut tabs = EditorTabs::new();
    let a = tabs.ensure_tab_for_path(some("p/a.lua"), "print(1)", "a.luac");
    assert_eq!(a, 1);
    assert_eq!(tabs.tabs[1].title, "a.lua");
    assert_eq!(tabs.tabs[1].content, "print(1)");
    let again = tabs.ensure_tab_for_path(some("p/a.lua"), "other", "b.luac");
    assert_eq!(again, 1);
    assert_eq!(tabs.tabs.len(), 2);
    assert_eq!(tabs.tabs[1].content, "print(1)");
    let unnamed = tabs.ensure_tab_for_path(None, "", "main.luac");
    assert_eq!(unnamed, 2);
    assert_eq!(tabs.tabs.len(), 3);
}

#[test]
fn closing_another_tab_keeps_the_shown_one() {
    let mut tabs = EditorTabs::new();
    tabs.set_source(some("p/a.lua"), "a", "a.luac");
    tabs.set_source(some("p/b.lua"), "b", "b.luac");
    assert_eq!(tabs.active, 2);
    assert!(tabs.close_tab_at(0));
    assert_eq!(tabs.active, 1);
    assert_eq!(tabs.tabs[tabs.active].content, "b");
    assert!(tabs.close_tab_at(1));
    assert_eq!(tabs.active, 0);
    assert_eq!(tabs.tabs[0].content, "a");
    assert!(!tabs.close_tab_at(5));
    assert!(tabs.close_tab_at(0));
    assert_eq!(tabs.tabs.len(), 1);
    assert_eq!(tabs.tabs[0].title, "未命名.lua");
    assert!(tabs.tabs[0].path.is_none());
}

#[test]
fn flushing_marks_changed_text_dirty() {
    let mut tabs = EditorTabs::new();
    tabs.set_source(some("p/a.lua"), "x = 1", "a.luac");
    assert!(!tabs.flush_active("x = 1", &some("p/a.lua"), "a.luac"));
    assert!(!tabs.tabs[1].dirty);
    assert!(tabs.flush_active("x = 2", &some("p/a.lua"), "a.luac"));
    assert!(tabs.tabs[1].dirty);
    assert_eq!(tabs.tabs[1].content, "x = 2");
    tabs.mark_clean();
    assert!(!tabs.tabs[1].dirty);
    assert!(tabs.switches_file(&some("p/b.lua")));
    assert!(!tabs.switches_file(&some("p/a.lua")));
    assert!(tabs.activate(0));
    assert!(!tabs.activate(9));
    assert_eq!(tabs.active, 0);
}

#[test]
fn plain_file_names_are_the_titles() {
    assert_eq!(tab_title_for(&some("main.lua")), "main.lua");
    assert_eq!(tab_title_for(&some("/home/me/proj/a b.lua")), "a b.lua");
    assert_eq!(window_title(&some("main.lua"), false, &some("/work/proj"), "Proj"), "main.lua — proj");
    assert_eq!(window_title(&some("x/y.lua"), false, &some("/"), "Proj"), "y.lua — Proj");
}
