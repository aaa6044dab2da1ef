use process_tab_manager::filter::Filter;
use process_tab_manager::sidebar::{build_sidebar_items, item_class, sidebar_item, ClassIcon, SidebarItem};
use process_tab_manager::state::{AppState, ItemKind, WindowEntry};

fn entry(id: u32, class: &str, title: &str, minimized: bool) -> WindowEntry {
    WindowEntry {
        id,
        wm_class: class.to_string(),
        wm_instance: class.to_lowercase(),
        title: title.to_string(),
        desktop: Some(0),
        pid: None,
        is_minimized: minimized,
        is_urgent: false,
    }
}

#[test]
fn sidebar_items_follow_display_items() {
    let mut state = AppState::new();
    state.update_windows(vec![entry(1, "XTerm", "t1", false), entry(2, "XTerm", "t2", true), entry(3, "XTerm", "t3", false)]);
    let gid = state.create_group_with_window("Work", 2);
    state.rename_window(3, "logs");
    state.set_active(Some(1));
    let filter = Filter::new(vec!["XTerm".to_string()]);
    let items = build_sidebar_items(&state, &filter, &Vec::new());
    assert_eq!(items.len(), 4);
    match &items[0] {
        SidebarItem::Window { wid, title, wm_class, icon_path, is_active, is_minimized, is_renamed, .. } => {
            assert_eq!(*wid, 1);
            assert_eq!(title, "t1");
            assert_eq!(wm_class, "XTerm");
            assert!(icon_path.is_none());
            assert!(*is_active);
            assert!(!*is_minimized);
            assert!(!*is_renamed);
        }
        _ => panic!("expected a window row"),
    }
    match &items[1] {
        SidebarItem::GroupHeader { gid: g, name, collapsed, member_count } => {
            assert_eq!(*g, gid);
            assert_eq!(name, "Work");
            assert!(!*collapsed);
            assert_eq!(*member_count, 1);
        }
        _ => panic!("expected a group header"),
    }
    match &items[2] {
        SidebarItem::GroupedWindow { wid, gid: g, is_minimized, is_active, .. } => {
            assert_eq!(*wid, 2);
            assert_eq!(*g, gid);
            assert!(*is_minimized);
            assert!(!*is_active);
        }
        _ => panic!("expected a grouped window"),
    }
    match &items[3] {
        SidebarItem::Window { title, is_renamed, .. } => {
            assert_eq!(title, "logs");
            assert!(*is_renamed);
        }
        _ => panic!("expected a window row"),
    }
}

#[test]
fn header_of_unknown_group_shows_default_name() {
    let state = AppState::new();
    match sidebar_item(&state, ItemKind::GroupHeader(42), None) {
        SidebarItem::GroupHeader { gid, name, collapsed, member_count } => {
            assert_eq!(gid, 42);
            assert_eq!(name, "Group");
            assert!(!collapsed);
            assert_eq!(member_count, 0);
        }
        _ => panic!("expected a group header"),
    }
}

#[test]
fn icon_path_is_passed_through() {
    let mut state = AppState::new();
    state.update_windows(vec![entry(1, "kitty", "k", false)]);
    assert_eq!(item_class(&state, ItemKind::UngroupedWindow(1)), "kitty");
    assert_eq!(item_class(&state, ItemKind::GroupHeader(1)), "");
    match sidebar_item(&state, ItemKind::UngroupedWindow(1), Some("/i/kitty.png".to_string())) {
        SidebarItem::Window { icon_path, .. } => assert_eq!(icon_path.as_deref(), Some("/i/kitty.png")),
        _ => panic!("expected a window row"),
    }
}

#[test]
fn unknown_window_row_is_blank() {
    let state = AppState::new();
    match sidebar_item(&state, ItemKind::UngroupedWindow(5), None) {
        SidebarItem::Window { title, wm_class, is_minimized, is_urgent, .. } => {
            assert_eq!(title, "");
            assert_eq!(wm_class, "");
            assert!(!is_minimized);
            assert!(!is_urgent);
        }
        _ => panic!("expected a window row"),
    }
}

#[test]
fn sidebar_items_carry_resolved_icons() {
    let mut state = AppState::new();
    state.update_windows(vec![entry(1, "XTerm", "t1", false), entry(2, "Firefox", "web", false)]);
    let filter = Filter::new(vec!["XTerm".to_string(), "Firefox".to_string()]);
    let icons = vec![
        ClassIcon { wm_class: "XTerm".to_string(), icon_path: Some("/usr/share/pixmaps/xterm.png".to_string()) },
        ClassIcon { wm_class: "Firefox".to_string(), icon_path: None },
    ];
    let items = build_sidebar_items(&state, &filter, &icons);
    assert_eq!(items.len(), 2);
    match &items[0] {
        SidebarItem::Window { icon_path, .. } => assert_eq!(icon_path.as_deref(), Some("/usr/share/pixmaps/xterm.png")),
        _ => panic!("expected a window row"),
    }
    match &items[1] {
        SidebarItem::Window { icon_path, .. } => assert!(icon_path.is_none()),
        _ => panic!("expected a window row"),
    }
}
