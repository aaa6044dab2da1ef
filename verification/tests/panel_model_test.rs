use process_tab_manager::panel::{
    accent_color, active_window_from, build_menu_entries, color_channels, drag_to, execute_menu_action,
    item_label, menu_entry_at, menu_origin, menu_size, snap_beside, window_desktop_from, workarea_or_default,
    App, DisplayRow, DisplaySlot, DragState, Item, MenuAction, ITEM_H, MENU_MIN_W,
};

fn item(wid: u32) -> Item {
    Item { wid, label: format!("w{}", wid), wm_class: "test".to_string(), accent_pixel: 0 }
}

fn app_with(wids: &[u32]) -> App {
    let mut app = App::new(999);
    for &w in wids {
        app.items.push(item(w));
        app.display_order.push(DisplaySlot::Window(w));
    }
    app.build_display_rows();
    app
}

fn order(app: &App) -> Vec<DisplaySlot> {
    app.display_order.clone()
}

#[test]
fn new_group_is_named_after_its_number() {
    let mut app = app_with(&[1, 2]);
    app.create_group(1);
    app.create_group(2);
    assert_eq!(app.groups[0].name, "Group 1");
    assert_eq!(app.groups[1].name, "Group 2");
    app.next_group_id = 41;
    app.create_group(1);
    assert_eq!(app.groups[2].name, "Group 42");
}

#[test]
fn rename_cycles_back_to_first_preset() {
    let mut app = app_with(&[1]);
    app.create_group(1);
    let mut names = Vec::new();
    for _ in 0..7 {
        app.rename_group(0);
        names.push(app.groups[0].name.clone());
    }
    assert_eq!(names, vec!["Alpha", "Beta", "Gamma", "Delta", "Epsilon", "Zeta", "Alpha"]);
}

#[test]
fn delete_undoes_create() {
    let mut app = app_with(&[1, 2, 3]);
    let before = order(&app);
    app.create_group(2);
    app.delete_group(0);
    assert_eq!(order(&app), before);
    assert!(app.groups.is_empty());
}

#[test]
fn toggle_twice_restores_rows() {
    let mut app = app_with(&[1, 2]);
    app.create_group(1);
    let rows = app.display_rows.len();
    app.toggle_collapse(0);
    assert_eq!(app.display_rows.len(), rows - 1);
    app.toggle_collapse(0);
    assert_eq!(app.display_rows.len(), rows);
}

#[test]
fn drop_header_moves_group_slot() {
    let mut app = app_with(&[1, 2, 3]);
    app.create_group(1);
    // rows: [Header(0), Window(1,g0), Window(2), Window(3)]
    let y = app.row_y(3) + ITEM_H as i16 / 2 + 1; // below the middle of the last row
    app.handle_drop(0, y);
    assert_eq!(order(&app), vec![DisplaySlot::Window(2), DisplaySlot::Window(3), DisplaySlot::Group(0)]);
}

#[test]
fn drop_within_group_reorders_members() {
    let mut app = app_with(&[1, 2, 3]);
    app.create_group(1);
    app.add_to_group(0, 2);
    app.add_to_group(0, 3);
    // rows: [Header(0), Window(1), Window(2), Window(3)], all in group 0
    let y = app.row_y(3) + ITEM_H as i16 / 2 + 1; // gap 4, after the last member
    app.handle_drop(1, y);
    assert_eq!(app.groups[0].member_wids, vec![2, 3, 1]);
}

#[test]
fn drop_on_own_header_does_nothing() {
    let mut app = app_with(&[1, 2]);
    app.create_group(1);
    app.add_to_group(0, 2);
    let before_members = app.groups[0].member_wids.clone();
    let y = app.row_y(0) + 3;
    app.handle_drop(2, y);
    assert_eq!(app.groups[0].member_wids, before_members);
}

#[test]
fn drop_from_missing_row_does_nothing() {
    let mut app = app_with(&[1]);
    app.handle_drop(5, 10);
    assert_eq!(order(&app), vec![DisplaySlot::Window(1)]);
}

#[test]
fn menu_actions_apply_to_matching_rows_only() {
    let mut app = app_with(&[1, 2]);
    execute_menu_action(&mut app, MenuAction::CreateGroup, 0);
    assert_eq!(app.groups.len(), 1);
    // Renaming a window row does nothing.
    execute_menu_action(&mut app, MenuAction::RenameGroup, 2);
    assert_eq!(app.groups[0].name, "Group 1");
    execute_menu_action(&mut app, MenuAction::RenameGroup, 0);
    assert_eq!(app.groups[0].name, "Alpha");
    execute_menu_action(&mut app, MenuAction::AddToGroup(0), 2);
    assert_eq!(app.groups[0].member_wids, vec![1, 2]);
    execute_menu_action(&mut app, MenuAction::RemoveFromGroup, 1);
    assert_eq!(app.groups[0].member_wids, vec![2]);
    execute_menu_action(&mut app, MenuAction::DeleteGroup, 0);
    assert!(app.groups.is_empty());
    // Out-of-range rows are ignored.
    execute_menu_action(&mut app, MenuAction::CreateGroup, 99);
    assert!(app.groups.is_empty());
}

#[test]
fn menu_for_missing_row_is_empty() {
    let app = app_with(&[1]);
    assert!(build_menu_entries(&app, 3).is_empty());
}

#[test]
fn menu_lists_add_entries_per_group() {
    let mut app = app_with(&[1, 2, 3]);
    app.create_group(1);
    app.create_group(2);
    let rows = app.display_rows.clone();
    let last = rows.iter().position(|r| matches!(r, DisplayRow::Window { wid: 3, group_id: None })).unwrap();
    let entries = build_menu_entries(&app, last);
    let labels: Vec<&str> = entries.iter().map(|e| e.label.as_str()).collect();
    assert_eq!(labels, vec!["New Group", "Add to Group 1", "Add to Group 2"]);
    assert!(matches!(entries[2].action, MenuAction::AddToGroup(1)));
}

#[test]
fn refresh_prunes_dead_windows_and_appends_new_ones() {
    let mut app = app_with(&[1, 2, 3]);
    app.create_group(2);
    app.add_to_group(0, 3);
    // Window 3 closed, window 4 opened.
    app.apply_window_list(vec![item(1), item(2), item(4)], &vec![4, 1, 2], Some(4));
    assert_eq!(app.groups[0].member_wids, vec![2]);
    assert_eq!(order(&app), vec![DisplaySlot::Window(1), DisplaySlot::Group(0), DisplaySlot::Window(4)]);
    assert_eq!(app.active_wid, Some(4));
    assert_eq!(app.items.len(), 3);
    assert_eq!(app.display_rows.len(), 4);
}

#[test]
fn labels_cut_long_titles_and_fall_back_to_class() {
    assert_eq!(item_label("short", "cls"), "short");
    assert_eq!(item_label("", "cls"), "cls");
    let long = "abcdefghijklmnopqrstuvwxyz0123456789";
    assert_eq!(item_label(long, "cls"), "abcdefghijklmnopqrstuvwxyz0...");
    let exactly = "abcdefghijklmnopqrstuvwxyz0123";
    assert_eq!(item_label(exactly, "cls"), exactly);
}

#[test]
fn menu_hit_testing() {
    let (w, h) = menu_size(3);
    assert_eq!((w, h), (MENU_MIN_W, 3 * 24 + 8));
    assert_eq!(menu_entry_at(w, h, 3, 10, 4), Some(0));
    assert_eq!(menu_entry_at(w, h, 3, 10, 27), Some(0));
    assert_eq!(menu_entry_at(w, h, 3, 10, 28), Some(1));
    assert_eq!(menu_entry_at(w, h, 3, 10, 79), None);
    assert_eq!(menu_entry_at(w, h, 3, 10, 2), None);
    assert_eq!(menu_entry_at(w, h, 3, -1, 10), None);
    assert_eq!(menu_entry_at(w, h, 3, 500, 10), None);
}

#[test]
fn menu_stays_on_screen() {
    assert_eq!(menu_origin(100, 100, 1920, 1080, 180, 80), (100, 100));
    assert_eq!(menu_origin(1900, 1070, 1920, 1080, 180, 80), (1740, 1000));
}

#[test]
fn drag_starts_past_threshold() {
    let d = DragState { source_row: 0, start_y: 100, current_y: 100, started: false };
    let d1 = drag_to(d, 105);
    assert!(!d1.started);
    assert_eq!(d1.current_y, 105);
    let d2 = drag_to(d1, 94);
    assert!(d2.started);
    let d3 = drag_to(d2, 100);
    assert!(d3.started);
}

#[test]
fn release_click_on_window_activates_it() {
    let mut app = app_with(&[1, 2]);
    app.drag = Some(DragState { source_row: 1, start_y: 50, current_y: 50, started: false });
    assert_eq!(app.release(), Some(2));
    assert_eq!(app.active_wid, Some(2));
    assert!(app.drag.is_none());
}

#[test]
fn release_click_on_header_toggles_group() {
    let mut app = app_with(&[1]);
    app.create_group(1);
    app.drag = Some(DragState { source_row: 0, start_y: 10, current_y: 10, started: false });
    assert_eq!(app.release(), None);
    assert!(app.groups[0].collapsed);
}

#[test]
fn colors_and_accents() {
    assert_eq!(color_channels(0x61afef), (0x61 * 257, 0xaf * 257, 0xef * 257));
    assert_eq!(color_channels(0xffffffff), (0xffff, 0xffff, 0xffff));
    assert_eq!(accent_color(0), 0xe06c75);
    assert_eq!(accent_color(7), 0x98c379);
}

#[test]
fn snap_beside_aligns_frames_and_clamps() {
    assert_eq!(snap_beside((5, 30, 250), (5, 5, 30, 5), (5, 5, 30, 5), (0, 0, 1920)), (265, 30));
    assert_eq!(snap_beside((1800, 30, 250), (5, 5, 30, 5), (5, 5, 30, 5), (0, 0, 1920)), (1920, 30));
    assert_eq!(snap_beside((0, 0, 250), (0, 0, 0, 0), (5, 5, 30, 5), (0, 40, 1920)), (255, 70));
}

#[test]
fn property_readers() {
    assert_eq!(active_window_from(&[0, 0, 0, 0]), None);
    assert_eq!(active_window_from(&[1, 0, 0, 0]), Some(1));
    assert_eq!(active_window_from(&[1]), None);
    assert_eq!(window_desktop_from(&[0xff, 0xff, 0xff, 0xff]), None);
    assert_eq!(window_desktop_from(&[2, 0, 0, 0]), Some(2));
    assert_eq!(workarea_or_default(&[], 0), (0, 0, 1920, 1080));
    let wa: Vec<u8> = [0u32, 40, 1920, 1040].iter().flat_map(|w| w.to_le_bytes()).collect();
    assert_eq!(workarea_or_default(&wa, 0), (0, 40, 1920, 1040));
}

#[test]
fn drop_off_group_keeps_every_window_placed() {
    let mut app = app_with(&[1, 2, 3]);
    app.create_group(1);
    app.add_to_group(0, 2);
    // rows: [Header(0), Window(1,g0), Window(2,g0), Window(3)]
    let y = app.row_y(3) + ITEM_H as i16 / 2 + 1; // after the last row
    app.handle_drop(1, y);
    let mut placed: Vec<u32> = Vec::new();
    for s in &app.display_order {
        if let DisplaySlot::Window(w) = s {
            placed.push(*w);
        }
    }
    for g in &app.groups {
        placed.extend(g.member_wids.iter().copied());
    }
    placed.sort();
    assert_eq!(placed, vec![1, 2, 3]);
    assert!(app.display_order.contains(&DisplaySlot::Group(0)));
    assert_eq!(app.display_rows.len(), 4);
}
