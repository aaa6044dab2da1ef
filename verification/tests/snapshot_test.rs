use process_tab_manager::state::{AppState, ItemKind, SavedDisplaySlot, SavedGroup, SavedState, WindowEntry};
use process_tab_manager::filter::Filter;
use std::collections::HashMap;

fn entry(id: u32, class: &str, instance: &str) -> WindowEntry {
    WindowEntry {
        id,
        wm_class: class.to_string(),
        wm_instance: instance.to_string(),
        title: format!("w{}", id),
        desktop: Some(0),
        pid: None,
        is_minimized: false,
        is_urgent: false,
    }
}

fn ids(state: &AppState) -> Vec<u32> {
    state.windows().iter().map(|w| w.id).collect()
}

#[test]
fn snapshot_records_keys_ids_groups_and_slots() {
    let mut state = AppState::new();
    state.update_windows(vec![entry(1, "XTerm", "xterm"), entry(2, "kitty", "kitty")]);
    state.rename_window(2, "notes");
    let gid = state.create_group_with_window("Work", 1);
    let saved = state.to_saved();
    assert_eq!(saved.window_order, vec!["XTerm:xterm".to_string(), "kitty:kitty".to_string()]);
    assert_eq!(saved.window_ids, vec![1, 2]);
    assert_eq!(saved.renames.get(&2), Some(&"notes".to_string()));
    assert_eq!(saved.window_x, None);
    assert_eq!(saved.window_y, None);
    assert_eq!(saved.groups.len(), 1);
    assert_eq!(saved.groups[0].id, gid);
    assert_eq!(saved.groups[0].members, vec!["XTerm:xterm".to_string()]);
    assert!(matches!(saved.display_order[0], SavedDisplaySlot::Group(g) if g == gid));
    assert!(matches!(&saved.display_order[1], SavedDisplaySlot::Window(k) if k == "kitty:kitty"));
    assert_eq!(saved.next_group_id, gid + 1);
}

#[test]
fn snapshot_of_unknown_slot_window_is_empty_key() {
    let mut state = AppState::new();
    state.update_windows(vec![entry(1, "XTerm", "xterm")]);
    let gid = state.create_group_with_window("G", 1);
    // Group members for windows that vanished are skipped; the group stays.
    state.update_windows(vec![]);
    let saved = state.to_saved();
    assert!(saved.window_order.is_empty());
    assert_eq!(saved.groups.len(), 1);
    assert_eq!(saved.groups[0].id, gid);
    assert!(saved.groups[0].members.is_empty());
}

#[test]
fn restore_keeps_order_of_own_snapshot_with_duplicate_keys() {
    let mut state = AppState::new();
    state.update_windows(vec![entry(1, "XTerm", "xterm"), entry(2, "XTerm", "xterm"), entry(3, "kitty", "kitty")]);
    state.reorder(2, 0);
    let saved = state.to_saved();
    state.restore_from(&saved);
    assert_eq!(ids(&state), vec![3, 1, 2]);
}

#[test]
fn restore_puts_unmatched_windows_last_in_current_order() {
    let saved = SavedState {
        window_order: vec!["kitty:kitty".to_string(), "XTerm:xterm".to_string()],
        window_ids: vec![7, 8],
        renames: HashMap::new(),
        window_x: None,
        window_y: None,
        groups: vec![],
        display_order: vec![],
        next_group_id: 0,
    };
    let mut state = AppState::new();
    state.update_windows(vec![entry(10, "Firefox", "firefox"), entry(11, "XTerm", "xterm"), entry(12, "Slack", "slack"), entry(13, "kitty", "kitty")]);
    state.restore_from(&saved);
    assert_eq!(ids(&state), vec![13, 11, 10, 12]);
}

#[test]
fn restore_maps_renames_through_saved_positions() {
    let mut renames = HashMap::new();
    renames.insert(7u32, "editor".to_string());
    renames.insert(8u32, "logs".to_string());
    renames.insert(99u32, "gone".to_string());
    let saved = SavedState {
        window_order: vec!["XTerm:xterm".to_string(), "XTerm:xterm".to_string()],
        window_ids: vec![7, 8],
        renames,
        window_x: None,
        window_y: None,
        groups: vec![],
        display_order: vec![],
        next_group_id: 5,
    };
    let mut state = AppState::new();
    state.update_windows(vec![entry(20, "XTerm", "xterm"), entry(21, "XTerm", "xterm"), entry(22, "XTerm", "xterm")]);
    state.restore_from(&saved);
    assert_eq!(state.display_name(20), "editor");
    assert_eq!(state.display_name(21), "logs");
    assert!(!state.has_rename(22));
    assert_eq!(state.display_name(22), "w22");
}

#[test]
fn restore_rebuilds_groups_and_display_order() {
    let saved = SavedState {
        window_order: vec!["a:a".to_string(), "b:b".to_string(), "c:c".to_string()],
        window_ids: vec![1, 2, 3],
        renames: HashMap::new(),
        window_x: Some(10),
        window_y: Some(20),
        groups: vec![SavedGroup { id: 4, name: "G".to_string(), collapsed: true, members: vec!["b:b".to_string(), "zzz:zzz".to_string()] }],
        display_order: vec![
            SavedDisplaySlot::Window("c:c".to_string()),
            SavedDisplaySlot::Group(4),
            SavedDisplaySlot::Group(9),
            SavedDisplaySlot::Window("b:b".to_string()),
            SavedDisplaySlot::Window("a:a".to_string()),
        ],
        next_group_id: 0,
    };
    let mut state = AppState::new();
    state.update_windows(vec![entry(30, "c", "c"), entry(31, "a", "a"), entry(32, "b", "b")]);
    state.restore_from(&saved);
    assert_eq!(ids(&state), vec![31, 32, 30]);
    let g = state.group(4).unwrap();
    assert_eq!(g.name, "G");
    assert!(g.collapsed);
    assert_eq!(g.members, vec![32]);
    let filter = Filter::new(vec!["a".to_string(), "b".to_string(), "c".to_string()]);
    let items = state.display_items(&filter);
    // c, then the collapsed group, then a (b is grouped and has no slot of its own)
    assert_eq!(items, vec![ItemKind::UngroupedWindow(30), ItemKind::GroupHeader(4), ItemKind::UngroupedWindow(31)]);
    // A group created now gets id 1: the counter never goes below one.
    assert_eq!(state.create_group("New"), 1);
}

#[test]
fn restore_from_empty_snapshot_keeps_windows_and_drops_renames() {
    let mut state = AppState::new();
    state.update_windows(vec![entry(1, "XTerm", "xterm"), entry(2, "kitty", "kitty")]);
    state.rename_window(1, "mine");
    let saved = SavedState {
        window_order: vec![],
        window_ids: vec![],
        renames: HashMap::new(),
        window_x: None,
        window_y: None,
        groups: vec![],
        display_order: vec![],
        next_group_id: 3,
    };
    state.restore_from(&saved);
    assert_eq!(ids(&state), vec![1, 2]);
    assert!(!state.has_rename(1));
}
