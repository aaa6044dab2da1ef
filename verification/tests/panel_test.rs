use process_tab_manager::panel::{
    build_menu_entries, App, DisplayRow, DisplaySlot, Item, MenuAction, ITEM_H, ITEM_SPACING,
    ITEM_Y_START,
};

fn make_app() -> App {
    App::new(999) // dummy wid for our sidebar window
}

fn add_item(app: &mut App, wid: u32, label: &str) {
    app.items.push(Item {
        wid,
        label: label.to_string(),
        wm_class: "test".to_string(),
        accent_pixel: 0,
    });
    app.display_order.push(DisplaySlot::Window(wid));
}

// ── build_display_rows ──

#[test]
fn empty_state_produces_no_rows() {
    let mut app = make_app();
    app.build_display_rows();
    assert_eq!(app.display_rows.len(), 0);
}

#[test]
fn ungrouped_windows_produce_flat_rows() {
    let mut app = make_app();
    add_item(&mut app, 1, "A");
    add_item(&mut app, 2, "B");
    add_item(&mut app, 3, "C");
    app.build_display_rows();

    assert_eq!(app.display_rows.len(), 3);
    assert!(matches!(app.display_rows[0], DisplayRow::Window { wid: 1, group_id: None }));
    assert!(matches!(app.display_rows[1], DisplayRow::Window { wid: 2, group_id: None }));
    assert!(matches!(app.display_rows[2], DisplayRow::Window { wid: 3, group_id: None }));
}

#[test]
fn group_produces_header_plus_members() {
    let mut app = make_app();
    add_item(&mut app, 1, "A");
    add_item(&mut app, 2, "B");
    app.create_group(1); // group containing window 1

    assert!(matches!(app.display_rows[0], DisplayRow::GroupHeader { group_id: 0 }));
    assert!(matches!(app.display_rows[1], DisplayRow::Window { wid: 1, group_id: Some(0) }));
    assert!(matches!(app.display_rows[2], DisplayRow::Window { wid: 2, group_id: None }));
}

#[test]
fn collapsed_group_hides_members() {
    let mut app = make_app();
    add_item(&mut app, 1, "A");
    add_item(&mut app, 2, "B");
    app.create_group(1);
    app.toggle_collapse(0);

    assert_eq!(app.display_rows.len(), 2); // header + window B
    assert!(matches!(app.display_rows[0], DisplayRow::GroupHeader { group_id: 0 }));
    assert!(matches!(app.display_rows[1], DisplayRow::Window { wid: 2, group_id: None }));
}

#[test]
fn expand_collapsed_group_shows_members() {
    let mut app = make_app();
    add_item(&mut app, 1, "A");
    app.create_group(1);
    app.toggle_collapse(0); // collapse
    assert_eq!(app.display_rows.len(), 1);
    app.toggle_collapse(0); // expand
    assert_eq!(app.display_rows.len(), 2);
    assert!(matches!(app.display_rows[1], DisplayRow::Window { wid: 1, group_id: Some(0) }));
}

// ── Hit testing ──

#[test]
fn row_y_is_sequential() {
    let app = make_app();
    let y0 = app.row_y(0);
    let y1 = app.row_y(1);
    assert_eq!(y0, ITEM_Y_START);
    assert_eq!(y1, ITEM_Y_START + ITEM_H as i16 + ITEM_SPACING);
}

#[test]
fn hit_test_returns_correct_row() {
    let mut app = make_app();
    add_item(&mut app, 1, "A");
    add_item(&mut app, 2, "B");
    app.build_display_rows();

    let mid_row0 = app.row_y(0) + ITEM_H as i16 / 2;
    assert_eq!(app.hit_test_row(mid_row0), Some(0));

    let mid_row1 = app.row_y(1) + ITEM_H as i16 / 2;
    assert_eq!(app.hit_test_row(mid_row1), Some(1));
}

#[test]
fn hit_test_returns_none_in_gap() {
    let mut app = make_app();
    add_item(&mut app, 1, "A");
    app.build_display_rows();

    // Below all items
    let below = app.row_y(0) + ITEM_H as i16 + 100;
    assert_eq!(app.hit_test_row(below), None);
    // Above all items
    assert_eq!(app.hit_test_row(0), None);
}

#[test]
fn drop_index_at_top_is_zero() {
    let mut app = make_app();
    add_item(&mut app, 1, "A");
    add_item(&mut app, 2, "B");
    app.build_display_rows();

    assert_eq!(app.drop_index_from_y(0), 0);
}

#[test]
fn drop_index_past_end() {
    let mut app = make_app();
    add_item(&mut app, 1, "A");
    app.build_display_rows();

    assert_eq!(app.drop_index_from_y(9999), 1);
}

// ── Group operations ──

#[test]
fn create_group_replaces_window_slot() {
    let mut app = make_app();
    add_item(&mut app, 1, "A");
    add_item(&mut app, 2, "B");
    app.create_group(1);

    assert_eq!(app.groups.len(), 1);
    assert_eq!(app.groups[0].member_wids, vec![1]);
    assert!(matches!(app.display_order[0], DisplaySlot::Group(0)));
    assert!(matches!(app.display_order[1], DisplaySlot::Window(2)));
}

#[test]
fn add_to_group_moves_window() {
    let mut app = make_app();
    add_item(&mut app, 1, "A");
    add_item(&mut app, 2, "B");
    app.create_group(1);
    app.add_to_group(0, 2);

    assert_eq!(app.groups[0].member_wids, vec![1, 2]);
    assert_eq!(app.display_order.len(), 1); // only the group slot remains
}

#[test]
fn remove_from_group_inserts_after_group() {
    let mut app = make_app();
    add_item(&mut app, 1, "A");
    add_item(&mut app, 2, "B");
    app.create_group(1);
    app.add_to_group(0, 2);
    app.remove_from_group(1); // remove window 1

    assert_eq!(app.groups[0].member_wids, vec![2]);
    assert_eq!(app.display_order.len(), 2);
    assert!(matches!(app.display_order[0], DisplaySlot::Group(0)));
    assert!(matches!(app.display_order[1], DisplaySlot::Window(1)));
}

#[test]
fn delete_group_restores_members() {
    let mut app = make_app();
    add_item(&mut app, 1, "A");
    add_item(&mut app, 2, "B");
    add_item(&mut app, 3, "C");
    app.create_group(1);
    app.add_to_group(0, 2);
    app.delete_group(0);

    assert_eq!(app.groups.len(), 0);
    assert_eq!(app.display_order.len(), 3);
    // Members inserted where group was, then remaining window
    assert!(matches!(app.display_order[0], DisplaySlot::Window(1)));
    assert!(matches!(app.display_order[1], DisplaySlot::Window(2)));
    assert!(matches!(app.display_order[2], DisplaySlot::Window(3)));
}

#[test]
fn rename_group_cycles_presets() {
    let mut app = make_app();
    add_item(&mut app, 1, "A");
    app.create_group(1);

    // Initial name is "Group 1", not in presets
    app.rename_group(0);
    assert_eq!(app.groups[0].name, "Alpha");
    app.rename_group(0);
    assert_eq!(app.groups[0].name, "Beta");
    app.rename_group(0);
    assert_eq!(app.groups[0].name, "Gamma");
}

// ── Drag-and-drop ──

#[test]
fn is_gap_in_group_true_between_members() {
    let mut app = make_app();
    add_item(&mut app, 1, "A");
    add_item(&mut app, 2, "B");
    add_item(&mut app, 3, "C");
    app.create_group(1);
    app.add_to_group(0, 2);
    // display_rows: [Header(0), Window(1,g0), Window(2,g0), Window(3,None)]

    assert!(app.is_gap_in_group(1, 0)); // between header and first member
    assert!(app.is_gap_in_group(2, 0)); // between two members
    assert!(app.is_gap_in_group(3, 0)); // after last member
    assert!(!app.is_gap_in_group(0, 0)); // before header
}

#[test]
fn reorder_ungrouped_windows() {
    let mut app = make_app();
    add_item(&mut app, 1, "A");
    add_item(&mut app, 2, "B");
    add_item(&mut app, 3, "C");
    app.build_display_rows();

    // Drag window at row 0 to gap 2 (between B and C)
    let y_gap2 = app.row_y(2); // just above row 2's midpoint
    app.handle_drop(0, y_gap2);

    // A moved from position 0 to after B
    assert!(matches!(app.display_order[0], DisplaySlot::Window(2)));
    assert!(matches!(app.display_order[1], DisplaySlot::Window(1)));
    assert!(matches!(app.display_order[2], DisplaySlot::Window(3)));
}

#[test]
fn drag_window_onto_group_header_adds_to_group() {
    let mut app = make_app();
    add_item(&mut app, 1, "A");
    add_item(&mut app, 2, "B");
    app.create_group(1);
    // display_rows: [Header(0), Window(1,g0), Window(2,None)]

    // Drag window 2 (row 2) onto group header (row 0)
    let header_y = app.row_y(0) + ITEM_H as i16 / 2;
    app.handle_drop(2, header_y);

    assert_eq!(app.groups[0].member_wids, vec![1, 2]);
    assert_eq!(app.display_order.len(), 1); // only group remains
}

#[test]
fn drag_grouped_window_outside_ungroups() {
    let mut app = make_app();
    add_item(&mut app, 1, "A");
    add_item(&mut app, 2, "B");
    add_item(&mut app, 3, "C");
    app.create_group(1);
    app.add_to_group(0, 2);
    // display_rows: [Header(0), Window(1,g0), Window(2,g0), Window(3,None)]

    // Drag window 1 (row 1) past end of list (well below everything)
    app.handle_drop(1, 9999);

    assert_eq!(app.groups[0].member_wids, vec![2]); // only window 2 remains
    // Window 1 should now be ungrouped in display_order
    let ungrouped_wids: Vec<u32> = app
        .display_order
        .iter()
        .filter_map(|s| if let DisplaySlot::Window(w) = s { Some(*w) } else { None })
        .collect();
    assert!(ungrouped_wids.contains(&1));
}

// ── Menu entries ──

#[test]
fn menu_for_ungrouped_window_has_new_group() {
    let mut app = make_app();
    add_item(&mut app, 1, "A");
    app.build_display_rows();

    let entries = build_menu_entries(&app, 0);
    assert_eq!(entries.len(), 1);
    assert_eq!(entries[0].label, "New Group");
}

#[test]
fn menu_for_ungrouped_shows_existing_groups() {
    let mut app = make_app();
    add_item(&mut app, 1, "A");
    add_item(&mut app, 2, "B");
    app.create_group(1);
    // display_rows: [Header(0), Window(1,g0), Window(2,None)]

    let entries = build_menu_entries(&app, 2); // right-click on ungrouped window 2
    assert_eq!(entries.len(), 2); // "New Group" + "Add to Group 1"
    assert!(matches!(entries[1].action, MenuAction::AddToGroup(0)));
}

#[test]
fn menu_for_grouped_window_has_remove() {
    let mut app = make_app();
    add_item(&mut app, 1, "A");
    app.create_group(1);
    // display_rows: [Header(0), Window(1,g0)]

    let entries = build_menu_entries(&app, 1);
    assert_eq!(entries.len(), 1);
    assert_eq!(entries[0].label, "Remove from Group");
}

#[test]
fn menu_for_group_header_has_rename_and_delete() {
    let mut app = make_app();
    add_item(&mut app, 1, "A");
    app.create_group(1);

    let entries = build_menu_entries(&app, 0); // group header
    assert_eq!(entries.len(), 2);
    assert_eq!(entries[0].label, "Rename Group");
    assert_eq!(entries[1].label, "Delete Group");
}

// ── find_item ──

#[test]
fn find_item_by_wid() {
    let mut app = make_app();
    add_item(&mut app, 42, "Test Window");
    assert!(app.find_item(42).is_some());
    assert_eq!(app.find_item(42).unwrap().label, "Test Window");
    assert!(app.find_item(99).is_none());
}

// ── display_row_to_slot_position ──

#[test]
fn slot_position_maps_correctly() {
    let mut app = make_app();
    add_item(&mut app, 1, "A");
    add_item(&mut app, 2, "B");
    add_item(&mut app, 3, "C");
    app.create_group(1);
    app.add_to_group(0, 2);
    // display_order: [Group(0), Window(3)]
    // display_rows: [Header(0), Window(1,g0), Window(2,g0), Window(3,None)]

    assert_eq!(app.display_row_to_slot_position(0), 0); // before header → slot 0
    assert_eq!(app.display_row_to_slot_position(3), 1); // before Window(3) → slot 1
    assert_eq!(app.display_row_to_slot_position(4), 2); // past end → slot 2
}
