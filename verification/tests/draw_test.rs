use process_tab_manager::draw::{
    decimal_text, draw_plan, group_color_index, group_header_text, take_chars_text, ColorRole, DrawOp,
};
use process_tab_manager::panel::{App, DisplaySlot, DragState, Item};

fn item(wid: u32, label: &str) -> Item {
    Item { wid, label: label.to_string(), wm_class: "test".to_string(), accent_pixel: 0x123456 }
}

fn app_with(wids: &[u32]) -> App {
    let mut app = App::new(999);
    for &w in wids {
        app.items.push(item(w, &format!("w{}", w)));
        app.display_order.push(DisplaySlot::Window(w));
    }
    app.build_display_rows();
    app
}

fn fill(op: &DrawOp) -> (i16, i16, u16, u16, ColorRole) {
    match op {
        DrawOp::Fill { x, y, width, height, role } => (*x, *y, *width, *height, *role),
        DrawOp::Text { .. } => panic!("expected a fill, got {:?}", op),
    }
}

fn text(op: &DrawOp) -> (i16, i16, String, ColorRole) {
    match op {
        DrawOp::Text { x, y, text, role } => (*x, *y, text.clone(), *role),
        DrawOp::Fill { .. } => panic!("expected a text, got {:?}", op),
    }
}

#[test]
fn decimal_and_char_cuts() {
    assert_eq!(decimal_text(0), "0");
    assert_eq!(decimal_text(1234), "1234");
    assert_eq!(take_chars_text("héllo", 2), "hé");
    assert_eq!(take_chars_text("ab", 5), "ab");
}

#[test]
fn group_colours_cycle() {
    assert_eq!(group_color_index(1, 6), 1);
    assert_eq!(group_color_index(7, 6), 1);
    assert_eq!(group_color_index(12, 6), 0);
}

#[test]
fn header_text_shows_arrow_and_count() {
    assert_eq!(group_header_text("Work", true, 3, 27), ("+ Work".to_string(), Some("(3)".to_string())));
    assert_eq!(group_header_text("Work", false, 3, 27), ("- Work".to_string(), None));
    let long = "abcdefghijklmnopqrstuvwxyz0123456789";
    let (shown, count) = group_header_text(long, false, 0, 27);
    assert_eq!(shown, "- abcdefghijklmnopqrstuvwxy");
    assert_eq!(count, None);
}

#[test]
fn plan_highlights_active_and_hovered_rows() {
    let mut app = app_with(&[1, 2]);
    app.active_wid = Some(1);
    app.hover_row = Some(1);
    let ops = draw_plan(&app);
    assert_eq!(ops.len(), 7);
    assert_eq!(fill(&ops[0]), (0, 0, app.width, app.height, ColorRole::Background));
    assert_eq!(fill(&ops[1]), (8, 8, 234, 28, ColorRole::Active));
    assert_eq!(fill(&ops[2]), (8, 8, 3, 28, ColorRole::ActiveStripe));
    assert_eq!(text(&ops[3]), (16, 26, "w1".to_string(), ColorRole::Text));
    assert_eq!(fill(&ops[4]), (8, 38, 234, 28, ColorRole::Hover));
    assert_eq!(fill(&ops[5]), (8, 38, 3, 28, ColorRole::Accent(0x123456)));
    assert_eq!(text(&ops[6]), (16, 56, "w2".to_string(), ColorRole::Text));
}

#[test]
fn plan_draws_collapsed_group_header_with_count() {
    let mut app = app_with(&[1, 2]);
    app.create_group(1);
    let gid = app.groups[0].id;
    app.add_to_group(gid, 2);
    app.toggle_collapse(gid);
    let ops = draw_plan(&app);
    assert_eq!(fill(&ops[1]), (8, 8, 234, 28, ColorRole::GroupHeader));
    assert_eq!(fill(&ops[2]), (8, 8, 234, 1, ColorRole::Border));
    assert_eq!(fill(&ops[3]), (8, 8, 3, 28, ColorRole::GroupColor(gid as usize % 6)));
    assert_eq!(text(&ops[4]), (16, 26, "+ Group 1".to_string(), ColorRole::Text));
    // "+ Group 1" is 9 bytes: the count starts at 16 + (9 + 1) * 8.
    assert_eq!(text(&ops[5]), (96, 26, "(2)".to_string(), ColorRole::TextDim));
    assert_eq!(ops.len(), 6);
}

#[test]
fn plan_skips_dragged_row_and_adds_indicator_and_ghost() {
    let mut app = app_with(&[1, 2]);
    app.drag = Some(DragState { source_row: 0, start_y: 10, current_y: 60, started: true });
    let ops = draw_plan(&app);
    // background, row 1 (3 ops), indicator, ghost (3 ops)
    assert_eq!(ops.len(), 8);
    assert_eq!(fill(&ops[1]), (8, 38, 234, 28, ColorRole::Item));
    // y = 60 is below row 1's middle (52): the gap is after the last row.
    assert_eq!(fill(&ops[4]), (8, 38 + 29, 234, 2, ColorRole::Indicator));
    assert_eq!(fill(&ops[5]), (8, 46, 234, 28, ColorRole::Dragged));
    assert_eq!(text(&ops[7]), (16, 64, "w1".to_string(), ColorRole::Text));
}

#[test]
fn grouped_rows_are_indented_and_labels_cut() {
    let mut app = App::new(999);
    app.items.push(item(1, "abcdefghijklmnopqrstuvwxyz0123456789"));
    app.display_order.push(DisplaySlot::Window(1));
    app.build_display_rows();
    app.create_group(1);
    let ops = draw_plan(&app);
    // header (4 ops, expanded: no count), then the member row
    assert_eq!(fill(&ops[5]), (24, 38, 218, 28, ColorRole::Item));
    assert_eq!(text(&ops[7]), (32, 56, "abcdefghijklmnopqrstuvwxy".to_string(), ColorRole::Text));
}
