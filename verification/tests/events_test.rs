use process_tab_manager::bridge::PtmEvent;
use process_tab_manager::events::{apply_reply, event_action, EventReply, UiAction};
use process_tab_manager::state::{AppState, WindowEntry};
use process_tab_manager::events::{
    hover, listed_clients, monitor_step, press, should_refresh, window_count_changed, MonitorEmit,
    PressOutcome, XiEvent,
};
use process_tab_manager::panel::{App, DisplaySlot, Item};

fn app_with(wids: &[u32]) -> App {
    let mut app = App::new(999);
    for &w in wids {
        app.items.push(Item { wid: w, label: format!("w{}", w), wm_class: "t".to_string(), accent_pixel: 0 });
        app.display_order.push(DisplaySlot::Window(w));
    }
    app.build_display_rows();
    app
}

#[test]
fn own_window_and_other_desktops_are_not_listed() {
    let wids = vec![5, 999, 6, 7, 8];
    let desktops = vec![Some(0), Some(0), Some(1), None, Some(0)];
    assert_eq!(listed_clients(&wids, &desktops, 999, 0), vec![5, 7, 8]);
}

#[test]
fn refresh_every_fiftieth_event_when_idle() {
    assert!(should_refresh(50, false, false));
    assert!(!should_refresh(51, false, false));
    assert!(!should_refresh(100, true, false));
    assert!(!should_refresh(100, false, true));
}

#[test]
fn presses_arm_drags_and_open_menus() {
    let mut app = app_with(&[1, 2]);
    assert_eq!(press(&mut app, 3, 40), PressOutcome::OpenMenu(1));
    assert!(app.drag.is_none());
    assert_eq!(press(&mut app, 1, 10), PressOutcome::StartDrag(0));
    let d = app.drag.unwrap();
    assert_eq!((d.source_row, d.start_y, d.current_y, d.started), (0, 10, 10, false));
    assert_eq!(press(&mut app, 3, 40), PressOutcome::Nothing);
    assert_eq!(press(&mut app, 1, 500), PressOutcome::Nothing);
}

#[test]
fn hover_follows_the_pointer() {
    let mut app = app_with(&[1, 2]);
    assert!(hover(&mut app, 40));
    assert_eq!(app.hover_row, Some(1));
    assert!(!hover(&mut app, 41));
    assert!(hover(&mut app, 500));
    assert_eq!(app.hover_row, None);
}

#[test]
fn monitor_reports_motion_only_while_dragging() {
    assert_eq!(monitor_step(false, XiEvent::Motion), (false, None));
    assert_eq!(monitor_step(false, XiEvent::ButtonPress { button: 1 }), (true, Some(MonitorEmit::Click)));
    assert_eq!(monitor_step(false, XiEvent::ButtonPress { button: 3 }), (false, Some(MonitorEmit::Click)));
    assert_eq!(monitor_step(true, XiEvent::Motion), (true, Some(MonitorEmit::DragMove)));
    assert_eq!(monitor_step(true, XiEvent::ButtonRelease { button: 3 }), (true, None));
    assert_eq!(monitor_step(true, XiEvent::ButtonRelease { button: 1 }), (false, Some(MonitorEmit::DragEnd)));
    assert_eq!(monitor_step(true, XiEvent::Other), (true, None));
}

#[test]
fn safety_timer_notices_count_changes() {
    assert!(window_count_changed(3, 4));
    assert!(!window_count_changed(4, 4));
}

#[test]
fn window_events_map_to_actions() {
    assert_eq!(event_action(PtmEvent::WindowListChanged), UiAction::RefreshWindowList);
    assert_eq!(event_action(PtmEvent::WindowDestroyed(7)), UiAction::RefreshWindowList);
    assert_eq!(event_action(PtmEvent::ActiveWindowChanged), UiAction::ReadActiveWindow);
    assert_eq!(event_action(PtmEvent::WindowTitleChanged(3)), UiAction::ReadWindowTitle(3));
    assert_eq!(event_action(PtmEvent::WindowStateChanged(4)), UiAction::ReadWindowState(4));
    assert_eq!(event_action(PtmEvent::DesktopChanged), UiAction::Nothing);
}

#[test]
fn replies_update_the_state() {
    let mut state = AppState::new();
    state.update_windows(vec![WindowEntry {
        id: 1,
        wm_class: "XTerm".to_string(),
        wm_instance: "xterm".to_string(),
        title: "old".to_string(),
        desktop: Some(0),
        pid: None,
        is_minimized: false,
        is_urgent: false,
    }]);
    apply_reply(&mut state, EventReply::ActiveWindow(1));
    assert_eq!(state.active_window(), Some(1));
    apply_reply(&mut state, EventReply::Title(1, "new".to_string()));
    assert_eq!(state.native_title(1), "new");
    apply_reply(&mut state, EventReply::WindowState { wid: 1, is_minimized: true, is_urgent: true });
    assert!(state.windows()[0].is_minimized);
    assert!(state.windows()[0].is_urgent);
}
