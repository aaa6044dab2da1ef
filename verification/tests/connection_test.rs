use process_tab_manager::x11::connection::{
    frame_extents_from_property, pick_window_by_pid, title_missing, window_info_from_properties,
    workarea_from_property, AtomCache, PidCandidate,
};

fn words(ws: &[u32]) -> Vec<u8> {
    ws.iter().flat_map(|w| w.to_le_bytes()).collect()
}

fn atoms() -> AtomCache {
    AtomCache {
        net_client_list: 1,
        net_active_window: 2,
        net_wm_name: 3,
        net_wm_desktop: 4,
        net_current_desktop: 5,
        net_wm_pid: 6,
        net_wm_state: 7,
        net_wm_state_hidden: 500,
        net_wm_state_demands_attention: 501,
        net_close_window: 9,
        net_wm_window_type: 10,
        net_wm_window_type_utility: 11,
        net_wm_window_type_dock: 12,
        net_workarea: 13,
        net_frame_extents: 14,
        utf8_string: 15,
    }
}

#[test]
fn frame_extents_read_first_four_words() {
    assert_eq!(frame_extents_from_property(&words(&[5, 6, 30, 7])), (5, 6, 30, 7));
    assert_eq!(frame_extents_from_property(&words(&[5, 6, 30, 7, 99])), (5, 6, 30, 7));
}

#[test]
fn frame_extents_default_to_zero_when_short() {
    assert_eq!(frame_extents_from_property(&[]), (0, 0, 0, 0));
    assert_eq!(frame_extents_from_property(&words(&[5, 6, 30])), (0, 0, 0, 0));
}

#[test]
fn workarea_picks_the_desktops_quadruple() {
    let value = words(&[0, 40, 1920, 1040, 10, 20, 800, 600]);
    assert_eq!(workarea_from_property(&value, 0), Some((0, 40, 1920, 1040)));
    assert_eq!(workarea_from_property(&value, 1), Some((10, 20, 800, 600)));
    assert_eq!(workarea_from_property(&value, 2), None);
}

#[test]
fn workarea_origin_is_read_as_signed() {
    let value = words(&[0xFFFF_FFF6, 0xFFFF_FFFF, 100, 50]);
    assert_eq!(workarea_from_property(&value, 0), Some((-10, -1, 100, 50)));
}

#[test]
fn window_info_from_property_values() {
    let info = window_info_from_properties(
        42,
        b"gnome-terminal-server\0Gnome-terminal\0",
        "build: cargo".as_bytes(),
        None,
        &words(&[2]),
        &words(&[1234]),
        &words(&[10, 500]),
        &atoms(),
    );
    assert_eq!(info.id, 42);
    assert_eq!(info.wm_instance, "gnome-terminal-server");
    assert_eq!(info.wm_class, "Gnome-terminal");
    assert_eq!(info.title, "build: cargo");
    assert_eq!(info.desktop, Some(2));
    assert_eq!(info.pid, Some(1234));
    assert!(info.is_minimized);
    assert!(!info.is_urgent);
}

#[test]
fn window_title_falls_back_to_wm_name_when_net_wm_name_is_empty() {
    assert!(title_missing(&[]));
    assert!(!title_missing(b"x"));
    let info = window_info_from_properties(7, b"", &[], Some(b"legacy".as_slice()), &[], &[], &[], &atoms());
    assert_eq!(info.title, "legacy");
    assert_eq!(info.desktop, None);
    assert_eq!(info.pid, None);
}

#[test]
fn window_title_ignores_fallback_when_present() {
    let info = window_info_from_properties(7, b"", b"modern", Some(b"legacy".as_slice()), &[], &[], &words(&[501]), &atoms());
    assert_eq!(info.title, "modern");
    assert!(info.is_urgent);
}

fn cand(wid: u32, pid: Option<u32>, size: Option<(u16, u16)>) -> PidCandidate {
    PidCandidate { wid, pid, size }
}

#[test]
fn pick_window_by_pid_prefers_largest_visible_window() {
    let cs = vec![
        cand(1, Some(77), Some((1, 1))),
        cand(2, Some(77), Some((200, 100))),
        cand(3, Some(88), Some((1000, 1000))),
        cand(4, Some(77), Some((300, 300))),
        cand(5, Some(77), Some((300, 300))),
        cand(6, None, Some((900, 900))),
    ];
    assert_eq!(pick_window_by_pid(&cs, 77), Some(4));
}

#[test]
fn pick_window_by_pid_none_without_match() {
    let cs = vec![cand(1, Some(77), Some((1, 500))), cand(2, Some(77), None), cand(3, Some(5), Some((10, 10)))];
    assert_eq!(pick_window_by_pid(&cs, 77), None);
    assert_eq!(pick_window_by_pid(&vec![], 77), None);
}
