use process_tab_manager::bridge::{translate_event, AtomIds, PtmEvent, X11Event};

/// Helper to build an AtomIds for testing.
fn test_atoms() -> AtomIds {
    AtomIds {
        net_client_list: 100,
        net_active_window: 101,
        net_wm_name: 102,
        net_current_desktop: 103,
        net_wm_state: 104,
    }
}

const ROOT: u32 = 0x000001ee;

#[test]
fn client_list_changed_on_root() {
    let atoms = test_atoms();
    let event = X11Event::PropertyNotify { window: ROOT, atom: atoms.net_client_list };
    let result = translate_event(&event, &atoms, ROOT);
    assert_eq!(result, Some(PtmEvent::WindowListChanged));
}

#[test]
fn active_window_changed_on_root() {
    let atoms = test_atoms();
    let event = X11Event::PropertyNotify { window: ROOT, atom: atoms.net_active_window };
    let result = translate_event(&event, &atoms, ROOT);
    assert_eq!(result, Some(PtmEvent::ActiveWindowChanged));
}

#[test]
fn title_changed_on_window() {
    let atoms = test_atoms();
    let wid = 0x02600017;
    let event = X11Event::PropertyNotify { window: wid, atom: atoms.net_wm_name };
    let result = translate_event(&event, &atoms, ROOT);
    assert_eq!(result, Some(PtmEvent::WindowTitleChanged(wid)));
}

#[test]
fn desktop_changed_on_root() {
    let atoms = test_atoms();
    let event = X11Event::PropertyNotify { window: ROOT, atom: atoms.net_current_desktop };
    let result = translate_event(&event, &atoms, ROOT);
    assert_eq!(result, Some(PtmEvent::DesktopChanged));
}

#[test]
fn window_destroyed() {
    let atoms = test_atoms();
    let wid = 0x03400006;
    let event = X11Event::DestroyNotify { window: wid };
    let result = translate_event(&event, &atoms, ROOT);
    assert_eq!(result, Some(PtmEvent::WindowDestroyed(wid)));
}

#[test]
fn unrelated_property_on_root_returns_none() {
    let atoms = test_atoms();
    let event = X11Event::PropertyNotify { window: ROOT, atom: 999 };
    let result = translate_event(&event, &atoms, ROOT);
    assert_eq!(result, None);
}

#[test]
fn unrelated_property_on_window_returns_none() {
    let atoms = test_atoms();
    let event = X11Event::PropertyNotify { window: 0x02600017, atom: 999 };
    let result = translate_event(&event, &atoms, ROOT);
    assert_eq!(result, None);
}

#[test]
fn wm_state_changed_on_window() {
    let atoms = test_atoms();
    let wid = 0x02600017;
    let event = X11Event::PropertyNotify { window: wid, atom: atoms.net_wm_state };
    let result = translate_event(&event, &atoms, ROOT);
    assert_eq!(result, Some(PtmEvent::WindowStateChanged(wid)));
}

#[test]
fn title_change_on_root_is_not_window_title() {
    // _NET_WM_NAME on root should not be treated as a window title change
    let atoms = test_atoms();
    let event = X11Event::PropertyNotify { window: ROOT, atom: atoms.net_wm_name };
    let result = translate_event(&event, &atoms, ROOT);
    assert_eq!(result, None);
}

#[test]
fn other_events_are_ignored() {
    let atoms = test_atoms();
    assert_eq!(translate_event(&X11Event::Other, &atoms, ROOT), None);
}

#[test]
fn client_list_atom_on_other_window_is_ignored() {
    let atoms = test_atoms();
    let event = X11Event::PropertyNotify { window: 0x02600017, atom: atoms.net_client_list };
    assert_eq!(translate_event(&event, &atoms, ROOT), None);
}

#[test]
fn destroying_the_root_is_reported() {
    let atoms = test_atoms();
    let event = X11Event::DestroyNotify { window: ROOT };
    assert_eq!(translate_event(&event, &atoms, ROOT), Some(PtmEvent::WindowDestroyed(ROOT)));
}
