//! Decisions taken by the event loops: which client windows the panel lists,
//! when it refreshes, what a pointer press does, and the monitor's drag
//! tracking. The loops themselves, which wait on the X server, stay outside.
use vstd::prelude::*;

use crate::bridge::PtmEvent;
use crate::panel::{row_under, App, DragState, MAX_ROWS};
use crate::state::{with_flags, with_title, AppState, StateModel};

verus! {

// ── Client list ──

/// Whether a client window is listed: not the panel itself, and not known to
/// sit on another desktop than the current one (a window whose desktop could
/// not be read is listed).
pub open spec fn is_listed(wid: u32, desktop: Option<u32>, our_wid: u32, current_desktop: u32) -> bool {
    wid != our_wid && !(desktop matches Some(d) && d != current_desktop)
}

/// The listed windows among the first `n` clients, in client-list order.
pub open spec fn listed_among(
    wids: Seq<u32>,
    desktops: Seq<Option<u32>>,
    our_wid: u32,
    current_desktop: u32,
    n: int,
) -> Seq<u32>
    decreases n,
{
    if n <= 0 {
        seq![]
    } else {
        listed_among(wids, desktops, our_wid, current_desktop, n - 1) + if is_listed(
            wids[n - 1],
            desktops[n - 1],
            our_wid,
            current_desktop,
        ) {
            seq![wids[n - 1]]
        } else {
            seq![]
        }
    }
}

/// The client windows the panel lists, given each client's desktop as read
/// (`desktops[i]` belongs to `wids[i]`).
pub fn listed_clients(wids: &Vec<u32>, desktops: &Vec<Option<u32>>, our_wid: u32, current_desktop: u32) -> (kept: Vec<u32>)
    requires
        desktops@.len() == wids@.len(),
    ensures
        kept@ == listed_among(wids@, desktops@, our_wid, current_desktop, wids@.len() as int),
{
    let mut kept: Vec<u32> = Vec::new();
    let mut i: usize = 0;
    while i < wids.len()
        invariant
            i <= wids@.len(),
            desktops@.len() == wids@.len(),
            kept@ == listed_among(wids@, desktops@, our_wid, current_desktop, i as int),
        decreases wids@.len() - i,
    {
        let wid = wids[i];
        let other_desktop = match desktops[i] {
            Some(d) => d != current_desktop,
            None => false,
        };
        if wid != our_wid && !other_desktop {
            kept.push(wid);
        }
        proof {
            assert(kept@ =~= listed_among(wids@, desktops@, our_wid, current_desktop, i + 1));
        }
        i = i + 1;
    }
    kept
}

/// Every listed window is a client, is not the panel, and is not on another
/// desktop; and every such client is listed.
pub proof fn listed_clients_are_exactly_the_shown_ones(
    wids: Seq<u32>,
    desktops: Seq<Option<u32>>,
    our_wid: u32,
    current_desktop: u32,
    n: int,
)
    requires
        0 <= n <= wids.len(),
        desktops.len() == wids.len(),
    ensures
        forall|w: u32|
            listed_among(wids, desktops, our_wid, current_desktop, n).contains(w) <==> exists|i: int|
                0 <= i < n && #[trigger] wids[i] == w && is_listed(w, desktops[i], our_wid, current_desktop),
    decreases n,
{
    if n > 0 {
        listed_clients_are_exactly_the_shown_ones(wids, desktops, our_wid, current_desktop, n - 1);
        let prev = listed_among(wids, desktops, our_wid, current_desktop, n - 1);
        let cur = listed_among(wids, desktops, our_wid, current_desktop, n);
        assert forall|w: u32| cur.contains(w) <==> exists|i: int|
            0 <= i < n && #[trigger] wids[i] == w && is_listed(w, desktops[i], our_wid, current_desktop) by {
            if cur.contains(w) {
                let k = choose|k: int| 0 <= k < cur.len() && cur[k] == w;
                if k < prev.len() {
                    assert(prev[k] == w);
                    assert(prev.contains(w));
                } else {
                    assert(wids[n - 1] == w);
                }
            }
            if exists|i: int| 0 <= i < n && #[trigger] wids[i] == w && is_listed(w, desktops[i], our_wid, current_desktop) {
                let i = choose|i: int| 0 <= i < n && #[trigger] wids[i] == w && is_listed(w, desktops[i], our_wid, current_desktop);
                if i < n - 1 {
                    assert(prev.contains(w));
                    let k = choose|k: int| 0 <= k < prev.len() && prev[k] == w;
                    assert(cur[k] == w);
                } else {
                    assert(cur[cur.len() - 1] == w);
                }
            }
        }
    }
}

// ── Main loop ──

/// Refresh the window list every fiftieth event, unless a drag or the
/// context menu is in progress.
pub fn should_refresh(event_count: u32, dragging: bool, menu_open: bool) -> (r: bool)
    ensures
        r == (event_count % 50 == 0 && !dragging && !menu_open),
{
    event_count % 50 == 0 && !dragging && !menu_open
}

/// What a pointer press on the panel does.
#[derive(Clone, Copy, Debug, PartialEq, Eq, Structural)]
pub enum PressOutcome {
    /// A drag may start from this row.
    StartDrag(usize),
    /// The context menu opens for this row.
    OpenMenu(usize),
    Nothing,
}

pub open spec fn press_outcome(app: App, button: u8, y: i16) -> PressOutcome {
    let n = app.display_rows@.len() as int;
    let row = if n <= MAX_ROWS { row_under(n, y as int) } else { -1 };
    if row < 0 {
        PressOutcome::Nothing
    } else if button == 1 {
        PressOutcome::StartDrag(row as usize)
    } else if button == 3 && app.drag is None {
        PressOutcome::OpenMenu(row as usize)
    } else {
        PressOutcome::Nothing
    }
}

/// A press of `button` at height `y`: the left button on a row arms a drag
/// from it (not yet started), the right button on a row outside a drag opens
/// the menu there; anything else does nothing.
pub fn press(app: &mut App, button: u8, y: i16) -> (r: PressOutcome)
    ensures
        r == press_outcome(*old(app), button, y),
        final(app)@ == (match r {
            PressOutcome::StartDrag(row) => crate::panel::PanelModel {
                drag: Some(DragState { source_row: row, start_y: y, current_y: y, started: false }),
                ..old(app)@
            },
            _ => old(app)@,
        }),
{
    let row = if app.display_rows.len() <= MAX_ROWS {
        app.hit_test_row(y)
    } else {
        None
    };
    match row {
        Some(r) => {
            if button == 1 {
                app.drag = Some(DragState { source_row: r, start_y: y, current_y: y, started: false });
                PressOutcome::StartDrag(r)
            } else if button == 3 && app.drag.is_none() {
                PressOutcome::OpenMenu(r)
            } else {
                PressOutcome::Nothing
            }
        },
        None => PressOutcome::Nothing,
    }
}

/// Pointer motion with no drag: the hovered row becomes the one under `y`.
/// Returns whether it changed.
pub fn hover(app: &mut App, y: i16) -> (changed: bool)
    ensures
        ({
            let n = old(app).display_rows@.len() as int;
            let row = if n <= MAX_ROWS { row_under(n, y as int) } else { -1 };
            let h = if row >= 0 { Some(row as usize) } else { None };
            &&& final(app)@ == (crate::panel::PanelModel { hover_row: h, ..old(app)@ })
            &&& changed == (h != old(app).hover_row)
        }),
{
    let h = if app.display_rows.len() <= MAX_ROWS {
        app.hit_test_row(y)
    } else {
        None
    };
    let changed = match (h, app.hover_row) {
        (Some(a), Some(b)) => a != b,
        (None, None) => false,
        _ => true,
    };
    app.hover_row = h;
    changed
}

// ── Window monitor ──

/// The input events the monitor tracks drags by.
#[derive(Clone, Copy, Debug, PartialEq, Eq, Structural)]
pub enum XiEvent {
    ButtonPress { button: u8 },
    ButtonRelease { button: u8 },
    Motion,
    Other,
}

/// What the monitor reports to the front end.
#[derive(Clone, Copy, Debug, PartialEq, Eq, Structural)]
pub enum MonitorEmit {
    Click,
    DragEnd,
    DragMove,
}

/// Every press is reported as a click and a left press starts a drag; a left
/// release ends it and is reported; motion is reported only while dragging.
pub open spec fn monitor_next(dragging: bool, ev: XiEvent) -> (bool, Option<MonitorEmit>) {
    match ev {
        XiEvent::ButtonPress { button } => (dragging || button == 1, Some(MonitorEmit::Click)),
        XiEvent::ButtonRelease { button } => if button == 1 {
            (false, Some(MonitorEmit::DragEnd))
        } else {
            (dragging, None)
        },
        XiEvent::Motion => if dragging {
            (true, Some(MonitorEmit::DragMove))
        } else {
            (false, None)
        },
        XiEvent::Other => (dragging, None),
    }
}

/// One step of the monitor's drag tracking: the new dragging flag and what to
/// report, if anything.
pub fn monitor_step(dragging: bool, ev: XiEvent) -> (r: (bool, Option<MonitorEmit>))
    ensures
        r == monitor_next(dragging, ev),
{
    match ev {
        XiEvent::ButtonPress { button } => (dragging || button == 1, Some(MonitorEmit::Click)),
        XiEvent::ButtonRelease { button } => {
            if button == 1 {
                (false, Some(MonitorEmit::DragEnd))
            } else {
                (dragging, None)
            }
        },
        XiEvent::Motion => {
            if dragging {
                (true, Some(MonitorEmit::DragMove))
            } else {
                (false, None)
            }
        },
        XiEvent::Other => (dragging, None),
    }
}

/// The safety timer refreshes when the client count differs from the last
/// one seen.
pub fn window_count_changed(last: usize, now: usize) -> (r: bool)
    ensures
        r == (last != now),
{
    last != now
}

// ── Window events ──

/// What the application does on a window event: rebuild the window list,
/// read the active window, read a window's title or its minimized/urgent
/// state, or nothing.
#[derive(Clone, Copy, Debug, PartialEq, Eq, Structural)]
pub enum UiAction {
    RefreshWindowList,
    ReadActiveWindow,
    ReadWindowTitle(u32),
    ReadWindowState(u32),
    Nothing,
}

pub open spec fn event_action_of(ev: PtmEvent) -> UiAction {
    match ev {
        PtmEvent::WindowListChanged => UiAction::RefreshWindowList,
        PtmEvent::WindowDestroyed(_) => UiAction::RefreshWindowList,
        PtmEvent::ActiveWindowChanged => UiAction::ReadActiveWindow,
        PtmEvent::WindowTitleChanged(w) => UiAction::ReadWindowTitle(w),
        PtmEvent::WindowStateChanged(w) => UiAction::ReadWindowState(w),
        PtmEvent::DesktopChanged => UiAction::Nothing,
    }
}

/// The action a window event calls for: a changed or shrunk client list
/// rebuilds the window list; the other events read what changed.
pub fn event_action(ev: PtmEvent) -> (a: UiAction)
    ensures
        a == event_action_of(ev),
{
    match ev {
        PtmEvent::WindowListChanged => UiAction::RefreshWindowList,
        PtmEvent::WindowDestroyed(_) => UiAction::RefreshWindowList,
        PtmEvent::ActiveWindowChanged => UiAction::ReadActiveWindow,
        PtmEvent::WindowTitleChanged(w) => UiAction::ReadWindowTitle(w),
        PtmEvent::WindowStateChanged(w) => UiAction::ReadWindowState(w),
        PtmEvent::DesktopChanged => UiAction::Nothing,
    }
}

/// What was read for an action.
pub enum EventReply {
    ActiveWindow(u32),
    Title(u32, String),
    WindowState { wid: u32, is_minimized: bool, is_urgent: bool },
}

/// Applies what was read: the active window is set, or the window's title or
/// minimized/urgent state is updated.
pub fn apply_reply(state: &mut AppState, reply: EventReply)
    ensures
        final(state)@ == (match reply {
            EventReply::ActiveWindow(w) => StateModel { active: Some(w), ..old(state)@ },
            EventReply::Title(w, t) => with_title(old(state)@, w, t@),
            EventReply::WindowState { wid, is_minimized, is_urgent } => with_flags(old(state)@, wid, is_minimized, is_urgent),
        }),
{
    match reply {
        EventReply::ActiveWindow(w) => state.set_active(Some(w)),
        EventReply::Title(w, t) => state.update_title(w, t.as_str()),
        EventReply::WindowState { wid, is_minimized, is_urgent } => state.update_state(wid, is_minimized, is_urgent),
    }
}

} // verus!
