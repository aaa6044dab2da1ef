//! Translation of raw X11 notifications into the events the application
//! reacts to.
use vstd::prelude::*;

verus! {

/// Atom IDs needed for event translation.
/// Constructed from the x11 connection's AtomCache.
pub struct AtomIds {
    pub net_client_list: u32,
    pub net_active_window: u32,
    pub net_wm_name: u32,
    pub net_current_desktop: u32,
    pub net_wm_state: u32,
}

/// Domain events — no X11 protocol types leak out.
#[derive(Debug, Clone, Copy, PartialEq, Eq, Structural)]
pub enum PtmEvent {
    WindowListChanged,
    ActiveWindowChanged,
    WindowTitleChanged(u32),
    WindowStateChanged(u32),
    DesktopChanged,
    WindowDestroyed(u32),
}

/// What translation reads of an X11 event: the window and atom of a
/// property change, the window of a destruction, or nothing of any other event.
#[derive(Debug, Clone, Copy, PartialEq, Eq, Structural)]
pub enum X11Event {
    PropertyNotify { window: u32, atom: u32 },
    DestroyNotify { window: u32 },
    Other,
}

/// On the root window, changes of the client list, the active window and the
/// current desktop are reported; on any other window, changes of its title
/// and of its state; every destruction is reported; nothing else is.
pub open spec fn translated(event: X11Event, atoms: AtomIds, root: u32) -> Option<PtmEvent> {
    match event {
        X11Event::PropertyNotify { window, atom } => {
            if window == root {
                if atom == atoms.net_client_list {
                    Some(PtmEvent::WindowListChanged)
                } else if atom == atoms.net_active_window {
                    Some(PtmEvent::ActiveWindowChanged)
                } else if atom == atoms.net_current_desktop {
                    Some(PtmEvent::DesktopChanged)
                } else {
                    None
                }
            } else if atom == atoms.net_wm_name {
                Some(PtmEvent::WindowTitleChanged(window))
            } else if atom == atoms.net_wm_state {
                Some(PtmEvent::WindowStateChanged(window))
            } else {
                None
            }
        },
        X11Event::DestroyNotify { window } => Some(PtmEvent::WindowDestroyed(window)),
        X11Event::Other => None,
    }
}

/// Pure function: translate an X11 event into a PtmEvent (if relevant).
pub fn translate_event(event: &X11Event, atoms: &AtomIds, root: u32) -> (r: Option<PtmEvent>)
    ensures
        r == translated(*event, *atoms, root),
{
    match *event {
        X11Event::PropertyNotify { window, atom } => {
            if window == root {
                if atom == atoms.net_client_list {
                    Some(PtmEvent::WindowListChanged)
                } else if atom == atoms.net_active_window {
                    Some(PtmEvent::ActiveWindowChanged)
                } else if atom == atoms.net_current_desktop {
                    Some(PtmEvent::DesktopChanged)
                } else {
                    None
                }
            } else if atom == atoms.net_wm_name {
                Some(PtmEvent::WindowTitleChanged(window))
            } else if atom == atoms.net_wm_state {
                Some(PtmEvent::WindowStateChanged(window))
            } else {
                None
            }
        },
        X11Event::DestroyNotify { window } => Some(PtmEvent::WindowDestroyed(window)),
        X11Event::Other => None,
    }
}

} // verus!
