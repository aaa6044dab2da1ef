//! What the application learns from window properties once the X server has
//! answered: frame extents, work areas, per-window info and the window of a
//! process. The requests themselves are made by the caller.
use vstd::prelude::*;

use crate::x11::ewmh::{
    le_word, le_words, lossy_utf8, parse_window_id, parse_window_ids, parse_wm_class, parse_wm_name,
    parse_wm_state_flags, wm_class_text, nul_fields, field_or_empty,
};

verus! {

broadcast use vstd::string::group_string_axioms;

/// Cached atom IDs to avoid repeated intern_atom round-trips.
pub struct AtomCache {
    pub net_client_list: u32,
    pub net_active_window: u32,
    pub net_wm_name: u32,
    pub net_wm_desktop: u32,
    pub net_current_desktop: u32,
    pub net_wm_pid: u32,
    pub net_wm_state: u32,
    pub net_wm_state_hidden: u32,
    pub net_wm_state_demands_attention: u32,
    pub net_close_window: u32,
    pub net_wm_window_type: u32,
    pub net_wm_window_type_utility: u32,
    pub net_wm_window_type_dock: u32,
    pub net_workarea: u32,
    pub net_frame_extents: u32,
    pub utf8_string: u32,
}

/// Info about a single window discovered via EWMH.
#[derive(Debug, Clone)]
pub struct WindowInfo {
    pub id: u32,
    pub wm_instance: String,
    pub wm_class: String,
    pub title: String,
    pub desktop: Option<u32>,
    pub pid: Option<u32>,
    pub is_minimized: bool,
    pub is_urgent: bool,
}

/// The frame extents (left, right, top, bottom) held by a _NET_FRAME_EXTENTS
/// value: its first four words, or all zero when it has fewer.
pub open spec fn frame_extents_of(value: Seq<u8>) -> (u32, u32, u32, u32) {
    let w = le_words(value);
    if w.len() >= 4 {
        (w[0], w[1], w[2], w[3])
    } else {
        (0, 0, 0, 0)
    }
}

/// Get a window's frame extents (left, right, top, bottom) from the bytes of
/// its _NET_FRAME_EXTENTS property. All zero if the property is not set.
pub fn frame_extents_from_property(value: &[u8]) -> (e: (u32, u32, u32, u32))
    ensures
        e == frame_extents_of(value@),
{
    let vals = parse_window_ids(value);
    if vals.len() >= 4 {
        (vals[0], vals[1], vals[2], vals[3])
    } else {
        (0, 0, 0, 0)
    }
}

/// The work area (x, y, width, height) of desktop `desktop` in a
/// _NET_WORKAREA value: its four words at `4 * desktop`, the first two read as
/// signed, or nothing when the value is too short.
pub open spec fn workarea_of(value: Seq<u8>, desktop: int) -> Option<(i32, i32, u32, u32)> {
    let w = le_words(value);
    let base = desktop * 4;
    if w.len() >= base + 4 {
        Some((w[base] as i32, w[base + 1] as i32, w[base + 2], w[base + 3]))
    } else {
        None
    }
}

/// Get the workarea for a given desktop from the bytes of _NET_WORKAREA.
/// Returns (x, y, width, height) or None if not available.
pub fn workarea_from_property(value: &[u8], desktop: u32) -> (area: Option<(i32, i32, u32, u32)>)
    requires
        desktop * 4 + 4 <= usize::MAX,
    ensures
        area == workarea_of(value@, desktop as int),
{
    let vals = parse_window_ids(value);
    let base = (desktop as usize) * 4;
    if vals.len() >= base + 4 {
        Some((vals[base] as i32, vals[base + 1] as i32, vals[base + 2], vals[base + 3]))
    } else {
        None
    }
}

/// Whether a _NET_WM_NAME value gives no title, so that WM_NAME must be read.
pub fn title_missing(name_value: &[u8]) -> (missing: bool)
    ensures
        missing == (lossy_utf8(name_value@).len() == 0),
{
    let title = parse_wm_name(name_value);
    title.as_str().unicode_len() == 0
}

/// The title of a window: its _NET_WM_NAME, or, when that is empty and the
/// WM_NAME value was read, its WM_NAME.
pub open spec fn title_of(name_value: Seq<u8>, fallback_value: Option<Seq<u8>>) -> Seq<char> {
    if lossy_utf8(name_value).len() == 0 {
        match fallback_value {
            Some(f) => lossy_utf8(f),
            None => lossy_utf8(name_value),
        }
    } else {
        lossy_utf8(name_value)
    }
}

/// What the info of a window holds, its texts taken as characters.
pub struct WindowInfoModel {
    pub id: u32,
    pub wm_instance: Seq<char>,
    pub wm_class: Seq<char>,
    pub title: Seq<char>,
    pub desktop: Option<u32>,
    pub pid: Option<u32>,
    pub is_minimized: bool,
    pub is_urgent: bool,
}

impl View for WindowInfo {
    type V = WindowInfoModel;

    open spec fn view(&self) -> WindowInfoModel {
        WindowInfoModel {
            id: self.id,
            wm_instance: self.wm_instance@,
            wm_class: self.wm_class@,
            title: self.title@,
            desktop: self.desktop,
            pid: self.pid,
            is_minimized: self.is_minimized,
            is_urgent: self.is_urgent,
        }
    }
}

/// The first little-endian word of a property value, if it has one.
pub open spec fn first_word(value: Seq<u8>) -> Option<u32> {
    if value.len() >= 4 {
        Some(le_word(value, 0) as u32)
    } else {
        None
    }
}

/// A window's info from the values of its WM_CLASS, _NET_WM_NAME (and, when
/// read, WM_NAME), _NET_WM_DESKTOP, _NET_WM_PID and _NET_WM_STATE properties.
pub open spec fn window_info_of(
    wid: u32,
    class_value: Seq<u8>,
    name_value: Seq<u8>,
    fallback_value: Option<Seq<u8>>,
    desktop_value: Seq<u8>,
    pid_value: Seq<u8>,
    state_value: Seq<u8>,
    atoms: AtomCache,
) -> WindowInfoModel {
    let fields = nul_fields(wm_class_text(class_value));
    WindowInfoModel {
        id: wid,
        wm_instance: field_or_empty(fields, 0),
        wm_class: field_or_empty(fields, 1),
        title: title_of(name_value, fallback_value),
        desktop: first_word(desktop_value),
        pid: first_word(pid_value),
        is_minimized: le_words(state_value).contains(atoms.net_wm_state_hidden),
        is_urgent: le_words(state_value).contains(atoms.net_wm_state_demands_attention),
    }
}

/// Get full info about a single window from the values of its properties.
pub fn window_info_from_properties(
    wid: u32,
    class_value: &[u8],
    name_value: &[u8],
    fallback_value: Option<&[u8]>,
    desktop_value: &[u8],
    pid_value: &[u8],
    state_value: &[u8],
    atoms: &AtomCache,
) -> (info: WindowInfo)
    ensures
        info@ == window_info_of(
            wid,
            class_value@,
            name_value@,
            match fallback_value {
                Some(f) => Some(f@),
                None => None,
            },
            desktop_value@,
            pid_value@,
            state_value@,
            *atoms,
        ),
{
    let (wm_instance, wm_class) = parse_wm_class(class_value);
    let mut title = parse_wm_name(name_value);
    if title.as_str().unicode_len() == 0 {
        match fallback_value {
            Some(f) => {
                title = parse_wm_name(f);
            },
            None => {},
        }
    }
    let desktop = parse_window_id(desktop_value);
    let pid = parse_window_id(pid_value);
    let wm_state = parse_wm_state_flags(
        state_value,
        atoms.net_wm_state_hidden,
        atoms.net_wm_state_demands_attention,
    );
    WindowInfo {
        id: wid,
        wm_instance,
        wm_class,
        title,
        desktop,
        pid,
        is_minimized: wm_state.is_hidden,
        is_urgent: wm_state.demands_attention,
    }
}

/// A window met while looking for a process's window: its id, the pid it
/// advertises (if readable) and its size (if readable).
#[derive(Debug, Clone, Copy)]
pub struct PidCandidate {
    pub wid: u32,
    pub pid: Option<u32>,
    pub size: Option<(u16, u16)>,
}

/// A candidate belongs to the process and has a non-trivial size.
pub open spec fn qualifies(c: PidCandidate, target_pid: u32) -> bool {
    c.pid == Some(target_pid) && match c.size {
        Some((w, h)) => w > 1 && h > 1,
        None => false,
    }
}

pub open spec fn area(c: PidCandidate) -> int {
    match c.size {
        Some((w, h)) => w * h,
        None => 0,
    }
}

/// Candidate `i` is the first qualifying one of largest area.
pub open spec fn is_pick(cs: Seq<PidCandidate>, target_pid: u32, i: int) -> bool {
    &&& 0 <= i < cs.len()
    &&& qualifies(cs[i], target_pid)
    &&& forall|j: int| 0 <= j < cs.len() && qualifies(cs[j], target_pid) ==> area(#[trigger] cs[j]) <= area(cs[i])
    &&& forall|j: int| 0 <= j < i && qualifies(cs[j], target_pid) ==> area(#[trigger] cs[j]) < area(cs[i])
}

/// Find the visible application window of process `target_pid` among the
/// candidates, in the order they were met: the first of largest area among
/// those that advertise the pid and are larger than 1x1.
pub fn pick_window_by_pid(candidates: &Vec<PidCandidate>, target_pid: u32) -> (wid: Option<u32>)
    ensures
        match wid {
            Some(w) => exists|i: int| is_pick(candidates@, target_pid, i) && candidates@[i].wid == w,
            None => forall|j: int| 0 <= j < candidates@.len() ==> !qualifies(#[trigger] candidates@[j], target_pid),
        },
{
    let ghost cs = candidates@;
    let mut best: Option<(usize, u64)> = None;
    let mut k: usize = 0;
    while k < candidates.len()
        invariant
            k <= cs.len(),
            cs == candidates@,
            match best {
                Some((i, a)) => {
                    &&& i < k
                    &&& qualifies(cs[i as int], target_pid)
                    &&& a as int == area(cs[i as int])
                    &&& forall|j: int| 0 <= j < k && qualifies(cs[j], target_pid) ==> area(#[trigger] cs[j]) <= a
                    &&& forall|j: int| 0 <= j < i && qualifies(cs[j], target_pid) ==> area(#[trigger] cs[j]) < a
                },
                None => forall|j: int| 0 <= j < k ==> !qualifies(#[trigger] cs[j], target_pid),
            },
        decreases cs.len() - k,
    {
        let c = candidates[k];
        let matches_pid = match c.pid {
            Some(p) => p == target_pid,
            None => false,
        };
        if matches_pid {
            match c.size {
                Some((w, h)) => {
                    proof {
                        assert((w as u64) * (h as u64) <= 0xffff_ffff_ffff_ffffu64) by (nonlinear_arith)
                            requires
                                w <= 0xffff,
                                h <= 0xffff,
                        ;
                    }
                    let a: u64 = (w as u64) * (h as u64);
                    if w > 1 && h > 1 {
                        let better = match best {
                            Some((_, best_area)) => a > best_area,
                            None => true,
                        };
                        if better {
                            best = Some((k, a));
                        }
                    }
                },
                None => {},
            }
        }
        k = k + 1;
    }
    match best {
        Some((i, _)) => {
            proof {
                assert(is_pick(cs, target_pid, i as int));
            }
            Some(candidates[i].wid)
        },
        None => None,
    }
}

} // verus!
