use std::collections::{HashMap, HashSet};

use vstd::prelude::*;

use crate::filter::{accepts, Filter};
pub use crate::snapshot::{SavedDisplaySlot, SavedGroup, SavedState};
use crate::snapshot::{
    claims, renames_restored, restore_parts, restored, snapshot_of, take_snapshot, window_keys,
};
use crate::search::{
    any_match, first_match, lemma_any_match_first, lemma_any_match_push, lemma_first_match,
    lemma_first_match_is, lemma_first_match_none, lemma_map_values_push, moved,
};

verus! {

broadcast use {vstd::std_specs::hash::group_hash_axioms, vstd::string::group_string_axioms};

/// A window entry tracked by PTM.
#[derive(Debug, Clone)]
pub struct WindowEntry {
    pub id: u32,
    pub wm_class: String,
    pub wm_instance: String,
    pub title: String,
    pub desktop: Option<u32>,
    pub pid: Option<u32>,
    pub is_minimized: bool,
    pub is_urgent: bool,
}

/// What a window entry holds, with its strings taken as character sequences.
pub struct WindowModel {
    pub id: u32,
    pub wm_class: Seq<char>,
    pub wm_instance: Seq<char>,
    pub title: Seq<char>,
    pub desktop: Option<u32>,
    pub pid: Option<u32>,
    pub is_minimized: bool,
    pub is_urgent: bool,
}

impl View for WindowEntry {
    type V = WindowModel;

    open spec fn view(&self) -> WindowModel {
        WindowModel {
            id: self.id,
            wm_class: self.wm_class@,
            wm_instance: self.wm_instance@,
            title: self.title@,
            desktop: self.desktop,
            pid: self.pid,
            is_minimized: self.is_minimized,
            is_urgent: self.is_urgent,
        }
    }
}

/// A tab group containing zero or more windows.
#[derive(Debug, Clone)]
pub struct Group {
    pub id: u32,
    pub name: String,
    pub collapsed: bool,
    pub members: Vec<u32>,
}

/// What a group holds.
pub struct GroupModel {
    pub id: u32,
    pub name: Seq<char>,
    pub collapsed: bool,
    pub members: Seq<u32>,
}

impl View for Group {
    type V = GroupModel;

    open spec fn view(&self) -> GroupModel {
        GroupModel {
            id: self.id,
            name: self.name@,
            collapsed: self.collapsed,
            members: self.members@,
        }
    }
}

/// A slot in the top-level display order.
#[derive(Debug, Clone, Copy, PartialEq, Eq, Structural)]
pub enum DisplaySlot {
    Window(u32),
    Group(u32),
}

/// An item to render in the sidebar.
#[derive(Debug, Clone, Copy, PartialEq, Eq, Structural)]
pub enum ItemKind {
    UngroupedWindow(u32),
    GroupHeader(u32),
    GroupedWindow(u32, u32),
}

/// Application state — the list of tracked windows and which is active.
/// Pure: no GTK or X11 types.
pub struct AppState {
    windows: Vec<WindowEntry>,
    active: Option<u32>,
    /// User-assigned names, keyed by window ID.
    renames: HashMap<u32, String>,
    /// Windows hidden by the user for this session (not persisted).
    hidden: HashSet<u32>,
    /// Tab groups.
    groups: Vec<Group>,
    /// Top-level display ordering. Windows not in this list are appended at the end.
    display_order: Vec<DisplaySlot>,
    /// Next group ID to assign.
    next_group_id: u32,
}

/// The abstract state: tracked windows in order, the active window, user
/// renames, session-hidden windows, groups, the top-level display order and
/// the next group id.
pub struct StateModel {
    pub windows: Seq<WindowModel>,
    pub active: Option<u32>,
    pub renames: Map<u32, Seq<char>>,
    pub hidden: Set<u32>,
    pub groups: Seq<GroupModel>,
    pub display_order: Seq<DisplaySlot>,
    pub next_group_id: u32,
}

pub open spec fn window_views(ws: Seq<WindowEntry>) -> Seq<WindowModel> {
    ws.map_values(|w: WindowEntry| w@)
}

pub open spec fn group_views(gs: Seq<Group>) -> Seq<GroupModel> {
    gs.map_values(|g: Group| g@)
}

pub open spec fn text_map(m: Map<u32, String>) -> Map<u32, Seq<char>> {
    Map::new(|k: u32| m.contains_key(k), |k: u32| m[k]@)
}

impl View for AppState {
    type V = StateModel;

    closed spec fn view(&self) -> StateModel {
        StateModel {
            windows: window_views(self.windows@),
            active: self.active,
            renames: text_map(self.renames@),
            hidden: self.hidden@,
            groups: group_views(self.groups@),
            display_order: self.display_order@,
            next_group_id: self.next_group_id,
        }
    }
}

// ── Predicates used to locate things ──

pub open spec fn has_wid(wid: u32) -> spec_fn(WindowModel) -> bool {
    |w: WindowModel| w.id == wid
}

pub open spec fn has_gid(gid: u32) -> spec_fn(GroupModel) -> bool {
    |g: GroupModel| g.id == gid
}

pub open spec fn has_member(wid: u32) -> spec_fn(GroupModel) -> bool {
    |g: GroupModel| g.members.contains(wid)
}

pub open spec fn is_slot(s: DisplaySlot) -> spec_fn(DisplaySlot) -> bool {
    |x: DisplaySlot| x == s
}

pub open spec fn not_slot(s: DisplaySlot) -> spec_fn(DisplaySlot) -> bool {
    |x: DisplaySlot| x != s
}

pub open spec fn other_than(x: u32) -> spec_fn(u32) -> bool {
    |y: u32| y != x
}

/// Position of the first window with id `wid`, or `-1`.
pub open spec fn window_pos(m: StateModel, wid: u32) -> int {
    first_match(m.windows, has_wid(wid))
}

/// Position of the first group with id `gid`, or `-1`.
pub open spec fn group_pos(m: StateModel, gid: u32) -> int {
    first_match(m.groups, has_gid(gid))
}

/// The native title of the first window with id `wid`, or the empty text.
pub open spec fn native_title_of(m: StateModel, wid: u32) -> Seq<char> {
    let p = window_pos(m, wid);
    if p >= 0 {
        m.windows[p].title
    } else {
        seq![]
    }
}

/// The text shown for a window: its user rename if any, else its native title.
pub open spec fn display_name_of(m: StateModel, wid: u32) -> Seq<char> {
    if m.renames.contains_key(wid) {
        m.renames[wid]
    } else {
        native_title_of(m, wid)
    }
}

/// The state after setting the title of the first window with id `wid`.
pub open spec fn with_title(m: StateModel, wid: u32, title: Seq<char>) -> StateModel {
    let p = window_pos(m, wid);
    if p >= 0 {
        StateModel { windows: m.windows.update(p, WindowModel { title: title, ..m.windows[p] }), ..m }
    } else {
        m
    }
}

/// The state after setting the minimized/urgent flags of the first window with id `wid`.
pub open spec fn with_flags(m: StateModel, wid: u32, is_minimized: bool, is_urgent: bool) -> StateModel {
    let p = window_pos(m, wid);
    if p >= 0 {
        StateModel {
            windows: m.windows.update(
                p,
                WindowModel { is_minimized: is_minimized, is_urgent: is_urgent, ..m.windows[p] },
            ),
            ..m
        }
    } else {
        m
    }
}

/// Moves the item at `from` to `to`, unless either is out of range or they are equal.
pub open spec fn moved_if_valid<T>(s: Seq<T>, from: int, to: int) -> Seq<T> {
    if from >= s.len() || to >= s.len() || from == to {
        s
    } else {
        moved(s, from, to)
    }
}

/// Reordering moves a display slot when there is a display order, and a window otherwise.
pub open spec fn reordered(m: StateModel, from: int, to: int) -> StateModel {
    if m.display_order.len() > 0 {
        StateModel { display_order: moved_if_valid(m.display_order, from, to), ..m }
    } else {
        StateModel { windows: moved_if_valid(m.windows, from, to), ..m }
    }
}

/// The state after renaming the first group with id `gid`.
pub open spec fn with_group_name(m: StateModel, gid: u32, name: Seq<char>) -> StateModel {
    let p = group_pos(m, gid);
    if p >= 0 {
        StateModel { groups: m.groups.update(p, GroupModel { name: name, ..m.groups[p] }), ..m }
    } else {
        m
    }
}

/// The state after flipping the collapsed flag of the first group with id `gid`.
pub open spec fn with_group_toggled(m: StateModel, gid: u32) -> StateModel {
    let p = group_pos(m, gid);
    if p >= 0 {
        StateModel {
            groups: m.groups.update(p, GroupModel { collapsed: !m.groups[p].collapsed, ..m.groups[p] }),
            ..m
        }
    } else {
        m
    }
}

/// The state after moving a member within the first group with id `gid`.
pub open spec fn with_group_reordered(m: StateModel, gid: u32, from: int, to: int) -> StateModel {
    let p = group_pos(m, gid);
    if p >= 0 {
        StateModel {
            groups: m.groups.update(
                p,
                GroupModel { members: moved_if_valid(m.groups[p].members, from, to), ..m.groups[p] },
            ),
            ..m
        }
    } else {
        m
    }
}

// ── Executable helpers ──

pub(crate) fn find_window(ws: &Vec<WindowEntry>, wid: u32) -> (r: Option<usize>)
    ensures
        match r {
            Some(i) => i as int == first_match(window_views(ws@), has_wid(wid)) && i < ws@.len(),
            None => first_match(window_views(ws@), has_wid(wid)) == -1,
        },
{
    let mut i: usize = 0;
    while i < ws.len()
        invariant
            i <= ws@.len(),
            forall|k: int| 0 <= k < i ==> ws@[k].id != wid,
        decreases ws@.len() - i,
    {
        if ws[i].id == wid {
            proof {
                lemma_first_match_is(window_views(ws@), has_wid(wid), i as int);
            }
            return Some(i);
        }
        i = i + 1;
    }
    proof {
        lemma_first_match_none(window_views(ws@), has_wid(wid));
    }
    None
}

pub(crate) fn find_group(gs: &Vec<Group>, gid: u32) -> (r: Option<usize>)
    ensures
        match r {
            Some(i) => i as int == first_match(group_views(gs@), has_gid(gid)) && i < gs@.len(),
            None => first_match(group_views(gs@), has_gid(gid)) == -1,
        },
{
    let mut i: usize = 0;
    while i < gs.len()
        invariant
            i <= gs@.len(),
            forall|k: int| 0 <= k < i ==> gs@[k].id != gid,
        decreases gs@.len() - i,
    {
        if gs[i].id == gid {
            proof {
                lemma_first_match_is(group_views(gs@), has_gid(gid), i as int);
            }
            return Some(i);
        }
        i = i + 1;
    }
    proof {
        lemma_first_match_none(group_views(gs@), has_gid(gid));
    }
    None
}

pub(crate) fn vec_contains(v: &Vec<u32>, x: u32) -> (r: bool)
    ensures
        r == v@.contains(x),
{
    let mut i: usize = 0;
    while i < v.len()
        invariant
            i <= v@.len(),
            forall|k: int| 0 <= k < i ==> v@[k] != x,
        decreases v@.len() - i,
    {
        if v[i] == x {
            proof {
                assert(v@[i as int] == x);
            }
            return true;
        }
        i = i + 1;
    }
    false
}

pub(crate) fn find_member_group(gs: &Vec<Group>, wid: u32) -> (r: Option<usize>)
    ensures
        match r {
            Some(i) => i as int == first_match(group_views(gs@), has_member(wid)) && i < gs@.len(),
            None => first_match(group_views(gs@), has_member(wid)) == -1,
        },
{
    let mut i: usize = 0;
    while i < gs.len()
        invariant
            i <= gs@.len(),
            forall|k: int| 0 <= k < i ==> !gs@[k].members@.contains(wid),
        decreases gs@.len() - i,
    {
        if vec_contains(&gs[i].members, wid) {
            proof {
                lemma_first_match_is(group_views(gs@), has_member(wid), i as int);
            }
            return Some(i);
        }
        i = i + 1;
    }
    proof {
        lemma_first_match_none(group_views(gs@), has_member(wid));
    }
    None
}

fn find_slot(d: &Vec<DisplaySlot>, s: DisplaySlot) -> (r: Option<usize>)
    ensures
        match r {
            Some(i) => i as int == first_match(d@, is_slot(s)) && i < d@.len(),
            None => first_match(d@, is_slot(s)) == -1,
        },
{
    let mut i: usize = 0;
    while i < d.len()
        invariant
            i <= d@.len(),
            forall|k: int| 0 <= k < i ==> d@[k] != s,
        decreases d@.len() - i,
    {
        if d[i] == s {
            proof {
                lemma_first_match_is(d@, is_slot(s), i as int);
            }
            return Some(i);
        }
        i = i + 1;
    }
    proof {
        lemma_first_match_none(d@, is_slot(s));
    }
    None
}

impl AppState {
    pub fn new() -> (s: Self)
        ensures
            s@.windows == Seq::<WindowModel>::empty(),
            s@.active is None,
            s@.renames == Map::<u32, Seq<char>>::empty(),
            s@.hidden == Set::<u32>::empty(),
            s@.groups == Seq::<GroupModel>::empty(),
            s@.display_order == Seq::<DisplaySlot>::empty(),
            s@.next_group_id == 1,
    {
        let s = Self {
            windows: Vec::new(),
            active: None,
            renames: HashMap::new(),
            hidden: HashSet::new(),
            groups: Vec::new(),
            display_order: Vec::new(),
            next_group_id: 1,
        };
        proof {
            assert(s@.windows =~= Seq::<WindowModel>::empty());
            assert(s@.renames =~= Map::<u32, Seq<char>>::empty());
            assert(s@.groups =~= Seq::<GroupModel>::empty());
        }
        s
    }

    pub fn windows(&self) -> (ws: &[WindowEntry])
        ensures
            window_views(ws@) == self@.windows,
    {
        self.windows.as_slice()
    }

    pub fn active_window(&self) -> (a: Option<u32>)
        ensures
            a == self@.active,
    {
        self.active
    }

    /// Update a single window's native title without a full refresh.
    pub fn update_title(&mut self, wid: u32, title: &str)
        ensures
            final(self)@ == with_title(old(self)@, wid, title@),
    {
        if let Some(i) = find_window(&self.windows, wid) {
            let mut w = self.windows.remove(i);
            w.title = title.to_string();
            self.windows.insert(i, w);
            proof {
                assert(self@.windows =~= with_title(old(self)@, wid, title@).windows);
            }
        }
    }

    /// Update a window's minimized/urgent state without a full refresh.
    pub fn update_state(&mut self, wid: u32, is_minimized: bool, is_urgent: bool)
        ensures
            final(self)@ == with_flags(old(self)@, wid, is_minimized, is_urgent),
    {
        if let Some(i) = find_window(&self.windows, wid) {
            let mut w = self.windows.remove(i);
            w.is_minimized = is_minimized;
            w.is_urgent = is_urgent;
            self.windows.insert(i, w);
            proof {
                assert(self@.windows =~= with_flags(old(self)@, wid, is_minimized, is_urgent).windows);
            }
        }
    }

    pub fn set_active(&mut self, wid: Option<u32>)
        ensures
            final(self)@ == (StateModel { active: wid, ..old(self)@ }),
    {
        self.active = wid;
    }

    /// Set a user-assigned name for a window.
    pub fn rename_window(&mut self, wid: u32, name: &str)
        ensures
            final(self)@ == (if window_pos(old(self)@, wid) >= 0 {
                StateModel { renames: old(self)@.renames.insert(wid, name@), ..old(self)@ }
            } else {
                old(self)@
            }),
    {
        proof {
            lemma_first_match(self@.windows, has_wid(wid));
        }
        if find_window(&self.windows, wid).is_some() {
            self.renames.insert(wid, name.to_string());
            proof {
                assert(self@.renames =~= old(self)@.renames.insert(wid, name@));
            }
        }
    }

    /// Clear the user-assigned name, reverting to native title.
    pub fn clear_rename(&mut self, wid: u32)
        ensures
            final(self)@ == (StateModel { renames: old(self)@.renames.remove(wid), ..old(self)@ }),
    {
        self.renames.remove(&wid);
        proof {
            assert(self@.renames =~= old(self)@.renames.remove(wid));
        }
    }

    /// Get the display name: user rename if set, otherwise native title.
    pub fn display_name(&self, wid: u32) -> (name: &str)
        ensures
            name@ == display_name_of(self@, wid),
    {
        match self.renames.get(&wid) {
            Some(name) => name.as_str(),
            None => self.native_title(wid),
        }
    }

    /// Get the native X11 title (regardless of rename).
    pub fn native_title(&self, wid: u32) -> (title: &str)
        ensures
            title@ == native_title_of(self@, wid),
    {
        match find_window(&self.windows, wid) {
            Some(i) => self.windows[i].title.as_str(),
            None => {
                proof {
                    reveal_strlit("");
                }
                ""
            },
        }
    }

    /// Hide a window from the sidebar for this session (not persisted).
    pub fn hide_window(&mut self, wid: u32)
        ensures
            final(self)@ == (StateModel { hidden: old(self)@.hidden.insert(wid), ..old(self)@ }),
    {
        self.hidden.insert(wid);
    }

    /// Get the desktop number for a window.
    pub fn window_desktop(&self, wid: u32) -> (d: Option<u32>)
        ensures
            d == (if window_pos(self@, wid) >= 0 {
                self@.windows[window_pos(self@, wid)].desktop
            } else {
                None
            }),
    {
        match find_window(&self.windows, wid) {
            Some(i) => self.windows[i].desktop,
            None => None,
        }
    }

    /// Check if a window has a user-assigned rename.
    pub fn has_rename(&self, wid: u32) -> (r: bool)
        ensures
            r == self@.renames.contains_key(wid),
    {
        self.renames.contains_key(&wid)
    }

    /// Move a window from one position to another in the display order.
    /// Operates on the `display_order` list. Out-of-bounds indices are silently ignored.
    pub fn reorder(&mut self, from: usize, to: usize)
        ensures
            final(self)@ == reordered(old(self)@, from as int, to as int),
    {
        if !self.display_order.is_empty() {
            let len = self.display_order.len();
            if from >= len || to >= len || from == to {
                return;
            }
            let slot = self.display_order.remove(from);
            self.display_order.insert(to, slot);
        } else {
            let len = self.windows.len();
            if from >= len || to >= len || from == to {
                return;
            }
            let entry = self.windows.remove(from);
            self.windows.insert(to, entry);
            proof {
                assert(self@.windows =~= moved(old(self)@.windows, from as int, to as int));
            }
        }
    }

    // ── Group operations ──

    /// Look up a group by ID.
    pub fn group(&self, gid: u32) -> (g: Option<&Group>)
        ensures
            match g {
                Some(g) => group_pos(self@, gid) >= 0 && g@ == self@.groups[group_pos(self@, gid)],
                None => group_pos(self@, gid) == -1,
            },
    {
        match find_group(&self.groups, gid) {
            Some(i) => Some(&self.groups[i]),
            None => None,
        }
    }

    /// Find the group ID a window belongs to, if any.
    pub fn window_group(&self, wid: u32) -> (g: Option<u32>)
        ensures
            match g {
                Some(id) => {
                    let p = first_match(self@.groups, has_member(wid));
                    p >= 0 && id == self@.groups[p].id
                },
                None => first_match(self@.groups, has_member(wid)) == -1,
            },
    {
        match find_member_group(&self.groups, wid) {
            Some(i) => Some(self.groups[i].id),
            None => None,
        }
    }

    pub fn rename_group(&mut self, gid: u32, name: &str)
        ensures
            final(self)@ == with_group_name(old(self)@, gid, name@),
    {
        if let Some(i) = find_group(&self.groups, gid) {
            let mut g = self.groups.remove(i);
            g.name = name.to_string();
            self.groups.insert(i, g);
            proof {
                assert(self@.groups =~= with_group_name(old(self)@, gid, name@).groups);
            }
        }
    }

    pub fn toggle_group_collapsed(&mut self, gid: u32)
        ensures
            final(self)@ == with_group_toggled(old(self)@, gid),
    {
        if let Some(i) = find_group(&self.groups, gid) {
            let mut g = self.groups.remove(i);
            g.collapsed = !g.collapsed;
            self.groups.insert(i, g);
            proof {
                assert(self@.groups =~= with_group_toggled(old(self)@, gid).groups);
            }
        }
    }

    /// Reorder windows within a group.
    pub fn reorder_in_group(&mut self, gid: u32, from: usize, to: usize)
        ensures
            final(self)@ == with_group_reordered(old(self)@, gid, from as int, to as int),
    {
        if let Some(i) = find_group(&self.groups, gid) {
            let mut g = self.groups.remove(i);
            let len = g.members.len();
            if !(from >= len || to >= len || from == to) {
                let wid = g.members.remove(from);
                g.members.insert(to, wid);
            }
            self.groups.insert(i, g);
            proof {
                assert(self@.groups =~= with_group_reordered(old(self)@, gid, from as int, to as int).groups);
            }
        }
    }
}


// ── Group membership and display-order operations ──

/// `s` without any occurrence of `x`.
pub open spec fn without(s: Seq<u32>, x: u32) -> Seq<u32> {
    s.filter(other_than(x))
}

/// Every group with `wid` taken out of its members.
pub open spec fn groups_without(gs: Seq<GroupModel>, wid: u32) -> Seq<GroupModel> {
    gs.map_values(|g: GroupModel| GroupModel { members: without(g.members, wid), ..g })
}

pub open spec fn window_slot(w: WindowModel) -> DisplaySlot {
    DisplaySlot::Window(w.id)
}

pub open spec fn member_slot(wid: u32) -> DisplaySlot {
    DisplaySlot::Window(wid)
}

/// The display order, or — when it is empty — one window slot per tracked
/// window, in window order.
pub open spec fn ensured_order(m: StateModel) -> Seq<DisplaySlot> {
    if m.display_order.len() == 0 {
        m.windows.map_values(|w: WindowModel| window_slot(w))
    } else {
        m.display_order
    }
}

pub open spec fn fresh_group(gid: u32, name: Seq<char>, members: Seq<u32>) -> GroupModel {
    GroupModel { id: gid, name: name, collapsed: false, members: members }
}

/// The state after creating an empty group named `name`, appended to the display order.
pub open spec fn with_new_group(m: StateModel, name: Seq<char>) -> StateModel {
    let gid = m.next_group_id;
    StateModel {
        groups: m.groups.push(fresh_group(gid, name, seq![])),
        display_order: ensured_order(m).push(DisplaySlot::Group(gid)),
        next_group_id: (gid + 1) as u32,
        ..m
    }
}

/// The display order after putting group `gid` in place of the first slot of
/// window `wid`, or at the end when there is no such slot.
pub open spec fn order_with_group_at_window(d: Seq<DisplaySlot>, wid: u32, gid: u32) -> Seq<DisplaySlot> {
    let p = first_match(d, is_slot(DisplaySlot::Window(wid)));
    if p >= 0 {
        d.update(p, DisplaySlot::Group(gid))
    } else {
        d.push(DisplaySlot::Group(gid))
    }
}

/// The state after creating a group holding just `wid`, taken out of any other group.
pub open spec fn with_new_group_of(m: StateModel, name: Seq<char>, wid: u32) -> StateModel {
    let gid = m.next_group_id;
    StateModel {
        groups: groups_without(m.groups, wid).push(fresh_group(gid, name, seq![wid])),
        display_order: order_with_group_at_window(ensured_order(m), wid, gid),
        next_group_id: (gid + 1) as u32,
        ..m
    }
}

pub open spec fn not_gid(gid: u32) -> spec_fn(GroupModel) -> bool {
    |g: GroupModel| g.id != gid
}

/// The members of the first group with id `gid`, or none.
pub open spec fn members_of(m: StateModel, gid: u32) -> Seq<u32> {
    let p = group_pos(m, gid);
    if p >= 0 {
        m.groups[p].members
    } else {
        seq![]
    }
}

/// The display order with the first slot of group `gid` replaced by window
/// slots for `members`, in order.
pub open spec fn order_with_group_spread(d: Seq<DisplaySlot>, gid: u32, members: Seq<u32>) -> Seq<DisplaySlot> {
    let q = first_match(d, is_slot(DisplaySlot::Group(gid)));
    if q >= 0 {
        d.take(q) + members.map_values(|w: u32| member_slot(w)) + d.skip(q + 1)
    } else {
        d
    }
}

/// The state after deleting every group with id `gid`; the members of the
/// first one take its place in the display order.
pub open spec fn with_group_deleted(m: StateModel, gid: u32) -> StateModel {
    StateModel {
        groups: m.groups.filter(not_gid(gid)),
        display_order: order_with_group_spread(m.display_order, gid, members_of(m, gid)),
        ..m
    }
}

/// The state after moving `wid` into group `gid` (out of any other group and
/// out of the top-level order); nothing changes when there is no such group.
pub open spec fn with_member_added(m: StateModel, wid: u32, gid: u32) -> StateModel {
    let p = group_pos(m, gid);
    if p >= 0 {
        let gs = groups_without(m.groups, wid);
        StateModel {
            groups: gs.update(p, GroupModel { members: gs[p].members.push(wid), ..gs[p] }),
            display_order: ensured_order(m).filter(not_slot(DisplaySlot::Window(wid))),
            ..m
        }
    } else {
        m
    }
}

/// The state after taking `wid` out of every group; when it was in one, it
/// re-enters the display order just after the first slot of the first such
/// group (or at the end).
pub open spec fn with_member_removed(m: StateModel, wid: u32) -> StateModel {
    let f = first_match(m.groups, has_member(wid));
    if f >= 0 {
        let q = first_match(m.display_order, is_slot(DisplaySlot::Group(m.groups[f].id)));
        let pos = if q >= 0 { q + 1 } else { m.display_order.len() as int };
        StateModel {
            groups: groups_without(m.groups, wid),
            display_order: m.display_order.insert(pos, DisplaySlot::Window(wid)),
            ..m
        }
    } else {
        StateModel { groups: groups_without(m.groups, wid), ..m }
    }
}

// ── Refresh from a fresh window list ──

/// Whether some window in `ws` has id `id`.
pub open spec fn present(ws: Seq<WindowModel>, id: u32) -> bool {
    any_match(ws, has_wid(id))
}

/// The last entry with id `id` (the one a later duplicate overrides with).
pub open spec fn last_entry(es: Seq<WindowModel>, id: u32) -> WindowModel {
    es.reverse()[first_match(es.reverse(), has_wid(id))]
}

/// Existing windows that are still reported, each kept once (at its first
/// position), with title and desktop taken from the report.
pub open spec fn refreshed(old: Seq<WindowModel>, entries: Seq<WindowModel>) -> Seq<WindowModel>
    decreases old.len(),
{
    if old.len() == 0 {
        seq![]
    } else {
        let prev = refreshed(old.drop_last(), entries);
        let w = old.last();
        if present(entries, w.id) && !present(old.drop_last(), w.id) {
            let e = last_entry(entries, w.id);
            prev.push(WindowModel { title: e.title, desktop: e.desktop, ..w })
        } else {
            prev
        }
    }
}

/// Window ids occur at most once.
pub open spec fn distinct_ids(ws: Seq<WindowModel>) -> bool {
    forall|i: int, j: int| 0 <= i < j < ws.len() ==> #[trigger] ws[i].id != #[trigger] ws[j].id
}

pub open spec fn reported_in(entries: Seq<WindowModel>) -> spec_fn(WindowModel) -> bool {
    |w: WindowModel| present(entries, w.id)
}

pub open spec fn retitled_from(entries: Seq<WindowModel>) -> spec_fn(WindowModel) -> WindowModel {
    |w: WindowModel|
        WindowModel { title: last_entry(entries, w.id).title, desktop: last_entry(entries, w.id).desktop, ..w }
}

/// With distinct ids, the kept windows are exactly the old windows that are
/// still reported, in their old order, each with the title and desktop of its
/// report.
pub proof fn lemma_refreshed_closed(old: Seq<WindowModel>, entries: Seq<WindowModel>)
    requires
        distinct_ids(old),
    ensures
        refreshed(old, entries) == old.filter(reported_in(entries)).map_values(retitled_from(entries)),
    decreases old.len(),
{
    if old.len() > 0 {
        let dl = old.drop_last();
        let w = old.last();
        assert(distinct_ids(dl));
        lemma_refreshed_closed(dl, entries);
        assert forall|k: int| 0 <= k < dl.len() implies !#[trigger] has_wid(w.id)(dl[k]) by {
            assert(old[k] == dl[k]);
        }
        lemma_first_match_none(dl, has_wid(w.id));
        lemma_any_match_first(dl, has_wid(w.id));
        assert(old =~= dl.push(w));
        dl.lemma_filter_push(w, reported_in(entries));
        lemma_map_values_push(dl.filter(reported_in(entries)), w, retitled_from(entries));
    }
}

pub open spec fn absent_from(ws: Seq<WindowModel>) -> spec_fn(WindowModel) -> bool {
    |e: WindowModel| !present(ws, e.id)
}

/// The window list after a refresh: surviving windows in their old order, then
/// newly reported windows in report order.
pub open spec fn refreshed_windows(old: Seq<WindowModel>, entries: Seq<WindowModel>) -> Seq<WindowModel> {
    let kept = refreshed(old, entries);
    kept + entries.filter(absent_from(kept))
}

pub open spec fn live_in(ws: Seq<WindowModel>) -> spec_fn(u32) -> bool {
    |x: u32| present(ws, x)
}

pub open spec fn slot_live(ws: Seq<WindowModel>, gs: Seq<GroupModel>) -> spec_fn(DisplaySlot) -> bool {
    |s: DisplaySlot|
        match s {
            DisplaySlot::Window(w) => present(ws, w),
            DisplaySlot::Group(g) => any_match(gs, has_gid(g)),
        }
}

/// The state after a refresh from `entries`: windows refreshed, renames of
/// vanished windows dropped, hidden set cleared, vanished windows taken out of
/// groups and of the display order.
pub open spec fn with_windows_refreshed(m: StateModel, entries: Seq<WindowModel>) -> StateModel {
    let nw = refreshed_windows(m.windows, entries);
    StateModel {
        windows: nw,
        renames: Map::new(|k: u32| m.renames.contains_key(k) && present(nw, k), |k: u32| m.renames[k]),
        hidden: Set::empty(),
        groups: m.groups.map_values(|g: GroupModel| GroupModel { members: g.members.filter(live_in(nw)), ..g }),
        display_order: m.display_order.filter(slot_live(nw, m.groups)),
        ..m
    }
}

/// Whether a window is listed under `filter` (lower-cased classes) when
/// `hidden` windows are left out.
pub open spec fn shown_by(lowered: Seq<Seq<char>>, hidden: Set<u32>) -> spec_fn(WindowModel) -> bool {
    |w: WindowModel| accepts(lowered, w.wm_class) && !hidden.contains(w.id)
}

pub open spec fn ref_views(ws: Seq<&WindowEntry>) -> Seq<WindowModel> {
    ws.map_values(|w: &WindowEntry| w@)
}

// ── Executable helpers for membership edits ──

fn without_value(v: &Vec<u32>, x: u32) -> (r: Vec<u32>)
    ensures
        r@ == without(v@, x),
{
    let mut r: Vec<u32> = Vec::new();
    let mut i: usize = 0;
    while i < v.len()
        invariant
            i <= v@.len(),
            r@ == v@.take(i as int).filter(other_than(x)),
        decreases v@.len() - i,
    {
        proof {
            assert(v@.take(i + 1) =~= v@.take(i as int).push(v@[i as int]));
            v@.take(i as int).lemma_filter_push(v@[i as int], other_than(x));
        }
        if v[i] != x {
            r.push(v[i]);
        }
        i = i + 1;
    }
    proof {
        assert(v@.take(v@.len() as int) =~= v@);
    }
    r
}

fn strip_member(gs: &mut Vec<Group>, wid: u32)
    ensures
        group_views(final(gs)@) == groups_without(group_views(old(gs)@), wid),
        final(gs)@.len() == old(gs)@.len(),
{
    let ghost orig = group_views(gs@);
    let mut i: usize = 0;
    while i < gs.len()
        invariant
            i <= gs@.len(),
            gs@.len() == orig.len(),
            forall|k: int| 0 <= k < i ==> #[trigger] gs@[k]@ == groups_without(orig, wid)[k],
            forall|k: int| i <= k < gs@.len() ==> #[trigger] gs@[k]@ == orig[k],
        decreases gs@.len() - i,
    {
        let ghost before = gs@;
        assert(before[i as int]@ == orig[i as int]);
        let mut g = gs.remove(i);
        g.members = without_value(&g.members, wid);
        gs.insert(i, g);
        proof {
            assert(gs@ =~= before.update(i as int, g));
            assert(gs@[i as int]@ == groups_without(orig, wid)[i as int]);
        }
        i = i + 1;
    }
    proof {
        assert(group_views(gs@) =~= groups_without(orig, wid));
    }
}

fn drop_slot(d: &mut Vec<DisplaySlot>, s: DisplaySlot)
    ensures
        final(d)@ == old(d)@.filter(not_slot(s)),
{
    let ghost orig = d@;
    let mut src: Vec<DisplaySlot> = Vec::new();
    std::mem::swap(&mut src, d);
    let mut i: usize = 0;
    while i < src.len()
        invariant
            src@ == orig,
            i <= orig.len(),
            d@ == orig.take(i as int).filter(not_slot(s)),
        decreases orig.len() - i,
    {
        proof {
            assert(orig.take(i + 1) =~= orig.take(i as int).push(orig[i as int]));
            orig.take(i as int).lemma_filter_push(orig[i as int], not_slot(s));
        }
        if src[i] != s {
            d.push(src[i]);
        }
        i = i + 1;
    }
    proof {
        assert(orig.take(orig.len() as int) =~= orig);
    }
}

pub(crate) fn copy_values(v: &Vec<u32>) -> (r: Vec<u32>)
    ensures
        r@ == v@,
{
    let mut r: Vec<u32> = Vec::new();
    let mut i: usize = 0;
    while i < v.len()
        invariant
            i <= v@.len(),
            r@ == v@.take(i as int),
        decreases v@.len() - i,
    {
        r.push(v[i]);
        proof {
            assert(v@.take(i + 1) =~= v@.take(i as int).push(v@[i as int]));
        }
        i = i + 1;
    }
    proof {
        assert(v@.take(v@.len() as int) =~= v@);
    }
    r
}

pub(crate) fn copy_entry(w: &WindowEntry) -> (r: WindowEntry)
    ensures
        r@ == w@,
{
    WindowEntry {
        id: w.id,
        wm_class: w.wm_class.clone(),
        wm_instance: w.wm_instance.clone(),
        title: w.title.clone(),
        desktop: w.desktop,
        pid: w.pid,
        is_minimized: w.is_minimized,
        is_urgent: w.is_urgent,
    }
}

fn has_window(ws: &Vec<WindowEntry>, upto: usize, id: u32) -> (r: bool)
    requires
        upto <= ws@.len(),
    ensures
        r == present(window_views(ws@).take(upto as int), id),
{
    let ghost s = window_views(ws@).take(upto as int);
    let mut i: usize = 0;
    while i < upto
        invariant
            i <= upto <= ws@.len(),
            s == window_views(ws@).take(upto as int),
            forall|k: int| 0 <= k < i ==> ws@[k].id != id,
        decreases upto - i,
    {
        if ws[i].id == id {
            proof {
                assert(has_wid(id)(s[i as int]));
            }
            return true;
        }
        i = i + 1;
    }
    proof {
        assert forall|k: int| 0 <= k < s.len() implies !has_wid(id)(#[trigger] s[k]) by {
            assert(s[k] == ws@[k]@);
        }
    }
    false
}

fn last_entry_index(es: &Vec<WindowEntry>, id: u32) -> (r: Option<usize>)
    ensures
        match r {
            Some(j) => j < es@.len() && present(window_views(es@), id) && window_views(es@)[j as int]
                == last_entry(window_views(es@), id),
            None => !present(window_views(es@), id),
        },
{
    let ghost s = window_views(es@);
    let ghost rs = s.reverse();
    let mut i: usize = es.len();
    while i > 0
        invariant
            i <= es@.len(),
            s == window_views(es@),
            rs == s.reverse(),
            forall|k: int| i <= k < es@.len() ==> es@[k].id != id,
        decreases i,
    {
        if es[i - 1].id == id {
            proof {
                let r = (es@.len() - i) as int;
                assert forall|k: int| 0 <= k < r implies !has_wid(id)(#[trigger] rs[k]) by {
                    assert(rs[k] == s[s.len() - 1 - k]);
                }
                assert(rs[r] == s[i - 1]);
                lemma_first_match_is(rs, has_wid(id), r);
                assert(has_wid(id)(s[i - 1]));
            }
            return Some(i - 1);
        }
        i = i - 1;
    }
    proof {
        assert forall|k: int| 0 <= k < s.len() implies !has_wid(id)(#[trigger] s[k]) by {
            assert(s[k] == es@[k]@);
        }
    }
    None
}

fn drop_groups_with_id(gs: &mut Vec<Group>, gid: u32)
    ensures
        group_views(final(gs)@) == group_views(old(gs)@).filter(not_gid(gid)),
{
    let ghost orig = group_views(gs@);
    let mut src: Vec<Group> = Vec::new();
    std::mem::swap(&mut src, gs);
    let mut i: usize = 0;
    while i < src.len()
        invariant
            i <= src@.len(),
            group_views(src@) == orig,
            group_views(gs@) == orig.take(i as int).filter(not_gid(gid)),
        decreases src@.len() - i,
    {
        proof {
            assert(orig.take(i + 1) =~= orig.take(i as int).push(orig[i as int]));
            orig.take(i as int).lemma_filter_push(orig[i as int], not_gid(gid));
        }
        if src[i].id != gid {
            let g = Group {
                id: src[i].id,
                name: src[i].name.clone(),
                collapsed: src[i].collapsed,
                members: copy_values(&src[i].members),
            };
            gs.push(g);
            proof {
                assert(group_views(gs@) =~= orig.take(i + 1).filter(not_gid(gid)));
            }
        }
        i = i + 1;
    }
    proof {
        assert(orig.take(orig.len() as int) =~= orig);
    }
}

fn spread_group(d: &mut Vec<DisplaySlot>, gid: u32, members: &Vec<u32>)
    ensures
        final(d)@ == order_with_group_spread(old(d)@, gid, members@),
{
    if let Some(pos) = find_slot(d, DisplaySlot::Group(gid)) {
        let ghost d0 = d@;
        d.remove(pos);
        let mut k: usize = 0;
        while k < members.len()
            invariant
                pos < d0.len(),
                k <= members@.len(),
                d@.len() == d0.len() - 1 + k,
                d@ == d0.take(pos as int) + members@.take(k as int).map_values(
                    |w: u32| member_slot(w),
                ) + d0.skip(pos + 1),
            decreases members@.len() - k,
        {
            let cur = d.len();
            assert(pos + k <= cur);
            d.insert(pos + k, DisplaySlot::Window(members[k]));
            proof {
                assert(members@.take(k + 1) =~= members@.take(k as int).push(members@[k as int]));
                assert(d@ =~= d0.take(pos as int) + members@.take(k + 1).map_values(
                    |w: u32| member_slot(w),
                ) + d0.skip(pos + 1));
            }
            k = k + 1;
        }
        proof {
            assert(members@.take(members@.len() as int) =~= members@);
        }
    }
}

proof fn lemma_refreshed_step(ow: Seq<WindowModel>, es: Seq<WindowModel>, i: int)
    requires
        0 <= i < ow.len(),
    ensures
        refreshed(ow.take(i + 1), es) == (if present(es, ow[i].id) && !present(ow.take(i), ow[i].id) {
            refreshed(ow.take(i), es).push(
                WindowModel {
                    title: last_entry(es, ow[i].id).title,
                    desktop: last_entry(es, ow[i].id).desktop,
                    ..ow[i]
                },
            )
        } else {
            refreshed(ow.take(i), es)
        }),
{
    assert(ow.take(i + 1).drop_last() =~= ow.take(i));
    assert(ow.take(i + 1).last() == ow[i]);
}

fn refreshed_copy(w: &WindowEntry, e: &WindowEntry) -> (r: WindowEntry)
    ensures
        r@ == (WindowModel { title: e@.title, desktop: e@.desktop, ..w@ }),
{
    WindowEntry {
        id: w.id,
        wm_class: w.wm_class.clone(),
        wm_instance: w.wm_instance.clone(),
        title: e.title.clone(),
        desktop: e.desktop,
        pid: w.pid,
        is_minimized: w.is_minimized,
        is_urgent: w.is_urgent,
    }
}

#[verifier::rlimit(40)]
fn kept_windows(old: &Vec<WindowEntry>, entries: &Vec<WindowEntry>) -> (r: Vec<WindowEntry>)
    ensures
        window_views(r@) == refreshed(window_views(old@), window_views(entries@)),
{
    let ghost ow = window_views(old@);
    let ghost es = window_views(entries@);
    let mut kept: Vec<WindowEntry> = Vec::new();
    let mut i: usize = 0;
    proof {
        assert(ow.take(0) =~= Seq::<WindowModel>::empty());
        assert(window_views(kept@) =~= Seq::<WindowModel>::empty());
    }
    while i < old.len()
        invariant
            i <= old@.len(),
            ow == window_views(old@),
            es == window_views(entries@),
            window_views(kept@) == refreshed(ow.take(i as int), es),
        decreases old@.len() - i,
    {
        proof {
            lemma_refreshed_step(ow, es, i as int);
        }
        let w = &old[i];
        let ghost kept_before = kept@;
        if !has_window(old, i, w.id) {
            if let Some(j) = last_entry_index(entries, w.id) {
                let c = refreshed_copy(w, &entries[j]);
                kept.push(c);
                proof {
                    assert(window_views(kept@) =~= window_views(kept_before).push(c@));
                }
            }
        }
        i = i + 1;
    }
    proof {
        assert(ow.take(old@.len() as int) =~= ow);
    }
    kept
}

fn append_arrivals(kept: &mut Vec<WindowEntry>, entries: &Vec<WindowEntry>)
    ensures
        window_views(final(kept)@) == window_views(old(kept)@) + window_views(entries@).filter(
            absent_from(window_views(old(kept)@)),
        ),
{
    let ghost es = window_views(entries@);
    let ghost r0 = window_views(kept@);
    let n_kept = kept.len();
    proof {
        assert(es.take(0) =~= Seq::<WindowModel>::empty());
        reveal(Seq::filter);
        assert(window_views(kept@) =~= r0 + es.take(0).filter(absent_from(r0)));
    }
    let mut j: usize = 0;
    while j < entries.len()
        invariant
            j <= entries@.len(),
            es == window_views(entries@),
            n_kept == r0.len(),
            n_kept <= kept@.len(),
            window_views(kept@) == r0 + es.take(j as int).filter(absent_from(r0)),
        decreases entries@.len() - j,
    {
        proof {
            assert(es.take(j + 1) =~= es.take(j as int).push(es[j as int]));
            es.take(j as int).lemma_filter_push(es[j as int], absent_from(r0));
            assert(window_views(kept@).take(n_kept as int) =~= r0);
        }
        let e = &entries[j];
        let ghost kept_before = kept@;
        if !has_window(&kept, n_kept, e.id) {
            let c = copy_entry(e);
            kept.push(c);
            proof {
                assert(c@ == es[j as int]);
                assert(window_views(kept@) =~= window_views(kept_before).push(es[j as int]));
                assert(absent_from(r0)(es[j as int]));
                assert(window_views(kept@) =~= r0 + es.take(j + 1).filter(absent_from(r0)));
            }
        } else {
            proof {
                assert(window_views(kept@) =~= r0 + es.take(j + 1).filter(absent_from(r0)));
            }
        }
        j = j + 1;
    }
    proof {
        assert(es.take(entries@.len() as int) =~= es);
    }
}

fn refreshed_list(old: &Vec<WindowEntry>, entries: &Vec<WindowEntry>) -> (r: Vec<WindowEntry>)
    ensures
        window_views(r@) == refreshed_windows(window_views(old@), window_views(entries@)),
{
    let mut kept = kept_windows(old, entries);
    append_arrivals(&mut kept, entries);
    kept
}

fn live_members(v: &Vec<u32>, ws: &Vec<WindowEntry>) -> (r: Vec<u32>)
    ensures
        r@ == v@.filter(live_in(window_views(ws@))),
{
    let ghost nw = window_views(ws@);
    let mut r: Vec<u32> = Vec::new();
    let mut i: usize = 0;
    while i < v.len()
        invariant
            i <= v@.len(),
            nw == window_views(ws@),
            r@ == v@.take(i as int).filter(live_in(nw)),
        decreases v@.len() - i,
    {
        proof {
            assert(v@.take(i + 1) =~= v@.take(i as int).push(v@[i as int]));
            v@.take(i as int).lemma_filter_push(v@[i as int], live_in(nw));
            assert(nw.take(ws@.len() as int) =~= nw);
        }
        if has_window(ws, ws.len(), v[i]) {
            r.push(v[i]);
        }
        i = i + 1;
    }
    proof {
        assert(v@.take(v@.len() as int) =~= v@);
    }
    r
}

fn prune_groups(gs: &mut Vec<Group>, ws: &Vec<WindowEntry>)
    ensures
        group_views(final(gs)@) == group_views(old(gs)@).map_values(
            |g: GroupModel| GroupModel { members: g.members.filter(live_in(window_views(ws@))), ..g },
        ),
{
    let ghost orig = group_views(gs@);
    let ghost target = orig.map_values(
        |g: GroupModel| GroupModel { members: g.members.filter(live_in(window_views(ws@))), ..g },
    );
    let mut i: usize = 0;
    while i < gs.len()
        invariant
            i <= gs@.len(),
            gs@.len() == orig.len(),
            target == orig.map_values(
                |g: GroupModel| GroupModel { members: g.members.filter(live_in(window_views(ws@))), ..g },
            ),
            forall|k: int| 0 <= k < i ==> #[trigger] gs@[k]@ == target[k],
            forall|k: int| i <= k < gs@.len() ==> #[trigger] gs@[k]@ == orig[k],
        decreases gs@.len() - i,
    {
        let ghost before = gs@;
        assert(before[i as int]@ == orig[i as int]);
        let mut g = gs.remove(i);
        g.members = live_members(&g.members, ws);
        gs.insert(i, g);
        proof {
            assert(gs@ =~= before.update(i as int, g));
            assert(gs@[i as int]@ == target[i as int]);
        }
        i = i + 1;
    }
    proof {
        assert(group_views(gs@) =~= target);
    }
}

fn prune_order(d: &Vec<DisplaySlot>, ws: &Vec<WindowEntry>, gs: &Vec<Group>) -> (r: Vec<DisplaySlot>)
    ensures
        r@ == d@.filter(slot_live(window_views(ws@), group_views(gs@))),
{
    let ghost nw = window_views(ws@);
    let ghost gv = group_views(gs@);
    let mut r: Vec<DisplaySlot> = Vec::new();
    let mut i: usize = 0;
    while i < d.len()
        invariant
            i <= d@.len(),
            nw == window_views(ws@),
            gv == group_views(gs@),
            r@ == d@.take(i as int).filter(slot_live(nw, gv)),
        decreases d@.len() - i,
    {
        proof {
            assert(d@.take(i + 1) =~= d@.take(i as int).push(d@[i as int]));
            d@.take(i as int).lemma_filter_push(d@[i as int], slot_live(nw, gv));
            assert(nw.take(ws@.len() as int) =~= nw);
        }
        let keep = match d[i] {
            DisplaySlot::Window(w) => has_window(ws, ws.len(), w),
            DisplaySlot::Group(g) => {
                proof {
                    crate::search::lemma_any_match_first(gv, has_gid(g));
                }
                find_group(gs, g).is_some()
            },
        };
        if keep {
            r.push(d[i]);
        }
        i = i + 1;
    }
    proof {
        assert(d@.take(d@.len() as int) =~= d@);
    }
    r
}

fn live_renames(renames: &HashMap<u32, String>, ws: &Vec<WindowEntry>) -> (r: HashMap<u32, String>)
    ensures
        text_map(r@) == Map::new(
            |k: u32| text_map(renames@).contains_key(k) && present(window_views(ws@), k),
            |k: u32| text_map(renames@)[k],
        ),
{
    let ghost nw = window_views(ws@);
    let ghost old_map = text_map(renames@);
    let mut r: HashMap<u32, String> = HashMap::new();
    let mut i: usize = 0;
    while i < ws.len()
        invariant
            i <= ws@.len(),
            nw == window_views(ws@),
            old_map == text_map(renames@),
            text_map(r@) == Map::new(
                |k: u32| old_map.contains_key(k) && present(nw.take(i as int), k),
                |k: u32| old_map[k],
            ),
        decreases ws@.len() - i,
    {
        let id = ws[i].id;
        proof {
            assert(nw.take(i + 1) =~= nw.take(i as int).push(nw[i as int]));
            assert forall|k: u32| #[trigger] present(nw.take(i + 1), k) == (present(nw.take(i as int), k) || nw[i as int].id == k) by {
                lemma_any_match_push(nw.take(i as int), nw[i as int], has_wid(k));
            }
        }
        match renames.get(&id) {
            Some(name) => {
                let ghost r_before = r@;
                r.insert(id, name.clone());
                proof {
                    assert(renames@.contains_key(id) && renames@[id] == *name);
                    assert forall|k: u32| #[trigger] text_map(r@).contains_key(k) == (old_map.contains_key(k) && present(nw.take(i + 1), k)) by {
                        if k != id {
                            assert(text_map(r_before).contains_key(k) == (old_map.contains_key(k) && present(nw.take(i as int), k)));
                        }
                    }
                    assert forall|k: u32| #[trigger] text_map(r@).contains_key(k) implies text_map(r@)[k] == old_map[k] by {
                        if k != id {
                            assert(text_map(r_before).contains_key(k));
                            assert(text_map(r_before)[k] == old_map[k]);
                        }
                    }
                    assert(text_map(r@) =~= Map::new(
                        |k: u32| old_map.contains_key(k) && present(nw.take(i + 1), k),
                        |k: u32| old_map[k],
                    ));
                }
            },
            None => {
                proof {
                    assert(!renames@.contains_key(id));
                    assert(text_map(r@) =~= Map::new(
                        |k: u32| old_map.contains_key(k) && present(nw.take(i + 1), k),
                        |k: u32| old_map[k],
                    ));
                }
            },
        }
        i = i + 1;
    }
    proof {
        assert(nw.take(ws@.len() as int) =~= nw);
    }
    r
}

impl AppState {
    /// Update window list from fresh X11 data.
    /// Preserves ordering of existing windows; appends new ones at the end (in input order).
    /// Removes windows no longer present. Updates titles of existing windows.
    /// Does NOT clear user renames.
    pub fn update_windows(&mut self, entries: Vec<WindowEntry>)
        ensures
            final(self)@ == with_windows_refreshed(old(self)@, window_views(entries@)),
    {
        let fresh = refreshed_list(&self.windows, &entries);
        self.windows = fresh;
        self.renames = live_renames(&self.renames, &self.windows);
        self.hidden.clear();
        self.display_order = prune_order(&self.display_order, &self.windows, &self.groups);
        prune_groups(&mut self.groups, &self.windows);
        proof {
            let target = with_windows_refreshed(old(self)@, window_views(entries@));
            assert(self@.renames =~= target.renames);
            assert(self@.hidden =~= target.hidden);
            assert(self@.groups =~= target.groups);
        }
    }
}

impl AppState {
    /// Ensure display_order is populated from the current windows list.
    /// Called lazily when groups are first used.
    fn ensure_display_order(&mut self)
        ensures
            final(self)@ == (StateModel { display_order: ensured_order(old(self)@), ..old(self)@ }),
    {
        if !self.display_order.is_empty() {
            return;
        }
        let mut i: usize = 0;
        while i < self.windows.len()
            invariant
                i <= self.windows@.len(),
                self.windows == old(self).windows,
                self.active == old(self).active,
                self.renames == old(self).renames,
                self.hidden == old(self).hidden,
                self.groups == old(self).groups,
                self.next_group_id == old(self).next_group_id,
                self.display_order@ == old(self)@.windows.take(i as int).map_values(
                    |w: WindowModel| window_slot(w),
                ),
            decreases self.windows@.len() - i,
        {
            let id = self.windows[i].id;
            self.display_order.push(DisplaySlot::Window(id));
            proof {
                assert(old(self)@.windows.take(i + 1) =~= old(self)@.windows.take(i as int).push(
                    old(self)@.windows[i as int],
                ));
                assert(self.display_order@ =~= old(self)@.windows.take(i + 1).map_values(
                    |w: WindowModel| window_slot(w),
                ));
            }
            i = i + 1;
        }
        proof {
            assert(old(self)@.windows.take(self.windows@.len() as int) =~= old(self)@.windows);
        }
    }

    /// Create an empty group and append it to display_order.
    pub fn create_group(&mut self, name: &str) -> (gid: u32)
        requires
            old(self)@.next_group_id < u32::MAX,
        ensures
            gid == old(self)@.next_group_id,
            final(self)@ == with_new_group(old(self)@, name@),
    {
        let gid = self.next_group_id;
        self.next_group_id = self.next_group_id + 1;
        self.groups.push(Group { id: gid, name: name.to_string(), collapsed: false, members: Vec::new() });
        self.ensure_display_order();
        self.display_order.push(DisplaySlot::Group(gid));
        proof {
            assert(self@.groups =~= with_new_group(old(self)@, name@).groups);
        }
        gid
    }

    /// Create a group containing `wid`, placed at the position of `wid` in display_order.
    pub fn create_group_with_window(&mut self, name: &str, wid: u32) -> (gid: u32)
        requires
            old(self)@.next_group_id < u32::MAX,
        ensures
            gid == old(self)@.next_group_id,
            final(self)@ == with_new_group_of(old(self)@, name@, wid),
    {
        let gid = self.next_group_id;
        self.next_group_id = self.next_group_id + 1;
        strip_member(&mut self.groups, wid);
        let mut members: Vec<u32> = Vec::new();
        members.push(wid);
        self.groups.push(Group { id: gid, name: name.to_string(), collapsed: false, members });
        proof {
            assert(self@.groups =~= with_new_group_of(old(self)@, name@, wid).groups);
        }
        self.ensure_display_order();
        match find_slot(&self.display_order, DisplaySlot::Window(wid)) {
            Some(pos) => {
                self.display_order.set(pos, DisplaySlot::Group(gid));
            },
            None => {
                self.display_order.push(DisplaySlot::Group(gid));
            },
        }
        gid
    }

    /// Delete a group. Its members become ungrouped windows re-inserted into display_order
    /// at the position where the group was.
    pub fn delete_group(&mut self, gid: u32)
        ensures
            final(self)@ == with_group_deleted(old(self)@, gid),
    {
        let members = match find_group(&self.groups, gid) {
            Some(i) => copy_values(&self.groups[i].members),
            None => Vec::new(),
        };
        proof {
            assert(members@ =~= members_of(old(self)@, gid));
        }
        drop_groups_with_id(&mut self.groups, gid);
        spread_group(&mut self.display_order, gid, &members);
        proof {
            assert(self@.groups == with_group_deleted(old(self)@, gid).groups);
        }
    }

    /// Add a window to a group. Removes from any previous group first.
    /// Also removes the Window(wid) slot from display_order (the window is now inside the group).
    pub fn add_to_group(&mut self, wid: u32, gid: u32)
        ensures
            final(self)@ == with_member_added(old(self)@, wid, gid),
    {
        let target = find_group(&self.groups, gid);
        if target.is_none() {
            return;
        }
        let p = target.unwrap();
        self.ensure_display_order();
        strip_member(&mut self.groups, wid);
        assert(p < self.groups@.len());
        let mut g = self.groups.remove(p);
        g.members.push(wid);
        self.groups.insert(p, g);
        proof {
            assert(self@.groups =~= with_member_added(old(self)@, wid, gid).groups);
        }
        drop_slot(&mut self.display_order, DisplaySlot::Window(wid));
    }

    /// Remove a window from its group. The window becomes ungrouped and is
    /// re-inserted into display_order after its former group.
    pub fn remove_from_group(&mut self, wid: u32)
        ensures
            final(self)@ == with_member_removed(old(self)@, wid),
    {
        let former = find_member_group(&self.groups, wid);
        let former_gid = match former {
            Some(i) => Some(self.groups[i].id),
            None => None,
        };
        strip_member(&mut self.groups, wid);
        if let Some(gid) = former_gid {
            let len = self.display_order.len();
            let pos = match find_slot(&self.display_order, DisplaySlot::Group(gid)) {
                Some(q) => q + 1,
                None => len,
            };
            self.display_order.insert(pos, DisplaySlot::Window(wid));
        }
    }

    pub fn filtered_windows<'a>(&'a self, filter: &'a Filter) -> (ws: Vec<&'a WindowEntry>)
        ensures
            ref_views(ws@) == self@.windows.filter(shown_by(filter@, self@.hidden)),
    {
        let ghost all = self@.windows;
        let mut out: Vec<&WindowEntry> = Vec::new();
        let mut i: usize = 0;
        while i < self.windows.len()
            invariant
                i <= self.windows@.len(),
                all == self@.windows,
                ref_views(out@) == all.take(i as int).filter(shown_by(filter@, self@.hidden)),
            decreases self.windows@.len() - i,
        {
            proof {
                assert(all.take(i + 1) =~= all.take(i as int).push(all[i as int]));
                all.take(i as int).lemma_filter_push(all[i as int], shown_by(filter@, self@.hidden));
            }
            let w = &self.windows[i];
            if filter.matches(w.wm_class.as_str()) && !self.hidden.contains(&w.id) {
                out.push(w);
                proof {
                    assert(ref_views(out@) =~= ref_views(out@.drop_last()).push(w@));
                }
            }
            i = i + 1;
        }
        proof {
            assert(all.take(all.len() as int) =~= all);
        }
        out
    }
}


// ── Sidebar items ──

/// Items produced so far, with the windows and groups already listed.
pub struct ItemsAcc {
    pub items: Seq<ItemKind>,
    pub seen_windows: Set<u32>,
    pub seen_groups: Set<u32>,
}

/// Whether window `wid` is tracked, accepted by the filter and not hidden.
pub open spec fn shown_with_id(lowered: Seq<Seq<char>>, hidden: Set<u32>, wid: u32) -> spec_fn(WindowModel) -> bool {
    |w: WindowModel| w.id == wid && accepts(lowered, w.wm_class) && !hidden.contains(w.id)
}

pub open spec fn visible_in(m: StateModel, lowered: Seq<Seq<char>>) -> spec_fn(u32) -> bool {
    |wid: u32| any_match(m.windows, shown_with_id(lowered, m.hidden, wid))
}

pub open spec fn grouped_in(gs: Seq<GroupModel>) -> spec_fn(u32) -> bool {
    |wid: u32| any_match(gs, has_member(wid))
}

/// Lists the visible, not yet listed members of group `gid`, in member order.
pub open spec fn add_members(acc: ItemsAcc, members: Seq<u32>, gid: u32, vis: spec_fn(u32) -> bool) -> ItemsAcc
    decreases members.len(),
{
    if members.len() == 0 {
        acc
    } else {
        let a = add_members(acc, members.drop_last(), gid, vis);
        let w = members.last();
        if vis(w) && !a.seen_windows.contains(w) {
            ItemsAcc {
                items: a.items.push(ItemKind::GroupedWindow(w, gid)),
                seen_windows: a.seen_windows.insert(w),
                ..a
            }
        } else {
            a
        }
    }
}

/// Lists a group's header (once per group id) and, unless collapsed, its members.
pub open spec fn add_group(acc: ItemsAcc, g: GroupModel, vis: spec_fn(u32) -> bool) -> ItemsAcc {
    if acc.seen_groups.contains(g.id) {
        acc
    } else {
        let a = ItemsAcc {
            items: acc.items.push(ItemKind::GroupHeader(g.id)),
            seen_groups: acc.seen_groups.insert(g.id),
            ..acc
        };
        if g.collapsed {
            a
        } else {
            add_members(a, g.members, g.id, vis)
        }
    }
}

/// Lists a window as ungrouped if it is visible, in no group, and not yet listed.
pub open spec fn add_window(acc: ItemsAcc, wid: u32, vis: spec_fn(u32) -> bool, grp: spec_fn(u32) -> bool) -> ItemsAcc {
    if vis(wid) && !grp(wid) && !acc.seen_windows.contains(wid) {
        ItemsAcc {
            items: acc.items.push(ItemKind::UngroupedWindow(wid)),
            seen_windows: acc.seen_windows.insert(wid),
            ..acc
        }
    } else {
        acc
    }
}

pub open spec fn add_slot(m: StateModel, acc: ItemsAcc, slot: DisplaySlot, vis: spec_fn(u32) -> bool, grp: spec_fn(u32) -> bool) -> ItemsAcc {
    match slot {
        DisplaySlot::Window(w) => add_window(acc, w, vis, grp),
        DisplaySlot::Group(g) => {
            let p = group_pos(m, g);
            if p >= 0 {
                add_group(acc, m.groups[p], vis)
            } else {
                acc
            }
        },
    }
}

pub open spec fn fold_slots(m: StateModel, acc: ItemsAcc, slots: Seq<DisplaySlot>, vis: spec_fn(u32) -> bool, grp: spec_fn(u32) -> bool) -> ItemsAcc
    decreases slots.len(),
{
    if slots.len() == 0 {
        acc
    } else {
        add_slot(m, fold_slots(m, acc, slots.drop_last(), vis, grp), slots.last(), vis, grp)
    }
}

pub open spec fn fold_windows(acc: ItemsAcc, ws: Seq<WindowModel>, vis: spec_fn(u32) -> bool, grp: spec_fn(u32) -> bool) -> ItemsAcc
    decreases ws.len(),
{
    if ws.len() == 0 {
        acc
    } else {
        add_window(fold_windows(acc, ws.drop_last(), vis, grp), ws.last().id, vis, grp)
    }
}

pub open spec fn fold_groups(acc: ItemsAcc, gs: Seq<GroupModel>, vis: spec_fn(u32) -> bool) -> ItemsAcc
    decreases gs.len(),
{
    if gs.len() == 0 {
        acc
    } else {
        add_group(fold_groups(acc, gs.drop_last(), vis), gs.last(), vis)
    }
}

pub open spec fn no_items() -> ItemsAcc {
    ItemsAcc { items: seq![], seen_windows: Set::empty(), seen_groups: Set::empty() }
}

/// The sidebar rows: the display order first (windows, and each group's header
/// followed by its visible members unless collapsed), then visible ungrouped
/// windows not yet listed, then groups not yet listed; every window and every
/// group id is listed at most once.
pub open spec fn display_items_of(m: StateModel, lowered: Seq<Seq<char>>) -> Seq<ItemKind> {
    let vis = visible_in(m, lowered);
    let grp = grouped_in(m.groups);
    let a1 = fold_slots(m, no_items(), m.display_order, vis, grp);
    let a2 = fold_windows(a1, m.windows, vis, grp);
    fold_groups(a2, m.groups, vis).items
}

pub open spec fn acc_of(items: Seq<ItemKind>, sw: Set<u32>, sg: Set<u32>) -> ItemsAcc {
    ItemsAcc { items: items, seen_windows: sw, seen_groups: sg }
}

impl AppState {
    fn is_visible(&self, filter: &Filter, wid: u32) -> (r: bool)
        ensures
            r == visible_in(self@, filter@)(wid),
    {
        let ghost ws = self@.windows;
        let mut i: usize = 0;
        while i < self.windows.len()
            invariant
                i <= self.windows@.len(),
                ws == self@.windows,
                forall|k: int| 0 <= k < i ==> !shown_with_id(filter@, self@.hidden, wid)(#[trigger] ws[k]),
            decreases self.windows@.len() - i,
        {
            let w = &self.windows[i];
            if w.id == wid && filter.matches(w.wm_class.as_str()) && !self.hidden.contains(&w.id) {
                proof {
                    assert(shown_with_id(filter@, self@.hidden, wid)(ws[i as int]));
                }
                return true;
            }
            i = i + 1;
        }
        false
    }

    fn is_grouped(&self, wid: u32) -> (r: bool)
        ensures
            r == grouped_in(self@.groups)(wid),
    {
        proof {
            crate::search::lemma_any_match_first(self@.groups, has_member(wid));
        }
        find_member_group(&self.groups, wid).is_some()
    }

    fn push_members(
        &self,
        filter: &Filter,
        items: &mut Vec<ItemKind>,
        seen_w: &mut HashSet<u32>,
        seen_g: &HashSet<u32>,
        members: &Vec<u32>,
        gid: u32,
    )
        ensures
            acc_of(final(items)@, final(seen_w)@, seen_g@) == add_members(
                acc_of(old(items)@, old(seen_w)@, seen_g@),
                members@,
                gid,
                visible_in(self@, filter@),
            ),
    {
        let ghost vis = visible_in(self@, filter@);
        let ghost a0 = acc_of(items@, seen_w@, seen_g@);
        let mut i: usize = 0;
        proof {
            assert(members@.take(0) =~= Seq::<u32>::empty());
        }
        while i < members.len()
            invariant
                i <= members@.len(),
                vis == visible_in(self@, filter@),
                acc_of(items@, seen_w@, seen_g@) == add_members(a0, members@.take(i as int), gid, vis),
            decreases members@.len() - i,
        {
            proof {
                assert(members@.take(i + 1).drop_last() =~= members@.take(i as int));
                assert(members@.take(i + 1).last() == members@[i as int]);
            }
            let wid = members[i];
            let ghost sw0 = seen_w@;
            if self.is_visible(filter, wid) && seen_w.insert(wid) {
                items.push(ItemKind::GroupedWindow(wid, gid));
            }
            proof {
                if sw0.contains(wid) {
                    assert(seen_w@ =~= sw0);
                }
            }
            i = i + 1;
        }
        proof {
            assert(members@.take(members@.len() as int) =~= members@);
        }
    }

    fn push_group(
        &self,
        filter: &Filter,
        items: &mut Vec<ItemKind>,
        seen_w: &mut HashSet<u32>,
        seen_g: &mut HashSet<u32>,
        g: &Group,
    )
        ensures
            acc_of(final(items)@, final(seen_w)@, final(seen_g)@) == add_group(
                acc_of(old(items)@, old(seen_w)@, old(seen_g)@),
                g@,
                visible_in(self@, filter@),
            ),
    {
        let ghost sg0 = seen_g@;
        let inserted = seen_g.insert(g.id);
        proof {
            if sg0.contains(g.id) {
                assert(seen_g@ =~= sg0);
            }
        }
        if inserted {
            items.push(ItemKind::GroupHeader(g.id));
            if !g.collapsed {
                self.push_members(filter, items, seen_w, seen_g, &g.members, g.id);
            }
        }
    }

    fn push_window(
        &self,
        filter: &Filter,
        items: &mut Vec<ItemKind>,
        seen_w: &mut HashSet<u32>,
        seen_g: &HashSet<u32>,
        wid: u32,
    )
        ensures
            acc_of(final(items)@, final(seen_w)@, seen_g@) == add_window(
                acc_of(old(items)@, old(seen_w)@, seen_g@),
                wid,
                visible_in(self@, filter@),
                grouped_in(self@.groups),
            ),
    {
        let ghost sw0 = seen_w@;
        if self.is_visible(filter, wid) && !self.is_grouped(wid) && seen_w.insert(wid) {
            items.push(ItemKind::UngroupedWindow(wid));
        }
        proof {
            if sw0.contains(wid) {
                assert(seen_w@ =~= sw0);
            }
        }
    }

    /// Produce the flat list of items for sidebar rendering, respecting
    /// display_order, groups, collapse state, and filter.
    pub fn display_items(&self, filter: &Filter) -> (items: Vec<ItemKind>)
        ensures
            items@ == display_items_of(self@, filter@),
    {
        let ghost m = self@;
        let ghost vis = visible_in(m, filter@);
        let ghost grp = grouped_in(m.groups);
        let mut items: Vec<ItemKind> = Vec::new();
        let mut seen_w: HashSet<u32> = HashSet::new();
        let mut seen_g: HashSet<u32> = HashSet::new();
        let mut i: usize = 0;
        proof {
            assert(m.display_order.take(0) =~= Seq::<DisplaySlot>::empty());
            assert(acc_of(items@, seen_w@, seen_g@) == no_items());
        }
        while i < self.display_order.len()
            invariant
                i <= self.display_order@.len(),
                m == self@,
                vis == visible_in(m, filter@),
                grp == grouped_in(m.groups),
                acc_of(items@, seen_w@, seen_g@) == fold_slots(m, no_items(), m.display_order.take(i as int), vis, grp),
            decreases self.display_order@.len() - i,
        {
            proof {
                assert(m.display_order.take(i + 1).drop_last() =~= m.display_order.take(i as int));
                assert(m.display_order.take(i + 1).last() == m.display_order[i as int]);
            }
            match self.display_order[i] {
                DisplaySlot::Window(wid) => {
                    self.push_window(filter, &mut items, &mut seen_w, &seen_g, wid);
                },
                DisplaySlot::Group(gid) => {
                    if let Some(p) = find_group(&self.groups, gid) {
                        self.push_group(filter, &mut items, &mut seen_w, &mut seen_g, &self.groups[p]);
                    }
                },
            }
            i = i + 1;
        }
        proof {
            assert(m.display_order.take(m.display_order.len() as int) =~= m.display_order);
        }
        let ghost a1 = acc_of(items@, seen_w@, seen_g@);
        let mut j: usize = 0;
        proof {
            assert(m.windows.take(0) =~= Seq::<WindowModel>::empty());
        }
        while j < self.windows.len()
            invariant
                j <= self.windows@.len(),
                m == self@,
                vis == visible_in(m, filter@),
                grp == grouped_in(m.groups),
                acc_of(items@, seen_w@, seen_g@) == fold_windows(a1, m.windows.take(j as int), vis, grp),
            decreases self.windows@.len() - j,
        {
            proof {
                assert(m.windows.take(j + 1).drop_last() =~= m.windows.take(j as int));
                assert(m.windows.take(j + 1).last() == m.windows[j as int]);
            }
            self.push_window(filter, &mut items, &mut seen_w, &seen_g, self.windows[j].id);
            j = j + 1;
        }
        proof {
            assert(m.windows.take(m.windows.len() as int) =~= m.windows);
        }
        let ghost a2 = acc_of(items@, seen_w@, seen_g@);
        let mut k: usize = 0;
        proof {
            assert(m.groups.take(0) =~= Seq::<GroupModel>::empty());
        }
        while k < self.groups.len()
            invariant
                k <= self.groups@.len(),
                m == self@,
                vis == visible_in(m, filter@),
                acc_of(items@, seen_w@, seen_g@) == fold_groups(a2, m.groups.take(k as int), vis),
            decreases self.groups@.len() - k,
        {
            proof {
                assert(m.groups.take(k + 1).drop_last() =~= m.groups.take(k as int));
                assert(m.groups.take(k + 1).last() == m.groups[k as int]);
            }
            self.push_group(filter, &mut items, &mut seen_w, &mut seen_g, &self.groups[k]);
            k = k + 1;
        }
        proof {
            assert(m.groups.take(m.groups.len() as int) =~= m.groups);
        }
        items
    }
}

impl AppState {
    /// Capture current state for persistence.
    pub fn to_saved(&self) -> (saved: SavedState)
        ensures
            saved@ == snapshot_of(self@.windows, self@.renames, self@.groups, self@.display_order, self@.next_group_id),
    {
        take_snapshot(&self.windows, &self.renames, &self.groups, &self.display_order, self.next_group_id)
    }

    /// Restore renames and ordering from a saved state.
    /// Maps saved window positions/renames to current live windows by class:instance key.
    pub fn restore_from(&mut self, saved: &SavedState)
        requires
            saved@.window_order.len() + old(self)@.windows.len() <= usize::MAX,
        ensures
            final(self)@ == restored(old(self)@, saved@, final(self)@.renames),
            renames_restored(
                final(self)@.renames,
                old(self)@.windows,
                claims(saved@.window_order, window_keys(old(self)@.windows)),
                saved@,
                old(self)@.windows.len() as int,
            ),
    {
        let (windows, renames, groups, order) = restore_parts(&self.windows, saved);
        self.windows = windows;
        self.renames = renames;
        self.groups = groups;
        self.display_order = order;
        self.next_group_id = if saved.next_group_id >= 1 {
            saved.next_group_id
        } else {
            1
        };
    }
}

} // verus!
