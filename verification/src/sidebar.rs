//! The items the sidebar front end renders, built from the application state.
use vstd::prelude::*;

use crate::filter::Filter;
use crate::search::{first_match, lemma_first_match_is, lemma_first_match_none};
use crate::state::{
    display_items_of, display_name_of, group_pos, has_wid, window_pos, window_views, AppState,
    ItemKind, StateModel, WindowEntry,
};

verus! {

broadcast use {vstd::std_specs::hash::group_hash_axioms, vstd::string::group_string_axioms};

/// A row of the sidebar as the front end receives it.
pub enum SidebarItem {
    Window {
        wid: u32,
        title: String,
        wm_class: String,
        icon_path: Option<String>,
        is_active: bool,
        is_minimized: bool,
        is_urgent: bool,
        is_renamed: bool,
    },
    GroupHeader { gid: u32, name: String, collapsed: bool, member_count: usize },
    GroupedWindow {
        wid: u32,
        gid: u32,
        title: String,
        wm_class: String,
        icon_path: Option<String>,
        is_active: bool,
        is_minimized: bool,
        is_urgent: bool,
        is_renamed: bool,
    },
}

/// What a window row shows.
pub struct WindowFace {
    pub title: Seq<char>,
    pub wm_class: Seq<char>,
    pub icon_path: Option<Seq<char>>,
    pub is_active: bool,
    pub is_minimized: bool,
    pub is_urgent: bool,
    pub is_renamed: bool,
}

/// A sidebar item with its texts taken as characters.
pub enum SidebarItemView {
    Window { wid: u32, face: WindowFace },
    GroupHeader { gid: u32, name: Seq<char>, collapsed: bool, member_count: nat },
    GroupedWindow { wid: u32, gid: u32, face: WindowFace },
}

pub open spec fn opt_text(o: Option<String>) -> Option<Seq<char>> {
    match o {
        Some(s) => Some(s@),
        None => None,
    }
}

impl View for SidebarItem {
    type V = SidebarItemView;

    open spec fn view(&self) -> SidebarItemView {
        match self {
            SidebarItem::Window { wid, title, wm_class, icon_path, is_active, is_minimized, is_urgent, is_renamed } => {
                SidebarItemView::Window {
                    wid: *wid,
                    face: WindowFace {
                        title: title@,
                        wm_class: wm_class@,
                        icon_path: opt_text(*icon_path),
                        is_active: *is_active,
                        is_minimized: *is_minimized,
                        is_urgent: *is_urgent,
                        is_renamed: *is_renamed,
                    },
                }
            },
            SidebarItem::GroupHeader { gid, name, collapsed, member_count } => SidebarItemView::GroupHeader {
                gid: *gid,
                name: name@,
                collapsed: *collapsed,
                member_count: *member_count as nat,
            },
            SidebarItem::GroupedWindow { wid, gid, title, wm_class, icon_path, is_active, is_minimized, is_urgent, is_renamed } => {
                SidebarItemView::GroupedWindow {
                    wid: *wid,
                    gid: *gid,
                    face: WindowFace {
                        title: title@,
                        wm_class: wm_class@,
                        icon_path: opt_text(*icon_path),
                        is_active: *is_active,
                        is_minimized: *is_minimized,
                        is_urgent: *is_urgent,
                        is_renamed: *is_renamed,
                    },
                }
            },
        }
    }
}

/// What the row of window `wid` shows: its display name, the class of the
/// first window with that id (empty when there is none), the given icon,
/// whether it is active, minimized, urgent and renamed.
pub open spec fn window_face(m: StateModel, wid: u32, icon_path: Option<Seq<char>>) -> WindowFace {
    let p = window_pos(m, wid);
    WindowFace {
        title: display_name_of(m, wid),
        wm_class: if p >= 0 {
            m.windows[p].wm_class
        } else {
            seq![]
        },
        icon_path: icon_path,
        is_active: m.active == Some(wid),
        is_minimized: p >= 0 && m.windows[p].is_minimized,
        is_urgent: p >= 0 && m.windows[p].is_urgent,
        is_renamed: m.renames.contains_key(wid),
    }
}

/// The sidebar item for a display item; a header of an unknown group shows
/// as an expanded, empty group named "Group".
pub open spec fn sidebar_item_of(m: StateModel, item: ItemKind, icon_path: Option<Seq<char>>) -> SidebarItemView {
    match item {
        ItemKind::UngroupedWindow(wid) => SidebarItemView::Window { wid, face: window_face(m, wid, icon_path) },
        ItemKind::GroupHeader(gid) => {
            let p = group_pos(m, gid);
            if p >= 0 {
                SidebarItemView::GroupHeader {
                    gid,
                    name: m.groups[p].name,
                    collapsed: m.groups[p].collapsed,
                    member_count: m.groups[p].members.len(),
                }
            } else {
                SidebarItemView::GroupHeader { gid, name: "Group"@, collapsed: false, member_count: 0 }
            }
        },
        ItemKind::GroupedWindow(wid, gid) => SidebarItemView::GroupedWindow {
            wid,
            gid,
            face: window_face(m, wid, icon_path),
        },
    }
}

fn find_entry(ws: &[WindowEntry], wid: u32) -> (r: Option<&WindowEntry>)
    ensures
        match r {
            Some(w) => {
                let p = first_match(window_views(ws@), has_wid(wid));
                p >= 0 && w@ == window_views(ws@)[p]
            },
            None => first_match(window_views(ws@), has_wid(wid)) == -1,
        },
{
    let ghost wv = window_views(ws@);
    let mut i: usize = 0;
    while i < ws.len()
        invariant
            i <= ws@.len(),
            wv == window_views(ws@),
            forall|k: int| 0 <= k < i ==> ws@[k].id != wid,
        decreases ws@.len() - i,
    {
        if ws[i].id == wid {
            proof {
                lemma_first_match_is(wv, has_wid(wid), i as int);
            }
            return Some(&ws[i]);
        }
        i = i + 1;
    }
    proof {
        lemma_first_match_none(wv, has_wid(wid));
    }
    None
}

/// The class of the window a display item shows (empty for group headers
/// and unknown windows); the front end resolves its icon from it.
pub open spec fn item_class_of(m: StateModel, item: ItemKind) -> Seq<char> {
    match item {
        ItemKind::UngroupedWindow(wid) => window_face(m, wid, None).wm_class,
        ItemKind::GroupHeader(_) => seq![],
        ItemKind::GroupedWindow(wid, _) => window_face(m, wid, None).wm_class,
    }
}

pub fn item_class(state: &AppState, item: ItemKind) -> (class: String)
    ensures
        class@ == item_class_of(state@, item),
{
    let wid = match item {
        ItemKind::UngroupedWindow(wid) => wid,
        ItemKind::GroupedWindow(wid, _) => wid,
        ItemKind::GroupHeader(_) => {
            return String::new();
        },
    };
    match find_entry(state.windows(), wid) {
        Some(w) => w.wm_class.clone(),
        None => String::new(),
    }
}

fn window_fields(state: &AppState, wid: u32) -> (r: (String, String, bool, bool, bool, bool))
    ensures
        ({
            let f = window_face(state@, wid, None);
            &&& r.0@ == f.title
            &&& r.1@ == f.wm_class
            &&& r.2 == f.is_active
            &&& r.3 == f.is_minimized
            &&& r.4 == f.is_urgent
            &&& r.5 == f.is_renamed
        }),
{
    let title = state.display_name(wid).to_owned();
    let active = match state.active_window() {
        Some(a) => a == wid,
        None => false,
    };
    let renamed = state.has_rename(wid);
    match find_entry(state.windows(), wid) {
        Some(w) => (title, w.wm_class.clone(), active, w.is_minimized, w.is_urgent, renamed),
        None => (title, String::new(), active, false, false, renamed),
    }
}

/// The sidebar item for one display item, with the icon the caller resolved.
pub fn sidebar_item(state: &AppState, item: ItemKind, icon_path: Option<String>) -> (s: SidebarItem)
    ensures
        s@ == sidebar_item_of(state@, item, opt_text(icon_path)),
{
    match item {
        ItemKind::UngroupedWindow(wid) => {
            let (title, wm_class, is_active, is_minimized, is_urgent, is_renamed) = window_fields(state, wid);
            SidebarItem::Window { wid, title, wm_class, icon_path, is_active, is_minimized, is_urgent, is_renamed }
        },
        ItemKind::GroupHeader(gid) => {
            match state.group(gid) {
                Some(g) => SidebarItem::GroupHeader {
                    gid,
                    name: g.name.clone(),
                    collapsed: g.collapsed,
                    member_count: g.members.len(),
                },
                None => SidebarItem::GroupHeader { gid, name: "Group".to_owned(), collapsed: false, member_count: 0 },
            }
        },
        ItemKind::GroupedWindow(wid, gid) => {
            let (title, wm_class, is_active, is_minimized, is_urgent, is_renamed) = window_fields(state, wid);
            SidebarItem::GroupedWindow { wid, gid, title, wm_class, icon_path, is_active, is_minimized, is_urgent, is_renamed }
        },
    }
}

/// The icon file resolved for a window class.
pub struct ClassIcon {
    pub wm_class: String,
    pub icon_path: Option<String>,
}

pub open spec fn for_class(class: Seq<char>) -> spec_fn(ClassIcon) -> bool {
    |c: ClassIcon| c.wm_class@ == class
}

/// The icon listed for `class` (the first entry for it), if any.
pub open spec fn icon_for(icons: Seq<ClassIcon>, class: Seq<char>) -> Option<Seq<char>> {
    let k = first_match(icons, for_class(class));
    if k >= 0 {
        opt_text(icons[k].icon_path)
    } else {
        None
    }
}

fn find_icon(icons: &Vec<ClassIcon>, class: &String) -> (r: Option<String>)
    ensures
        opt_text(r) == icon_for(icons@, class@),
{
    let mut i: usize = 0;
    while i < icons.len()
        invariant
            i <= icons@.len(),
            forall|k: int| 0 <= k < i ==> !#[trigger] for_class(class@)(icons@[k]),
        decreases icons@.len() - i,
    {
        if icons[i].wm_class == *class {
            proof {
                lemma_first_match_is(icons@, for_class(class@), i as int);
            }
            return match &icons[i].icon_path {
                Some(p) => Some(p.clone()),
                None => None,
            };
        }
        i = i + 1;
    }
    proof {
        lemma_first_match_none(icons@, for_class(class@));
    }
    None
}

/// The sidebar items for the state's display items under `filter`, in order;
/// each window item carries the icon `icons` lists for its class.
pub fn build_sidebar_items(state: &AppState, filter: &Filter, icons: &Vec<ClassIcon>) -> (items: Vec<SidebarItem>)
    ensures
        items@.len() == display_items_of(state@, filter@).len(),
        forall|k: int| 0 <= k < items@.len() ==> #[trigger] items@[k]@ == sidebar_item_of(
            state@,
            display_items_of(state@, filter@)[k],
            icon_for(icons@, item_class_of(state@, display_items_of(state@, filter@)[k])),
        ),
{
    let kinds = state.display_items(filter);
    let mut items: Vec<SidebarItem> = Vec::new();
    let mut i: usize = 0;
    while i < kinds.len()
        invariant
            i <= kinds@.len(),
            kinds@ == display_items_of(state@, filter@),
            items@.len() == i,
            forall|k: int| 0 <= k < i ==> #[trigger] items@[k]@ == sidebar_item_of(
                state@,
                kinds@[k],
                icon_for(icons@, item_class_of(state@, kinds@[k])),
            ),
        decreases kinds@.len() - i,
    {
        let class = item_class(state, kinds[i]);
        let icon = find_icon(icons, &class);
        let it = sidebar_item(state, kinds[i], icon);
        items.push(it);
        i = i + 1;
    }
    items
}

} // verus!
