//! The sidebar panel's model: window items, tab groups, the top-level display
//! order, the rows it renders to, hit testing, drag-and-drop resolution and
//! the context menu. Rendering and X11 traffic stay outside.
use vstd::prelude::*;

use crate::x11::connection::workarea_from_property;
use crate::x11::ewmh::{le_word, parse_window_id};
use crate::search::{
    first_index, first_match, lemma_first_index_is, lemma_first_index_none,
    lemma_first_match, lemma_first_match_is, lemma_first_match_none, lemma_map_values_push,
    lemma_take_push, moved,
};

verus! {

broadcast use vstd::string::group_string_axioms;

// ── Layout ──

pub const WIN_W: u16 = 250;

pub const WIN_H: u16 = 600;

pub const ITEM_X: i16 = 8;

pub const ITEM_W: u16 = 234;

pub const ITEM_H: u16 = 28;

pub const ITEM_SPACING: i16 = 2;

pub const ITEM_Y_START: i16 = 8;

pub const DRAG_THRESHOLD: i16 = 5;

pub const GROUP_INDENT: i16 = 16;

pub const MENU_ITEM_H: u16 = 24;

pub const MENU_PADDING: i16 = 4;

pub const MENU_MIN_W: u16 = 180;

/// Approximate glyph width of the panel font.
pub const CHAR_WIDTH: i16 = 8;

/// The most rows whose every pixel row fits in `i16` coordinates.
pub const MAX_ROWS: usize = 1092;

// ── Data model ──

/// A tracked window shown in the panel.
pub struct Item {
    pub wid: u32,
    pub label: String,
    pub wm_class: String,
    pub accent_pixel: u32,
}

/// A tab group of windows.
pub struct Group {
    pub id: u32,
    pub name: String,
    pub collapsed: bool,
    pub member_wids: Vec<u32>,
}

/// What a group holds.
pub struct GroupView {
    pub id: u32,
    pub name: Seq<char>,
    pub collapsed: bool,
    pub members: Seq<u32>,
}

impl View for Group {
    type V = GroupView;

    open spec fn view(&self) -> GroupView {
        GroupView { id: self.id, name: self.name@, collapsed: self.collapsed, members: self.member_wids@ }
    }
}

/// A top-level slot: an ungrouped window or a group.
#[derive(Clone, Copy, Debug, PartialEq, Eq, Structural)]
pub enum DisplaySlot {
    Window(u32),
    Group(u32),
}

/// A rendered row: a group header, or a window (inside a group or not).
#[derive(Clone, Copy, Debug)]
pub enum DisplayRow {
    GroupHeader { group_id: u32 },
    Window { wid: u32, group_id: Option<u32> },
}

/// What a context-menu entry does.
#[derive(Clone, Copy, Debug)]
pub enum MenuAction {
    CreateGroup,
    AddToGroup(u32),
    RemoveFromGroup,
    RenameGroup,
    DeleteGroup,
}

pub struct MenuEntry {
    pub label: String,
    pub action: MenuAction,
}

/// A drag in progress: the row it started on and the pointer's heights.
#[derive(Clone, Copy, Debug)]
pub struct DragState {
    pub source_row: usize,
    pub start_y: i16,
    pub current_y: i16,
    pub started: bool,
}

/// The panel's state.
pub struct App {
    pub items: Vec<Item>,
    pub groups: Vec<Group>,
    pub display_order: Vec<DisplaySlot>,
    pub display_rows: Vec<DisplayRow>,
    pub next_group_id: u32,
    pub active_wid: Option<u32>,
    pub hover_row: Option<usize>,
    pub drag: Option<DragState>,
    pub width: u16,
    pub height: u16,
    pub our_wid: u32,
}

/// What the panel holds, groups taken by their views.
pub struct PanelModel {
    pub items: Seq<Item>,
    pub groups: Seq<GroupView>,
    pub order: Seq<DisplaySlot>,
    pub rows: Seq<DisplayRow>,
    pub next_group_id: u32,
    pub active_wid: Option<u32>,
    pub hover_row: Option<usize>,
    pub drag: Option<DragState>,
    pub width: u16,
    pub height: u16,
    pub our_wid: u32,
}

pub open spec fn group_views(gs: Seq<Group>) -> Seq<GroupView> {
    gs.map_values(|g: Group| g@)
}

impl View for App {
    type V = PanelModel;

    open spec fn view(&self) -> PanelModel {
        PanelModel {
            items: self.items@,
            groups: group_views(self.groups@),
            order: self.display_order@,
            rows: self.display_rows@,
            next_group_id: self.next_group_id,
            active_wid: self.active_wid,
            hover_row: self.hover_row,
            drag: self.drag,
            width: self.width,
            height: self.height,
            our_wid: self.our_wid,
        }
    }
}

// ── Rows ──

pub open spec fn has_id(gid: u32) -> spec_fn(GroupView) -> bool {
    |g: GroupView| g.id == gid
}

/// Position of the first group with id `gid`, or `-1`.
pub open spec fn group_at(gs: Seq<GroupView>, gid: u32) -> int {
    first_match(gs, has_id(gid))
}

pub open spec fn member_row(gid: u32) -> spec_fn(u32) -> DisplayRow {
    |w: u32| DisplayRow::Window { wid: w, group_id: Some(gid) }
}

/// The rows of one slot: a window row; or a group header followed, when the
/// group exists and is expanded, by a row for each member.
pub open spec fn slot_rows(gs: Seq<GroupView>, slot: DisplaySlot) -> Seq<DisplayRow> {
    match slot {
        DisplaySlot::Window(w) => seq![DisplayRow::Window { wid: w, group_id: None }],
        DisplaySlot::Group(g) => {
            let p = group_at(gs, g);
            seq![DisplayRow::GroupHeader { group_id: g }] + if p >= 0 && !gs[p].collapsed {
                gs[p].members.map_values(member_row(g))
            } else {
                seq![]
            }
        },
    }
}

/// The rows of a display order: each slot's rows, in order.
pub open spec fn rows_of(gs: Seq<GroupView>, order: Seq<DisplaySlot>) -> Seq<DisplayRow>
    decreases order.len(),
{
    if order.len() == 0 {
        seq![]
    } else {
        rows_of(gs, order.drop_last()) + slot_rows(gs, order.last())
    }
}

/// The panel with its rows rebuilt from its display order.
pub open spec fn with_rows(m: PanelModel) -> PanelModel {
    PanelModel { rows: rows_of(m.groups, m.order), ..m }
}

// ── Geometry ──

/// The top of row `i`, in pixels.
pub open spec fn row_top(i: int) -> int {
    ITEM_Y_START + i * (ITEM_H + ITEM_SPACING)
}

pub open spec fn covers(y: int) -> spec_fn(int) -> bool {
    |i: int| row_top(i) <= y < row_top(i) + ITEM_H
}

/// The row among the first `n` whose box holds height `y`, or `-1`.
pub open spec fn row_under(n: int, y: int) -> int {
    first_index(n, covers(y))
}

pub open spec fn above_middle(y: int) -> spec_fn(int) -> bool {
    |i: int| y < row_top(i) + ITEM_H / 2
}

/// The gap a drop at height `y` lands in: before the first of the `n` rows
/// whose middle is below `y`, or after all of them.
pub open spec fn gap_at(n: int, y: int) -> int {
    let i = first_index(n, above_middle(y));
    if i >= 0 {
        i
    } else {
        n
    }
}

pub open spec fn has_wid(wid: u32) -> spec_fn(Item) -> bool {
    |it: Item| it.wid == wid
}

pub(crate) fn find_group_index(gs: &Vec<Group>, gid: u32) -> (r: Option<usize>)
    ensures
        match r {
            Some(i) => i as int == group_at(group_views(gs@), gid) && i < gs@.len(),
            None => group_at(group_views(gs@), gid) == -1,
        },
{
    let ghost gv = group_views(gs@);
    let mut i: usize = 0;
    while i < gs.len()
        invariant
            i <= gs@.len(),
            gv == group_views(gs@),
            forall|k: int| 0 <= k < i ==> gs@[k].id != gid,
        decreases gs@.len() - i,
    {
        if gs[i].id == gid {
            proof {
                lemma_first_match_is(gv, has_id(gid), i as int);
            }
            return Some(i);
        }
        i = i + 1;
    }
    proof {
        lemma_first_match_none(gv, has_id(gid));
    }
    None
}

proof fn lemma_rows_step(gs: Seq<GroupView>, order: Seq<DisplaySlot>, k: int)
    requires
        0 <= k < order.len(),
    ensures
        rows_of(gs, order.take(k + 1)) == rows_of(gs, order.take(k)) + slot_rows(gs, order[k]),
{
    assert(order.take(k + 1).drop_last() =~= order.take(k));
}

fn push_slot_rows(rows: &mut Vec<DisplayRow>, gs: &Vec<Group>, slot: DisplaySlot)
    ensures
        final(rows)@ == old(rows)@ + slot_rows(group_views(gs@), slot),
{
    let ghost gv = group_views(gs@);
    match slot {
        DisplaySlot::Window(w) => {
            rows.push(DisplayRow::Window { wid: w, group_id: None });
            proof {
                assert(rows@ =~= old(rows)@ + slot_rows(gv, slot));
            }
        },
        DisplaySlot::Group(g) => {
            rows.push(DisplayRow::GroupHeader { group_id: g });
            let ghost head = rows@;
            match find_group_index(gs, g) {
                Some(p) => {
                    if !gs[p].collapsed {
                        let members = &gs[p].member_wids;
                        let mut j: usize = 0;
                        while j < members.len()
                            invariant
                                j <= members@.len(),
                                rows@ == head + members@.take(j as int).map_values(member_row(g)),
                            decreases members@.len() - j,
                        {
                            let ghost before = rows@;
                            rows.push(DisplayRow::Window { wid: members[j], group_id: Some(g) });
                            proof {
                                lemma_take_push(members@, j as int);
                                lemma_map_values_push(members@.take(j as int), members@[j as int], member_row(g));
                                assert(rows@ =~= head + members@.take(j + 1).map_values(member_row(g)));
                            }
                            j = j + 1;
                        }
                        proof {
                            assert(members@.take(members@.len() as int) =~= members@);
                        }
                    }
                    proof {
                        assert(rows@ =~= old(rows)@ + slot_rows(gv, slot));
                    }
                },
                None => {
                    proof {
                        assert(rows@ =~= old(rows)@ + slot_rows(gv, slot));
                    }
                },
            }
        },
    }
}

#[verifier::rlimit(40)]
pub fn rows_for(gs: &Vec<Group>, order: &Vec<DisplaySlot>) -> (rows: Vec<DisplayRow>)
    ensures
        rows@ == rows_of(group_views(gs@), order@),
{
    let ghost gv = group_views(gs@);
    let mut rows: Vec<DisplayRow> = Vec::new();
    let mut k: usize = 0;
    while k < order.len()
        invariant
            k <= order@.len(),
            gv == group_views(gs@),
            rows@ == rows_of(gv, order@.take(k as int)),
        decreases order@.len() - k,
    {
        proof {
            lemma_rows_step(gv, order@, k as int);
        }
        push_slot_rows(&mut rows, gs, order[k]);
        k = k + 1;
    }
    proof {
        assert(order@.take(order@.len() as int) =~= order@);
    }
    rows
}

impl App {
    pub fn new(our_wid: u32) -> (app: Self)
        ensures
            app@.items.len() == 0,
            app@.groups.len() == 0,
            app@.order.len() == 0,
            app@.rows.len() == 0,
            app@.next_group_id == 0,
            app@.active_wid is None,
            app@.hover_row is None,
            app@.drag is None,
            app@.width == WIN_W,
            app@.height == WIN_H,
            app@.our_wid == our_wid,
    {
        App {
            items: Vec::new(),
            groups: Vec::new(),
            display_order: Vec::new(),
            display_rows: Vec::new(),
            next_group_id: 0,
            active_wid: None,
            hover_row: None,
            drag: None,
            width: WIN_W,
            height: WIN_H,
            our_wid,
        }
    }

    pub fn build_display_rows(&mut self)
        ensures
            final(self)@ == with_rows(old(self)@),
    {
        let rows = rows_for(&self.groups, &self.display_order);
        self.display_rows = rows;
    }

    pub fn row_y(&self, index: usize) -> (y: i16)
        requires
            index < MAX_ROWS,
        ensures
            y == row_top(index as int),
    {
        let i: i16 = index as i16;
        proof {
            assert(0 <= i * 30 <= 32730) by (nonlinear_arith)
                requires
                    0 <= i <= 1091,
            ;
        }
        ITEM_Y_START + i * (ITEM_H as i16 + ITEM_SPACING)
    }

    pub fn hit_test_row(&self, y: i16) -> (r: Option<usize>)
        requires
            self.display_rows@.len() <= MAX_ROWS,
        ensures
            match r {
                Some(i) => i as int == row_under(self.display_rows@.len() as int, y as int),
                None => row_under(self.display_rows@.len() as int, y as int) == -1,
            },
    {
        let n = self.display_rows.len();
        let mut i: usize = 0;
        while i < n
            invariant
                i <= n,
                n == self.display_rows@.len(),
                n <= MAX_ROWS,
                forall|k: int| 0 <= k < i ==> !#[trigger] covers(y as int)(k),
            decreases n - i,
        {
            let iy = self.row_y(i);
            if y >= iy && y < iy + ITEM_H as i16 {
                proof {
                    lemma_first_index_is(n as int, covers(y as int), i as int);
                }
                return Some(i);
            }
            i = i + 1;
        }
        proof {
            lemma_first_index_none(n as int, covers(y as int));
        }
        None
    }

    pub fn drop_index_from_y(&self, y: i16) -> (gap: usize)
        requires
            self.display_rows@.len() <= MAX_ROWS,
        ensures
            gap as int == gap_at(self.display_rows@.len() as int, y as int),
    {
        let n = self.display_rows.len();
        let mut i: usize = 0;
        while i < n
            invariant
                i <= n,
                n == self.display_rows@.len(),
                n <= MAX_ROWS,
                forall|k: int| 0 <= k < i ==> !#[trigger] above_middle(y as int)(k),
            decreases n - i,
        {
            let mid = self.row_y(i) + (ITEM_H as i16 / 2);
            if y < mid {
                proof {
                    lemma_first_index_is(n as int, above_middle(y as int), i as int);
                }
                return i;
            }
            i = i + 1;
        }
        proof {
            lemma_first_index_none(n as int, above_middle(y as int));
        }
        n
    }

    pub fn find_item(&self, wid: u32) -> (r: Option<&Item>)
        ensures
            match r {
                Some(it) => {
                    let p = first_match(self.items@, has_wid(wid));
                    p >= 0 && *it == self.items@[p]
                },
                None => first_match(self.items@, has_wid(wid)) == -1,
            },
    {
        let mut i: usize = 0;
        while i < self.items.len()
            invariant
                i <= self.items@.len(),
                forall|k: int| 0 <= k < i ==> self.items@[k].wid != wid,
            decreases self.items@.len() - i,
        {
            if self.items[i].wid == wid {
                proof {
                    lemma_first_match_is(self.items@, has_wid(wid), i as int);
                }
                return Some(&self.items[i]);
            }
            i = i + 1;
        }
        proof {
            lemma_first_match_none(self.items@, has_wid(wid));
        }
        None
    }
}

// ── Group operations ──

pub open spec fn is_slot(s: DisplaySlot) -> spec_fn(DisplaySlot) -> bool {
    |x: DisplaySlot| x == s
}

pub open spec fn not_slot(s: DisplaySlot) -> spec_fn(DisplaySlot) -> bool {
    |x: DisplaySlot| x != s
}

pub open spec fn is_wid(w: u32) -> spec_fn(u32) -> bool {
    |x: u32| x == w
}

pub open spec fn other_than(w: u32) -> spec_fn(u32) -> bool {
    |x: u32| x != w
}

pub open spec fn holds(wid: u32) -> spec_fn(GroupView) -> bool {
    |g: GroupView| g.members.contains(wid)
}

pub open spec fn without_member(g: GroupView, wid: u32) -> GroupView {
    GroupView { members: g.members.filter(other_than(wid)), ..g }
}

pub open spec fn window_slot(w: u32) -> DisplaySlot {
    DisplaySlot::Window(w)
}

pub open spec fn digit_char(d: int) -> char {
    (d + 48) as char
}

/// The decimal digits of `n`, most significant first.
pub open spec fn decimal(n: nat) -> Seq<char>
    decreases n,
{
    if n < 10 {
        seq![digit_char(n as int)]
    } else {
        decimal(n / 10).push(digit_char((n % 10) as int))
    }
}

/// "Group " followed by `n` in decimal.
pub open spec fn numbered_name(n: nat) -> Seq<char> {
    seq!['G', 'r', 'o', 'u', 'p', ' '] + decimal(n)
}

/// "Group " and the number in decimal digits.
fn numbered_group_name(n: u32) -> (name: String)
    ensures
        name@ == numbered_name(n as nat),
{
    proof {
        reveal_strlit("Group ");
    }
    let mut name = String::from_str("Group ");
    let digits = crate::draw::decimal_text(n as u64);
    name.append(digits.as_str());
    proof {
        assert(name@ =~= numbered_name(n as nat));
    }
    name
}

/// A new group, numbered by the counter, holding `wid`; it takes the place of
/// `wid`'s first window slot, if there is one.
pub open spec fn with_group_created(m: PanelModel, wid: u32) -> PanelModel {
    let gid = m.next_group_id;
    let k = first_match(m.order, is_slot(DisplaySlot::Window(wid)));
    with_rows(
        PanelModel {
            groups: m.groups.push(
                GroupView { id: gid, name: numbered_name((gid + 1) as nat), collapsed: false, members: seq![wid] },
            ),
            order: if k >= 0 {
                m.order.update(k, DisplaySlot::Group(gid))
            } else {
                m.order
            },
            next_group_id: (gid + 1) as u32,
            ..m
        },
    )
}

/// `wid` leaves the top level and every group, then joins the end of the
/// first group with id `gid`, if there is one.
pub open spec fn with_member_added(m: PanelModel, gid: u32, wid: u32) -> PanelModel {
    let gs = m.groups.map_values(|g: GroupView| without_member(g, wid));
    let p = group_at(gs, gid);
    with_rows(
        PanelModel {
            order: m.order.filter(not_slot(DisplaySlot::Window(wid))),
            groups: if p >= 0 {
                gs.update(p, GroupView { members: gs[p].members.push(wid), ..gs[p] })
            } else {
                gs
            },
            ..m
        },
    )
}

/// The first group holding `wid` loses its first occurrence of it, and `wid`
/// comes back as a window slot just after that group's slot (at the end when
/// the group has no slot). Without such a group only the rows are rebuilt.
pub open spec fn with_member_removed(m: PanelModel, wid: u32) -> PanelModel {
    let p = first_match(m.groups, holds(wid));
    if p >= 0 {
        let g = m.groups[p];
        let pos = first_match(g.members, is_wid(wid));
        let sp = first_match(m.order, is_slot(DisplaySlot::Group(g.id)));
        let at = if sp >= 0 {
            sp + 1
        } else {
            m.order.len() as int
        };
        with_rows(
            PanelModel {
                groups: m.groups.update(p, GroupView { members: g.members.remove(pos), ..g }),
                order: m.order.insert(at, DisplaySlot::Window(wid)),
                ..m
            },
        )
    } else {
        with_rows(m)
    }
}

/// The first group with id `gid` goes; when it has a slot, its members take
/// that slot's place as window slots, in member order.
pub open spec fn with_group_deleted(m: PanelModel, gid: u32) -> PanelModel {
    let gp = group_at(m.groups, gid);
    if gp >= 0 {
        let members = m.groups[gp].members;
        let sp = first_match(m.order, is_slot(DisplaySlot::Group(gid)));
        with_rows(
            PanelModel {
                groups: m.groups.remove(gp),
                order: if sp >= 0 {
                    m.order.take(sp) + members.map_values(|w: u32| window_slot(w)) + m.order.skip(sp + 1)
                } else {
                    m.order
                },
                ..m
            },
        )
    } else {
        with_rows(m)
    }
}

pub const GROUP_PRESET_COUNT: usize = 6;

/// The names a group cycles through when renamed.
pub open spec fn presets() -> Seq<Seq<char>> {
    seq!["Alpha"@, "Beta"@, "Gamma"@, "Delta"@, "Epsilon"@, "Zeta"@]
}

pub open spec fn is_text(t: Seq<char>) -> spec_fn(Seq<char>) -> bool {
    |x: Seq<char>| x == t
}

/// The preset after `name`, cyclically; the first preset when `name` is none.
pub open spec fn next_preset(name: Seq<char>) -> Seq<char> {
    let i = first_match(presets(), is_text(name));
    if i >= 0 {
        presets()[(i + 1) % (GROUP_PRESET_COUNT as int)]
    } else {
        presets()[0]
    }
}

pub open spec fn with_group_renamed(m: PanelModel, gid: u32) -> PanelModel {
    let p = group_at(m.groups, gid);
    if p >= 0 {
        PanelModel { groups: m.groups.update(p, GroupView { name: next_preset(m.groups[p].name), ..m.groups[p] }), ..m }
    } else {
        m
    }
}

pub open spec fn with_group_toggled(m: PanelModel, gid: u32) -> PanelModel {
    let p = group_at(m.groups, gid);
    with_rows(
        if p >= 0 {
            PanelModel {
                groups: m.groups.update(p, GroupView { collapsed: !m.groups[p].collapsed, ..m.groups[p] }),
                ..m
            }
        } else {
            m
        },
    )
}

/// The first group with id `gid` loses every occurrence of `wid`; rows are kept.
pub open spec fn with_member_dropped(m: PanelModel, gid: u32, wid: u32) -> PanelModel {
    let p = group_at(m.groups, gid);
    if p >= 0 {
        PanelModel { groups: m.groups.update(p, without_member(m.groups[p], wid)), ..m }
    } else {
        m
    }
}

fn preset(i: usize) -> (name: String)
    requires
        i < GROUP_PRESET_COUNT,
    ensures
        name@ == presets()[i as int],
{
    match i {
        0 => "Alpha".to_owned(),
        1 => "Beta".to_owned(),
        2 => "Gamma".to_owned(),
        3 => "Delta".to_owned(),
        4 => "Epsilon".to_owned(),
        _ => "Zeta".to_owned(),
    }
}

fn preset_position(name: &String) -> (r: Option<usize>)
    ensures
        match r {
            Some(i) => i as int == first_match(presets(), is_text(name@)) && i < GROUP_PRESET_COUNT,
            None => first_match(presets(), is_text(name@)) == -1,
        },
{
    let mut i: usize = 0;
    while i < GROUP_PRESET_COUNT
        invariant
            i <= GROUP_PRESET_COUNT,
            forall|k: int| 0 <= k < i ==> presets()[k] != name@,
        decreases GROUP_PRESET_COUNT - i,
    {
        let p = preset(i);
        if *name == p {
            proof {
                lemma_first_match_is(presets(), is_text(name@), i as int);
            }
            return Some(i);
        }
        i = i + 1;
    }
    proof {
        lemma_first_match_none(presets(), is_text(name@));
    }
    None
}

fn find_slot(order: &Vec<DisplaySlot>, s: DisplaySlot) -> (r: Option<usize>)
    ensures
        match r {
            Some(i) => i as int == first_match(order@, is_slot(s)) && i < order@.len(),
            None => first_match(order@, is_slot(s)) == -1,
        },
{
    let mut i: usize = 0;
    while i < order.len()
        invariant
            i <= order@.len(),
            forall|k: int| 0 <= k < i ==> order@[k] != s,
        decreases order@.len() - i,
    {
        if order[i] == s {
            proof {
                lemma_first_match_is(order@, is_slot(s), i as int);
            }
            return Some(i);
        }
        i = i + 1;
    }
    proof {
        lemma_first_match_none(order@, is_slot(s));
    }
    None
}

fn position_of_wid(v: &Vec<u32>, w: u32) -> (r: Option<usize>)
    ensures
        match r {
            Some(i) => i as int == first_match(v@, is_wid(w)) && i < v@.len(),
            None => first_match(v@, is_wid(w)) == -1 && !v@.contains(w),
        },
{
    let mut i: usize = 0;
    while i < v.len()
        invariant
            i <= v@.len(),
            forall|k: int| 0 <= k < i ==> v@[k] != w,
        decreases v@.len() - i,
    {
        if v[i] == w {
            proof {
                lemma_first_match_is(v@, is_wid(w), i as int);
            }
            return Some(i);
        }
        i = i + 1;
    }
    proof {
        lemma_first_match_none(v@, is_wid(w));
    }
    None
}

fn without_wid(v: &Vec<u32>, w: u32) -> (r: Vec<u32>)
    ensures
        r@ == v@.filter(other_than(w)),
{
    let mut r: Vec<u32> = Vec::new();
    let mut i: usize = 0;
    while i < v.len()
        invariant
            i <= v@.len(),
            r@ == v@.take(i as int).filter(other_than(w)),
        decreases v@.len() - i,
    {
        proof {
            lemma_take_push(v@, i as int);
            v@.take(i as int).lemma_filter_push(v@[i as int], other_than(w));
        }
        if v[i] != w {
            r.push(v[i]);
        }
        i = i + 1;
    }
    proof {
        assert(v@.take(v@.len() as int) =~= v@);
    }
    r
}

fn without_slot(d: &Vec<DisplaySlot>, s: DisplaySlot) -> (r: Vec<DisplaySlot>)
    ensures
        r@ == d@.filter(not_slot(s)),
{
    let mut r: Vec<DisplaySlot> = Vec::new();
    let mut i: usize = 0;
    while i < d.len()
        invariant
            i <= d@.len(),
            r@ == d@.take(i as int).filter(not_slot(s)),
        decreases d@.len() - i,
    {
        proof {
            lemma_take_push(d@, i as int);
            d@.take(i as int).lemma_filter_push(d@[i as int], not_slot(s));
        }
        if d[i] != s {
            r.push(d[i]);
        }
        i = i + 1;
    }
    proof {
        assert(d@.take(d@.len() as int) =~= d@);
    }
    r
}

fn copy_wids(v: &Vec<u32>) -> (r: Vec<u32>)
    ensures
        r@ == v@,
{
    let mut r: Vec<u32> = Vec::new();
    let mut i: usize = 0;
    while i < v.len()
        invariant
            i <= v@.len(),
            r@ == v@.take(i as int),
        decreases v@.len() - i,
    {
        r.push(v[i]);
        proof {
            lemma_take_push(v@, i as int);
        }
        i = i + 1;
    }
    proof {
        assert(v@.take(v@.len() as int) =~= v@);
    }
    r
}

/// The group at `p` with its members replaced.
fn set_members(gs: &mut Vec<Group>, p: usize, members: Vec<u32>)
    requires
        p < old(gs)@.len(),
    ensures
        final(gs)@.len() == old(gs)@.len(),
        group_views(final(gs)@) == group_views(old(gs)@).update(
            p as int,
            GroupView { members: members@, ..group_views(old(gs)@)[p as int] },
        ),
{
    let g = Group { id: gs[p].id, name: gs[p].name.clone(), collapsed: gs[p].collapsed, member_wids: members };
    gs.set(p, g);
    proof {
        assert(group_views(gs@) =~= group_views(old(gs)@).update(
            p as int,
            GroupView { members: members@, ..group_views(old(gs)@)[p as int] },
        ));
    }
}

fn strip_wid(gs: &mut Vec<Group>, wid: u32)
    ensures
        group_views(final(gs)@) == group_views(old(gs)@).map_values(|g: GroupView| without_member(g, wid)),
{
    let ghost orig = group_views(gs@);
    let mut i: usize = 0;
    while i < gs.len()
        invariant
            i <= gs@.len(),
            gs@.len() == orig.len(),
            forall|k: int| 0 <= k < i ==> #[trigger] group_views(gs@)[k] == without_member(orig[k], wid),
            forall|k: int| i <= k < gs@.len() ==> #[trigger] group_views(gs@)[k] == orig[k],
        decreases gs@.len() - i,
    {
        let members = without_wid(&gs[i].member_wids, wid);
        set_members(gs, i, members);
        i = i + 1;
    }
    proof {
        assert(group_views(gs@) =~= orig.map_values(|g: GroupView| without_member(g, wid)));
    }
}

fn first_holding(gs: &Vec<Group>, wid: u32) -> (r: Option<(usize, usize)>)
    ensures
        match r {
            Some((p, pos)) => {
                &&& p as int == first_match(group_views(gs@), holds(wid))
                &&& p < gs@.len()
                &&& pos as int == first_match(gs@[p as int].member_wids@, is_wid(wid))
                &&& pos < gs@[p as int].member_wids@.len()
            },
            None => first_match(group_views(gs@), holds(wid)) == -1,
        },
{
    let ghost gv = group_views(gs@);
    let mut i: usize = 0;
    while i < gs.len()
        invariant
            i <= gs@.len(),
            gv == group_views(gs@),
            forall|k: int| 0 <= k < i ==> !gv[k].members.contains(wid),
        decreases gs@.len() - i,
    {
        match position_of_wid(&gs[i].member_wids, wid) {
            Some(pos) => {
                proof {
                    lemma_first_match(gs@[i as int].member_wids@, is_wid(wid));
                    assert(gv[i as int].members.contains(wid));
                    lemma_first_match_is(gv, holds(wid), i as int);
                }
                return Some((i, pos));
            },
            None => {},
        }
        i = i + 1;
    }
    proof {
        lemma_first_match_none(gv, holds(wid));
    }
    None
}

fn take_out_member(gs: &mut Vec<Group>, order: &mut Vec<DisplaySlot>, wid: u32)
    ensures
        ({
            let p = first_match(group_views(old(gs)@), holds(wid));
            if p >= 0 {
                let g = group_views(old(gs)@)[p];
                let pos = first_match(g.members, is_wid(wid));
                let sp = first_match(old(order)@, is_slot(DisplaySlot::Group(g.id)));
                let at = if sp >= 0 {
                    sp + 1
                } else {
                    old(order)@.len() as int
                };
                &&& group_views(final(gs)@) == group_views(old(gs)@).update(p, GroupView { members: g.members.remove(pos), ..g })
                &&& final(order)@ == old(order)@.insert(at, DisplaySlot::Window(wid))
            } else {
                &&& final(gs)@ == old(gs)@
                &&& final(order)@ == old(order)@
            }
        }),
{
    match first_holding(gs, wid) {
        Some((p, pos)) => {
            let gid = gs[p].id;
            let mut members = copy_wids(&gs[p].member_wids);
            members.remove(pos);
            set_members(gs, p, members);
            let n = order.len();
            let at = match find_slot(order, DisplaySlot::Group(gid)) {
                Some(sp) => sp + 1,
                None => n,
            };
            order.insert(at, DisplaySlot::Window(wid));
        },
        None => {},
    }
}

fn take_out_group(gs: &mut Vec<Group>, order: &mut Vec<DisplaySlot>, gid: u32)
    ensures
        ({
            let gp = group_at(group_views(old(gs)@), gid);
            if gp >= 0 {
                let members = group_views(old(gs)@)[gp].members;
                let sp = first_match(old(order)@, is_slot(DisplaySlot::Group(gid)));
                &&& group_views(final(gs)@) == group_views(old(gs)@).remove(gp)
                &&& final(order)@ == if sp >= 0 {
                    old(order)@.take(sp) + members.map_values(|w: u32| window_slot(w)) + old(order)@.skip(sp + 1)
                } else {
                    old(order)@
                }
            } else {
                &&& final(gs)@ == old(gs)@
                &&& final(order)@ == old(order)@
            }
        }),
{
    match find_group_index(gs, gid) {
        Some(gp) => {
            let members = copy_wids(&gs[gp].member_wids);
            let ghost gbefore = gs@;
            gs.remove(gp);
            proof {
                assert(group_views(gs@) =~= group_views(gbefore).remove(gp as int));
            }
            match find_slot(order, DisplaySlot::Group(gid)) {
                Some(sp) => {
                    let ghost orig = order@;
                    order.remove(sp);
                    proof {
                        assert(order@ =~= orig.take(sp as int) + members@.take(0).map_values(|w: u32| window_slot(w)) + orig.skip(sp + 1));
                    }
                    let mut i: usize = 0;
                    while i < members.len()
                        invariant
                            i <= members@.len(),
                            sp < orig.len(),
                            order@ == orig.take(sp as int) + members@.take(i as int).map_values(
                                |w: u32| window_slot(w),
                            ) + orig.skip(sp + 1),
                        decreases members@.len() - i,
                    {
                        let len = order.len();
                        proof {
                            assert(order@.len() == sp + i + (orig.len() - sp - 1));
                        }
                        order.insert(sp + i, DisplaySlot::Window(members[i]));
                        proof {
                            lemma_take_push(members@, i as int);
                            lemma_map_values_push(members@.take(i as int), members@[i as int], |w: u32| window_slot(w));
                            assert(order@ =~= orig.take(sp as int) + members@.take(i + 1).map_values(
                                |w: u32| window_slot(w),
                            ) + orig.skip(sp + 1));
                        }
                        i = i + 1;
                    }
                    proof {
                        assert(members@.take(members@.len() as int) =~= members@);
                    }
                },
                None => {},
            }
        },
        None => {},
    }
}

impl App {
    pub fn create_group(&mut self, wid: u32)
        requires
            old(self).next_group_id < u32::MAX,
        ensures
            final(self)@ == with_group_created(old(self)@, wid),
    {
        let gid = self.next_group_id;
        self.next_group_id = gid + 1;
        let name = numbered_group_name(gid + 1);
        let g = Group { id: gid, name, collapsed: false, member_wids: vec![wid] };
        let ghost before = self.groups@;
        self.groups.push(g);
        proof {
            lemma_map_values_push(before, g, |g: Group| g@);
            assert(g@.members =~= seq![wid]);
        }
        match find_slot(&self.display_order, DisplaySlot::Window(wid)) {
            Some(k) => {
                self.display_order.set(k, DisplaySlot::Group(gid));
            },
            None => {},
        }
        self.build_display_rows();
    }

    pub fn add_to_group(&mut self, gid: u32, wid: u32)
        ensures
            final(self)@ == with_member_added(old(self)@, gid, wid),
    {
        let order = without_slot(&self.display_order, DisplaySlot::Window(wid));
        self.display_order = order;
        strip_wid(&mut self.groups, wid);
        match find_group_index(&self.groups, gid) {
            Some(p) => {
                let mut members = copy_wids(&self.groups[p].member_wids);
                members.push(wid);
                set_members(&mut self.groups, p, members);
            },
            None => {},
        }
        self.build_display_rows();
    }

    pub fn remove_from_group(&mut self, wid: u32)
        ensures
            final(self)@ == with_member_removed(old(self)@, wid),
    {
        let ghost m = self@;
        take_out_member(&mut self.groups, &mut self.display_order, wid);
        proof {
            let p = first_match(m.groups, holds(wid));
            if p >= 0 {
                assert(self@ == PanelModel {
                    groups: self@.groups,
                    order: self@.order,
                    ..m
                });
            } else {
                assert(self@ == m);
            }
        }
        self.build_display_rows();
    }

    pub fn delete_group(&mut self, gid: u32)
        ensures
            final(self)@ == with_group_deleted(old(self)@, gid),
    {
        let ghost m = self@;
        take_out_group(&mut self.groups, &mut self.display_order, gid);
        proof {
            if group_at(m.groups, gid) >= 0 {
                assert(self@ == PanelModel {
                    groups: self@.groups,
                    order: self@.order,
                    ..m
                });
            } else {
                assert(self@ == m);
            }
        }
        self.build_display_rows();
    }

    pub fn rename_group(&mut self, gid: u32)
        ensures
            final(self)@ == with_group_renamed(old(self)@, gid),
    {
        match find_group_index(&self.groups, gid) {
            Some(p) => {
                let next = match preset_position(&self.groups[p].name) {
                    Some(i) => (i + 1) % GROUP_PRESET_COUNT,
                    None => 0,
                };
                let name = preset(next);
                let g = Group {
                    id: self.groups[p].id,
                    name,
                    collapsed: self.groups[p].collapsed,
                    member_wids: copy_wids(&self.groups[p].member_wids),
                };
                self.groups.set(p, g);
                proof {
                    assert(group_views(self.groups@) =~= with_group_renamed(old(self)@, gid).groups);
                }
            },
            None => {},
        }
    }

    pub fn toggle_collapse(&mut self, gid: u32)
        ensures
            final(self)@ == with_group_toggled(old(self)@, gid),
    {
        match find_group_index(&self.groups, gid) {
            Some(p) => {
                let g = Group {
                    id: self.groups[p].id,
                    name: self.groups[p].name.clone(),
                    collapsed: !self.groups[p].collapsed,
                    member_wids: copy_wids(&self.groups[p].member_wids),
                };
                self.groups.set(p, g);
                proof {
                    assert(group_views(self.groups@) =~= group_views(old(self).groups@).update(
                        p as int,
                        GroupView { collapsed: !group_views(old(self).groups@)[p as int].collapsed, ..group_views(old(self).groups@)[p as int] },
                    ));
                }
            },
            None => {},
        }
        self.build_display_rows();
    }

    pub fn remove_wid_from_group(&mut self, gid: u32, wid: u32)
        ensures
            final(self)@ == with_member_dropped(old(self)@, gid, wid),
    {
        match find_group_index(&self.groups, gid) {
            Some(p) => {
                let members = without_wid(&self.groups[p].member_wids, wid);
                set_members(&mut self.groups, p, members);
            },
            None => {},
        }
    }
}

// ── Drag-and-drop ──

pub open spec fn is_header_of(gid: u32) -> spec_fn(DisplayRow) -> bool {
    |r: DisplayRow|
        match r {
            DisplayRow::GroupHeader { group_id } => group_id == gid,
            _ => false,
        }
}

pub open spec fn is_member_row_of(r: DisplayRow, gid: u32) -> bool {
    match r {
        DisplayRow::Window { group_id: Some(g), .. } => g == gid,
        _ => false,
    }
}

/// How many consecutive rows from `i` on are member rows of group `gid`.
pub open spec fn member_run(rows: Seq<DisplayRow>, gid: u32, i: int) -> int
    decreases rows.len() - i,
{
    if 0 <= i < rows.len() && is_member_row_of(rows[i], gid) {
        1 + member_run(rows, gid, i + 1)
    } else {
        0
    }
}

/// Whether gap `gap` lies inside the block of group `gid`: after its header
/// row and no later than just past the member rows that follow it.
pub open spec fn gap_in_group(rows: Seq<DisplayRow>, gap: int, gid: u32) -> bool {
    let hr = first_match(rows, is_header_of(gid));
    hr >= 0 && gap > hr && gap <= hr + member_run(rows, gid, hr + 1) + 1
}

pub open spec fn reaches(gs: Seq<GroupView>, order: Seq<DisplaySlot>, gap: int) -> spec_fn(int) -> bool {
    |k: int| rows_of(gs, order.take(k)).len() >= gap
}

/// The slot position matching row gap `gap`: the first slot before which at
/// least `gap` rows are rendered, or the end.
pub open spec fn slot_for_gap(gs: Seq<GroupView>, order: Seq<DisplaySlot>, gap: int) -> int {
    let k = first_index(order.len() as int, reaches(gs, order, gap));
    if k >= 0 {
        k
    } else {
        order.len() as int
    }
}

/// The first slot equal to `target` moves to the slot position of `gap`
/// (one less when that lies after the slot's old place).
pub open spec fn with_slot_moved(m: PanelModel, target: DisplaySlot, gap: int) -> PanelModel {
    let sp = first_match(m.order, is_slot(target));
    if sp >= 0 {
        let dst = slot_for_gap(m.groups, m.order, gap);
        let at = if dst > sp {
            dst - 1
        } else {
            dst
        };
        PanelModel { order: moved(m.order, sp, at), ..m }
    } else {
        m
    }
}

pub open spec fn at_most(a: int, b: int) -> int {
    if a <= b {
        a
    } else {
        b
    }
}

/// Inside the first group with id `gid`, whose header is on screen, `wid`
/// moves to the member position matching `gap`.
pub open spec fn with_member_moved(m: PanelModel, gid: u32, wid: u32, gap: int) -> PanelModel {
    let hr = first_match(m.rows, is_header_of(gid));
    let p = group_at(m.groups, gid);
    if hr >= 0 && p >= 0 {
        let members = m.groups[p].members;
        let sp = first_match(members, is_wid(wid));
        if sp >= 0 {
            let target = if gap > hr + 1 {
                gap - hr - 1
            } else {
                0
            };
            let rest = members.remove(sp);
            let at = if target > sp {
                at_most(target - 1, rest.len() as int)
            } else {
                at_most(target, rest.len() as int)
            };
            PanelModel { groups: m.groups.update(p, GroupView { members: rest.insert(at, wid), ..m.groups[p] }), ..m }
        } else {
            m
        }
    } else {
        m
    }
}

/// `wid` joins the end of the first group with id `gid`, if there is one.
pub open spec fn with_member_appended(m: PanelModel, gid: u32, wid: u32) -> PanelModel {
    let p = group_at(m.groups, gid);
    if p >= 0 {
        PanelModel { groups: m.groups.update(p, GroupView { members: m.groups[p].members.push(wid), ..m.groups[p] }), ..m }
    } else {
        m
    }
}

/// The group whose header row is under height `y`, if any.
pub open spec fn header_under(m: PanelModel, y: int) -> Option<u32> {
    let r = row_under(m.rows.len() as int, y);
    if r >= 0 {
        match m.rows[r] {
            DisplayRow::GroupHeader { group_id } => Some(group_id),
            _ => None,
        }
    } else {
        None
    }
}

/// A window dropped on the header of group `t`, not its own: it leaves its
/// group (or the top level) and joins the end of `t`.
pub open spec fn dropped_on_header(m: PanelModel, wid: u32, src: Option<u32>, t: u32) -> PanelModel {
    let m1 = match src {
        Some(g) => with_member_dropped(m, g, wid),
        None => PanelModel { order: m.order.filter(not_slot(DisplaySlot::Window(wid))), ..m },
    };
    with_member_appended(m1, t, wid)
}

/// A window of group `g` dropped outside the group's block: it leaves the
/// group and takes a top-level slot at the drop gap.
pub open spec fn dropped_off_group(m: PanelModel, g: u32, wid: u32, gap: int) -> PanelModel {
    let m1 = with_member_dropped(m, g, wid);
    PanelModel { order: m1.order.insert(slot_for_gap(m1.groups, m1.order, gap), DisplaySlot::Window(wid)), ..m1 }
}

/// Dropping the row `source_row` at height `y`: a group header moves its
/// slot; a window dropped on another group's header joins that group; a
/// grouped window dropped inside its group's block moves within it, and
/// dropped elsewhere leaves the group for a top-level slot at the drop gap;
/// an ungrouped window moves its slot. Rows are rebuilt except when nothing
/// was done.
pub open spec fn dropped(m: PanelModel, source_row: int, y: int) -> PanelModel {
    if source_row >= m.rows.len() {
        m
    } else {
        let gap = gap_at(m.rows.len() as int, y);
        match m.rows[source_row] {
            DisplayRow::GroupHeader { group_id } => with_rows(with_slot_moved(m, DisplaySlot::Group(group_id), gap)),
            DisplayRow::Window { wid, group_id: src } => match header_under(m, y) {
                Some(t) => {
                    if src == Some(t) {
                        m
                    } else {
                        with_rows(dropped_on_header(m, wid, src, t))
                    }
                },
                None => match src {
                    Some(g) => {
                        if gap_in_group(m.rows, gap, g) {
                            with_rows(with_member_moved(m, g, wid, gap))
                        } else {
                            with_rows(dropped_off_group(m, g, wid, gap))
                        }
                    },
                    None => with_rows(with_slot_moved(m, DisplaySlot::Window(wid), gap)),
                },
            },
        }
    }
}

proof fn lemma_member_run_step(rows: Seq<DisplayRow>, gid: u32, i: int)
    requires
        0 <= i < rows.len(),
        is_member_row_of(rows[i], gid),
    ensures
        member_run(rows, gid, i) == 1 + member_run(rows, gid, i + 1),
{
}

pub proof fn lemma_rows_prefix(gs: Seq<GroupView>, order: Seq<DisplaySlot>, k: int)
    requires
        0 <= k <= order.len(),
    ensures
        rows_of(gs, order.take(k)).len() <= rows_of(gs, order).len(),
    decreases order.len(),
{
    if k == order.len() {
        assert(order.take(k) =~= order);
    } else {
        assert(order.drop_last().take(k) =~= order.take(k));
        lemma_rows_prefix(gs, order.drop_last(), k);
    }
}

fn find_header(rows: &Vec<DisplayRow>, gid: u32) -> (r: Option<usize>)
    ensures
        match r {
            Some(i) => i as int == first_match(rows@, is_header_of(gid)) && i < rows@.len(),
            None => first_match(rows@, is_header_of(gid)) == -1,
        },
{
    let mut i: usize = 0;
    while i < rows.len()
        invariant
            i <= rows@.len(),
            forall|k: int| 0 <= k < i ==> !#[trigger] is_header_of(gid)(rows@[k]),
        decreases rows@.len() - i,
    {
        match rows[i] {
            DisplayRow::GroupHeader { group_id } => {
                if group_id == gid {
                    proof {
                        lemma_first_match_is(rows@, is_header_of(gid), i as int);
                    }
                    return Some(i);
                }
            },
            _ => {},
        }
        i = i + 1;
    }
    proof {
        lemma_first_match_none(rows@, is_header_of(gid));
    }
    None
}

fn member_row_of(r: &DisplayRow, gid: u32) -> (b: bool)
    ensures
        b == is_member_row_of(*r, gid),
{
    match r {
        DisplayRow::Window { group_id: Some(g), .. } => *g == gid,
        _ => false,
    }
}

/// The rows a slot renders beyond its first one.
fn extra_rows(gs: &Vec<Group>, slot: DisplaySlot) -> (n: usize)
    ensures
        n + 1 == slot_rows(group_views(gs@), slot).len(),
{
    match slot {
        DisplaySlot::Window(_) => 0,
        DisplaySlot::Group(gid) => {
            match find_group_index(gs, gid) {
                Some(p) => {
                    if !gs[p].collapsed {
                        gs[p].member_wids.len()
                    } else {
                        0
                    }
                },
                None => 0,
            }
        },
    }
}

proof fn lemma_rows_count_step(gs: Seq<GroupView>, order: Seq<DisplaySlot>, k: int)
    requires
        0 <= k < order.len(),
    ensures
        rows_of(gs, order.take(k + 1)).len() == rows_of(gs, order.take(k)).len() + slot_rows(gs, order[k]).len(),
        rows_of(gs, order.take(k + 1)).len() <= rows_of(gs, order).len(),
{
    lemma_rows_step(gs, order, k);
    lemma_rows_prefix(gs, order, k + 1);
}

#[verifier::spinoff_prover]
#[verifier::rlimit(100)]
fn slot_position_for_gap(gs: &Vec<Group>, order: &Vec<DisplaySlot>, gap: usize) -> (k: usize)
    requires
        rows_of(group_views(gs@), order@).len() <= usize::MAX,
    ensures
        k as int == slot_for_gap(group_views(gs@), order@, gap as int),
        k <= order@.len(),
{
    let ghost gv = group_views(gs@);
    let mut row_count: usize = 0;
    let mut slot_idx: usize = 0;
    while slot_idx < order.len()
        invariant
            slot_idx <= order@.len(),
            gv == group_views(gs@),
            rows_of(gv, order@).len() <= usize::MAX,
            row_count as int == rows_of(gv, order@.take(slot_idx as int)).len(),
            forall|k: int| 0 <= k < slot_idx ==> !#[trigger] reaches(gv, order@, gap as int)(k),
        decreases order@.len() - slot_idx,
    {
        if row_count >= gap {
            proof {
                lemma_first_index_is(order@.len() as int, reaches(gv, order@, gap as int), slot_idx as int);
            }
            return slot_idx;
        }
        proof {
            lemma_rows_count_step(gv, order@, slot_idx as int);
        }
        let extra = extra_rows(gs, order[slot_idx]);
        row_count = row_count + 1;
        row_count = row_count + extra;
        slot_idx = slot_idx + 1;
    }
    proof {
        lemma_first_index_none(order@.len() as int, reaches(gv, order@, gap as int));
    }
    order.len()
}

proof fn lemma_filter_no_longer(s: Seq<u32>, w: u32)
    ensures
        s.filter(other_than(w)).len() <= s.len(),
{
    s.filter_lemma(other_than(w));
}

proof fn lemma_same_ids(gs: Seq<GroupView>, p: int, g: GroupView, gid: u32)
    requires
        0 <= p < gs.len(),
        g.id == gs[p].id,
    ensures
        group_at(gs.update(p, g), gid) == group_at(gs, gid),
{
    let hs = gs.update(p, g);
    lemma_first_match(gs, has_id(gid));
    lemma_first_match(hs, has_id(gid));
    let a = group_at(gs, gid);
    let b = group_at(hs, gid);
    if a >= 0 && b >= 0 {
        if a < b {
            assert(has_id(gid)(hs[a]));
        } else if b < a {
            assert(has_id(gid)(gs[b]));
        }
    } else if a >= 0 {
        assert(has_id(gid)(hs[a]));
    } else if b >= 0 {
        assert(has_id(gid)(gs[b]));
    }
}

/// How many members a slot shows under its header.
pub open spec fn shown_members(gs: Seq<GroupView>, slot: DisplaySlot) -> int {
    match slot {
        DisplaySlot::Window(_) => 0,
        DisplaySlot::Group(g) => {
            let q = group_at(gs, g);
            if q >= 0 && !gs[q].collapsed {
                gs[q].members.len() as int
            } else {
                0
            }
        },
    }
}

proof fn lemma_slot_rows_len(gs: Seq<GroupView>, slot: DisplaySlot)
    ensures
        slot_rows(gs, slot).len() == 1 + shown_members(gs, slot),
{
}

proof fn lemma_slot_rows_shrink(gs: Seq<GroupView>, p: int, wid: u32, slot: DisplaySlot)
    requires
        0 <= p < gs.len(),
    ensures
        slot_rows(gs.update(p, without_member(gs[p], wid)), slot).len() <= slot_rows(gs, slot).len(),
{
    let hs = gs.update(p, without_member(gs[p], wid));
    lemma_slot_rows_len(gs, slot);
    lemma_slot_rows_len(hs, slot);
    match slot {
        DisplaySlot::Window(w) => {
            assert(shown_members(hs, slot) == 0 && shown_members(gs, slot) == 0);
        },
        DisplaySlot::Group(g) => {
            lemma_same_ids(gs, p, without_member(gs[p], wid), g);
            lemma_filter_no_longer(gs[p].members, wid);
            let q = group_at(gs, g);
            lemma_first_match(gs, has_id(g));
            assert(group_at(hs, g) == q);
            if q >= 0 {
                if q == p {
                    assert(hs[q].collapsed == gs[q].collapsed);
                    assert(hs[q].members.len() <= gs[q].members.len());
                } else {
                    assert(hs[q] == gs[q]);
                }
            }
            assert(shown_members(hs, slot) <= shown_members(gs, slot));
        },
    }
}

/// Dropping members from one group never adds rows.
pub proof fn lemma_rows_shrink(gs: Seq<GroupView>, order: Seq<DisplaySlot>, p: int, wid: u32)
    requires
        0 <= p < gs.len(),
    ensures
        rows_of(gs.update(p, without_member(gs[p], wid)), order).len() <= rows_of(gs, order).len(),
    decreases order.len(),
{
    if order.len() > 0 {
        lemma_rows_shrink(gs, order.drop_last(), p, wid);
        lemma_slot_rows_shrink(gs, p, wid, order.last());
    }
}

/// Moves the slot at `sp` to slot position `dst` (counted before the move).
fn move_slot(order: &mut Vec<DisplaySlot>, sp: usize, dst: usize)
    requires
        sp < old(order)@.len(),
        dst <= old(order)@.len(),
    ensures
        final(order)@ == moved(old(order)@, sp as int, if dst > sp { dst - 1 } else { dst as int }),
{
    let ghost orig = order@;
    let slot = order.remove(sp);
    let len = order.len();
    let insert_at = if dst > sp {
        if dst - 1 < len {
            dst - 1
        } else {
            len
        }
    } else {
        if dst < len {
            dst
        } else {
            len
        }
    };
    order.insert(insert_at, slot);
    proof {
        assert(order@ =~= moved(orig, sp as int, insert_at as int));
    }
}

impl App {
    pub fn is_gap_in_group(&self, gap: usize, gid: u32) -> (r: bool)
        ensures
            r == gap_in_group(self.display_rows@, gap as int, gid),
    {
        let rows = &self.display_rows;
        let n = rows.len();
        let hr = match find_header(rows, gid) {
            Some(hr) => hr,
            None => {
                return false;
            },
        };
        let mut last_member = hr;
        let mut i = hr + 1;
        while i < rows.len() && member_row_of(&rows[i], gid)
            invariant
                hr < rows@.len(),
                hr + 1 <= i <= rows@.len(),
                last_member + 1 == i,
                member_run(rows@, gid, hr + 1) == (i - (hr + 1)) + member_run(rows@, gid, i as int),
            decreases rows@.len() - i,
        {
            proof {
                lemma_member_run_step(rows@, gid, i as int);
            }
            last_member = i;
            i = i + 1;
        }
        gap > hr && gap <= last_member + 1
    }

    pub fn display_row_to_slot_position(&self, gap: usize) -> (k: usize)
        requires
            rows_of(self@.groups, self@.order).len() <= usize::MAX,
        ensures
            k as int == slot_for_gap(self@.groups, self@.order, gap as int),
            k <= self@.order.len(),
    {
        slot_position_for_gap(&self.groups, &self.display_order, gap)
    }

    pub fn move_slot_to(&mut self, target: &DisplaySlot, drop_gap: usize)
        requires
            rows_of(old(self)@.groups, old(self)@.order).len() <= usize::MAX,
        ensures
            final(self)@ == with_slot_moved(old(self)@, *target, drop_gap as int),
    {
        match find_slot(&self.display_order, *target) {
            Some(sp) => {
                let dst = self.display_row_to_slot_position(drop_gap);
                move_slot(&mut self.display_order, sp, dst);
            },
            None => {},
        }
    }

    pub fn reorder_within_group(&mut self, gid: u32, wid: u32, drop_gap: usize)
        ensures
            final(self)@ == with_member_moved(old(self)@, gid, wid, drop_gap as int),
    {
        let n = self.display_rows.len();
        match find_header(&self.display_rows, gid) {
            Some(hr) => {
                match find_group_index(&self.groups, gid) {
                    Some(p) => {
                        match position_of_wid(&self.groups[p].member_wids, wid) {
                            Some(sp) => {
                                let target_member = if drop_gap > hr + 1 {
                                    drop_gap - hr - 1
                                } else {
                                    0
                                };
                                let mut members = copy_wids(&self.groups[p].member_wids);
                                members.remove(sp);
                                let len = members.len();
                                let insert_at = if target_member > sp {
                                    if target_member - 1 < len {
                                        target_member - 1
                                    } else {
                                        len
                                    }
                                } else {
                                    if target_member < len {
                                        target_member
                                    } else {
                                        len
                                    }
                                };
                                members.insert(insert_at, wid);
                                set_members(&mut self.groups, p, members);
                            },
                            None => {},
                        }
                    },
                    None => {},
                }
            },
            None => {},
        }
    }

    fn drop_on_header(&mut self, wid: u32, src: Option<u32>, t: u32)
        ensures
            final(self)@ == dropped_on_header(old(self)@, wid, src, t),
    {
        match src {
            Some(gid) => {
                self.remove_wid_from_group(gid, wid);
            },
            None => {
                let order = without_slot(&self.display_order, DisplaySlot::Window(wid));
                self.display_order = order;
            },
        }
        match find_group_index(&self.groups, t) {
            Some(p) => {
                let mut members = copy_wids(&self.groups[p].member_wids);
                members.push(wid);
                set_members(&mut self.groups, p, members);
            },
            None => {},
        }
    }

    fn drop_off_group(&mut self, gid: u32, wid: u32, drop_gap: usize)
        requires
            rows_of(old(self)@.groups, old(self)@.order).len() <= usize::MAX,
        ensures
            final(self)@ == dropped_off_group(old(self)@, gid, wid, drop_gap as int),
    {
        proof {
            let m = self@;
            let p = group_at(m.groups, gid);
            lemma_first_match(m.groups, has_id(gid));
            if p >= 0 {
                lemma_rows_shrink(m.groups, m.order, p, wid);
            }
        }
        self.remove_wid_from_group(gid, wid);
        let slot_pos = self.display_row_to_slot_position(drop_gap);
        self.display_order.insert(slot_pos, DisplaySlot::Window(wid));
    }

    pub fn handle_drop(&mut self, source_row: usize, current_y: i16)
        requires
            old(self)@.rows.len() <= MAX_ROWS,
            rows_of(old(self)@.groups, old(self)@.order).len() <= usize::MAX,
        ensures
            final(self)@ == dropped(old(self)@, source_row as int, current_y as int),
    {
        if source_row >= self.display_rows.len() {
            return;
        }
        let source = self.display_rows[source_row];
        let on_header_gid: Option<u32> = match self.hit_test_row(current_y) {
            Some(r) => match self.display_rows[r] {
                DisplayRow::GroupHeader { group_id } => Some(group_id),
                _ => None,
            },
            None => None,
        };
        let drop_gap = self.drop_index_from_y(current_y);
        match source {
            DisplayRow::GroupHeader { group_id } => {
                self.move_slot_to(&DisplaySlot::Group(group_id), drop_gap);
            },
            DisplayRow::Window { wid, group_id: src_gid } => {
                match on_header_gid {
                    Some(target_gid) => {
                        if src_gid == Some(target_gid) {
                            return;
                        }
                        self.drop_on_header(wid, src_gid, target_gid);
                    },
                    None => {
                        match src_gid {
                            Some(gid) => {
                                if self.is_gap_in_group(drop_gap, gid) {
                                    self.reorder_within_group(gid, wid, drop_gap);
                                } else {
                                    self.drop_off_group(gid, wid, drop_gap);
                                }
                            },
                            None => {
                                self.move_slot_to(&DisplaySlot::Window(wid), drop_gap);
                            },
                        }
                    },
                }
            },
        }
        self.build_display_rows();
    }
}

// ── Context menu ──

/// What a menu entry holds.
pub struct MenuEntryView {
    pub label: Seq<char>,
    pub action: MenuAction,
}

impl View for MenuEntry {
    type V = MenuEntryView;

    open spec fn view(&self) -> MenuEntryView {
        MenuEntryView { label: self.label@, action: self.action }
    }
}

pub open spec fn entry(label: Seq<char>, action: MenuAction) -> MenuEntryView {
    MenuEntryView { label: label, action: action }
}

pub open spec fn add_entry(g: GroupView) -> MenuEntryView {
    entry("Add to "@ + g.name, MenuAction::AddToGroup(g.id))
}

/// The context menu of row `row`: a group header offers renaming and
/// deletion; a grouped window offers leaving its group; an ungrouped window
/// offers a new group and joining each existing group; no row, nothing.
pub open spec fn menu_for(m: PanelModel, row: int) -> Seq<MenuEntryView> {
    if row >= m.rows.len() {
        seq![]
    } else {
        match m.rows[row] {
            DisplayRow::GroupHeader { .. } => seq![
                entry("Rename Group"@, MenuAction::RenameGroup),
                entry("Delete Group"@, MenuAction::DeleteGroup),
            ],
            DisplayRow::Window { group_id: Some(_), .. } => seq![
                entry("Remove from Group"@, MenuAction::RemoveFromGroup),
            ],
            DisplayRow::Window { group_id: None, .. } => seq![entry("New Group"@, MenuAction::CreateGroup)]
                + m.groups.map_values(|g: GroupView| add_entry(g)),
        }
    }
}

/// "Add to " followed by the text.
fn add_to_label(name: &str) -> (label: String)
    ensures
        label@ == "Add to "@ + name@,
{
    let mut label = String::from_str("Add to ");
    label.append(name);
    label
}

pub open spec fn entry_views(es: Seq<MenuEntry>) -> Seq<MenuEntryView> {
    es.map_values(|e: MenuEntry| e@)
}

pub fn build_menu_entries(app: &App, row: usize) -> (entries: Vec<MenuEntry>)
    ensures
        entry_views(entries@) == menu_for(app@, row as int),
{
    if row >= app.display_rows.len() {
        let entries: Vec<MenuEntry> = Vec::new();
        proof {
            assert(entry_views(entries@) =~= menu_for(app@, row as int));
        }
        return entries;
    }
    match app.display_rows[row] {
        DisplayRow::GroupHeader { .. } => {
            let entries = vec![
                MenuEntry { label: "Rename Group".to_owned(), action: MenuAction::RenameGroup },
                MenuEntry { label: "Delete Group".to_owned(), action: MenuAction::DeleteGroup },
            ];
            proof {
                assert(entry_views(entries@) =~= menu_for(app@, row as int));
            }
            entries
        },
        DisplayRow::Window { group_id: Some(_), .. } => {
            let entries = vec![
                MenuEntry { label: "Remove from Group".to_owned(), action: MenuAction::RemoveFromGroup },
            ];
            proof {
                assert(entry_views(entries@) =~= menu_for(app@, row as int));
            }
            entries
        },
        DisplayRow::Window { group_id: None, .. } => {
            let ghost gv = app@.groups;
            let mut entries = vec![MenuEntry { label: "New Group".to_owned(), action: MenuAction::CreateGroup }];
            let ghost head = entry_views(entries@);
            let mut i: usize = 0;
            while i < app.groups.len()
                invariant
                    i <= app.groups@.len(),
                    gv == app@.groups,
                    head == seq![entry("New Group"@, MenuAction::CreateGroup)],
                    entry_views(entries@) == head + gv.take(i as int).map_values(|g: GroupView| add_entry(g)),
                decreases app.groups@.len() - i,
            {
                let e = MenuEntry { label: add_to_label(app.groups[i].name.as_str()), action: MenuAction::AddToGroup(app.groups[i].id) };
                let ghost before = entries@;
                entries.push(e);
                proof {
                    lemma_map_values_push(before, e, |e: MenuEntry| e@);
                    lemma_take_push(gv, i as int);
                    lemma_map_values_push(gv.take(i as int), gv[i as int], |g: GroupView| add_entry(g));
                    assert(entry_views(entries@) =~= head + gv.take(i + 1).map_values(|g: GroupView| add_entry(g)));
                }
                i = i + 1;
            }
            proof {
                assert(gv.take(app.groups@.len() as int) =~= gv);
            }
            entries
        },
    }
}

/// Carrying out a menu action on row `row`: creating, joining and leaving
/// groups apply to a window row, renaming and deleting to a group header row;
/// anything else does nothing.
pub open spec fn acted(m: PanelModel, action: MenuAction, row: int) -> PanelModel {
    if row >= m.rows.len() {
        m
    } else {
        match (action, m.rows[row]) {
            (MenuAction::CreateGroup, DisplayRow::Window { wid, .. }) => with_group_created(m, wid),
            (MenuAction::AddToGroup(g), DisplayRow::Window { wid, .. }) => with_member_added(m, g, wid),
            (MenuAction::RemoveFromGroup, DisplayRow::Window { wid, .. }) => with_member_removed(m, wid),
            (MenuAction::RenameGroup, DisplayRow::GroupHeader { group_id }) => with_group_renamed(m, group_id),
            (MenuAction::DeleteGroup, DisplayRow::GroupHeader { group_id }) => with_group_deleted(m, group_id),
            _ => m,
        }
    }
}

pub fn execute_menu_action(app: &mut App, action: MenuAction, target_row: usize)
    requires
        (action is CreateGroup && target_row < old(app)@.rows.len() && old(app)@.rows[target_row as int] is Window)
            ==> old(app).next_group_id < u32::MAX,
    ensures
        final(app)@ == acted(old(app)@, action, target_row as int),
{
    if target_row >= app.display_rows.len() {
        return;
    }
    let row = app.display_rows[target_row];
    match action {
        MenuAction::CreateGroup => {
            if let DisplayRow::Window { wid, .. } = row {
                app.create_group(wid);
            }
        },
        MenuAction::AddToGroup(gid) => {
            if let DisplayRow::Window { wid, .. } = row {
                app.add_to_group(gid, wid);
            }
        },
        MenuAction::RemoveFromGroup => {
            if let DisplayRow::Window { wid, .. } = row {
                app.remove_from_group(wid);
            }
        },
        MenuAction::RenameGroup => {
            if let DisplayRow::GroupHeader { group_id } = row {
                app.rename_group(group_id);
            }
        },
        MenuAction::DeleteGroup => {
            if let DisplayRow::GroupHeader { group_id } = row {
                app.delete_group(group_id);
            }
        },
    }
}

// ── Refresh from the window list ──

pub open spec fn keep_live(g: GroupView, live: Seq<u32>) -> GroupView {
    GroupView { members: g.members.filter(|w: u32| live.contains(w)), ..g }
}

/// A slot survives a refresh when its window is live or its group exists.
pub open spec fn slot_alive(live: Seq<u32>, gs: Seq<GroupView>) -> spec_fn(DisplaySlot) -> bool {
    |s: DisplaySlot|
        match s {
            DisplaySlot::Window(w) => live.contains(w),
            DisplaySlot::Group(g) => group_at(gs, g) >= 0,
        }
}

/// Whether the panel already places window `w`: in a window slot or in a group.
pub open spec fn known_in(order: Seq<DisplaySlot>, gs: Seq<GroupView>, w: u32) -> bool {
    order.contains(DisplaySlot::Window(w)) || exists|k: int| 0 <= k < gs.len() && #[trigger] gs[k].members.contains(w)
}

/// The live windows the panel does not place yet, in the order given.
pub open spec fn arrivals(live: Seq<u32>, order: Seq<DisplaySlot>, gs: Seq<GroupView>) -> Seq<u32> {
    live.filter(|w: u32| !known_in(order, gs, w))
}

/// The panel after a refresh: groups keep only live members, slots of dead
/// windows go, live windows not yet placed get slots at the end (in the
/// order given), and the items, the active window and the rows are replaced.
pub open spec fn with_window_list(m: PanelModel, items: Seq<Item>, live: Seq<u32>, active: Option<u32>) -> PanelModel {
    let gs = m.groups.map_values(|g: GroupView| keep_live(g, live));
    let order = m.order.filter(slot_alive(live, gs));
    with_rows(
        PanelModel {
            items: items,
            groups: gs,
            order: order + arrivals(live, order, gs).map_values(|w: u32| window_slot(w)),
            active_wid: active,
            ..m
        },
    )
}

fn live_only(v: &Vec<u32>, live: &Vec<u32>) -> (r: Vec<u32>)
    ensures
        r@ == v@.filter(|w: u32| live@.contains(w)),
{
    let ghost keep = |w: u32| live@.contains(w);
    let mut r: Vec<u32> = Vec::new();
    let mut i: usize = 0;
    while i < v.len()
        invariant
            i <= v@.len(),
            keep == (|w: u32| live@.contains(w)),
            r@ == v@.take(i as int).filter(keep),
        decreases v@.len() - i,
    {
        proof {
            lemma_take_push(v@, i as int);
            v@.take(i as int).lemma_filter_push(v@[i as int], keep);
        }
        if position_of_wid(live, v[i]).is_some() {
            r.push(v[i]);
        }
        i = i + 1;
    }
    proof {
        assert(v@.take(v@.len() as int) =~= v@);
    }
    r
}

fn is_known(order: &Vec<DisplaySlot>, gs: &Vec<Group>, w: u32) -> (r: bool)
    ensures
        r == known_in(order@, group_views(gs@), w),
{
    let ghost gv = group_views(gs@);
    let in_order = find_slot(order, DisplaySlot::Window(w)).is_some();
    proof {
        lemma_first_match(order@, is_slot(DisplaySlot::Window(w)));
        if order@.contains(DisplaySlot::Window(w)) {
            let k = choose|k: int| 0 <= k < order@.len() && order@[k] == DisplaySlot::Window(w);
            assert(is_slot(DisplaySlot::Window(w))(order@[k]));
        }
    }
    let in_group = first_holding(gs, w).is_some();
    proof {
        lemma_first_match(gv, holds(w));
        if exists|k: int| 0 <= k < gv.len() && #[trigger] gv[k].members.contains(w) {
            let k = choose|k: int| 0 <= k < gv.len() && #[trigger] gv[k].members.contains(w);
            assert(holds(w)(gv[k]));
        }
    }
    in_order || in_group
}

fn keep_live_members(gs: &mut Vec<Group>, live: &Vec<u32>)
    ensures
        group_views(final(gs)@) == group_views(old(gs)@).map_values(|g: GroupView| keep_live(g, live@)),
{
    let ghost orig = group_views(gs@);
    let mut i: usize = 0;
    while i < gs.len()
        invariant
            i <= gs@.len(),
            gs@.len() == orig.len(),
            forall|k: int| 0 <= k < i ==> #[trigger] group_views(gs@)[k] == keep_live(orig[k], live@),
            forall|k: int| i <= k < gs@.len() ==> #[trigger] group_views(gs@)[k] == orig[k],
        decreases gs@.len() - i,
    {
        let members = live_only(&gs[i].member_wids, live);
        set_members(gs, i, members);
        i = i + 1;
    }
    proof {
        assert(group_views(gs@) =~= orig.map_values(|g: GroupView| keep_live(g, live@)));
    }
}

fn surviving_slots(order: &Vec<DisplaySlot>, gs: &Vec<Group>, live: &Vec<u32>) -> (r: Vec<DisplaySlot>)
    ensures
        r@ == order@.filter(slot_alive(live@, group_views(gs@))),
{
    let ghost alive = slot_alive(live@, group_views(gs@));
    let mut r: Vec<DisplaySlot> = Vec::new();
    let mut j: usize = 0;
    while j < order.len()
        invariant
            j <= order@.len(),
            alive == slot_alive(live@, group_views(gs@)),
            r@ == order@.take(j as int).filter(alive),
        decreases order@.len() - j,
    {
        proof {
            lemma_take_push(order@, j as int);
            order@.take(j as int).lemma_filter_push(order@[j as int], alive);
        }
        let slot = order[j];
        let keep = match slot {
            DisplaySlot::Window(w) => {
                let found = position_of_wid(live, w).is_some();
                proof {
                    lemma_first_match(live@, is_wid(w));
                    if live@.contains(w) {
                        let k = choose|k: int| 0 <= k < live@.len() && live@[k] == w;
                        assert(is_wid(w)(live@[k]));
                    }
                }
                found
            },
            DisplaySlot::Group(g) => find_group_index(gs, g).is_some(),
        };
        if keep {
            r.push(slot);
        }
        j = j + 1;
    }
    proof {
        assert(order@.take(order@.len() as int) =~= order@);
    }
    r
}

fn with_arrivals(order: &Vec<DisplaySlot>, gs: &Vec<Group>, live: &Vec<u32>) -> (r: Vec<DisplaySlot>)
    ensures
        r@ == order@ + arrivals(live@, order@, group_views(gs@)).map_values(|w: u32| window_slot(w)),
{
    let ghost base = order@;
    let ghost gv = group_views(gs@);
    let ghost fresh = |w: u32| !known_in(base, gv, w);
    let mut combined = copy_slots(order);
    let mut k: usize = 0;
    while k < live.len()
        invariant
            k <= live@.len(),
            order@ == base,
            gv == group_views(gs@),
            fresh == (|w: u32| !known_in(base, gv, w)),
            combined@ == base + live@.take(k as int).filter(fresh).map_values(|w: u32| window_slot(w)),
        decreases live@.len() - k,
    {
        proof {
            lemma_take_push(live@, k as int);
            live@.take(k as int).lemma_filter_push(live@[k as int], fresh);
        }
        let w = live[k];
        if !is_known(order, gs, w) {
            combined.push(DisplaySlot::Window(w));
            proof {
                lemma_map_values_push(live@.take(k as int).filter(fresh), w, |w: u32| window_slot(w));
                assert(combined@ =~= base + live@.take(k + 1).filter(fresh).map_values(|w: u32| window_slot(w)));
            }
        }
        k = k + 1;
    }
    proof {
        assert(live@.take(live@.len() as int) =~= live@);
    }
    combined
}

impl App {
    /// Applies a fresh window list: `items` are the live windows' items,
    /// `live` their ids, `active` the active window.
    pub fn apply_window_list(&mut self, items: Vec<Item>, live: &Vec<u32>, active: Option<u32>)
        ensures
            final(self)@ == with_window_list(old(self)@, items@, live@, active),
    {
        let ghost m = self@;
        keep_live_members(&mut self.groups, live);
        let order = surviving_slots(&self.display_order, &self.groups, live);
        let combined = with_arrivals(&order, &self.groups, live);
        self.display_order = combined;
        self.active_wid = active;
        self.items = items;
        proof {
            let gs = m.groups.map_values(|g: GroupView| keep_live(g, live@));
            let o = m.order.filter(slot_alive(live@, gs));
            assert(self@ == PanelModel {
                items: items@,
                groups: gs,
                order: o + arrivals(live@, o, gs).map_values(|w: u32| window_slot(w)),
                active_wid: active,
                ..m
            });
        }
        self.build_display_rows();
    }
}

fn copy_slots(v: &Vec<DisplaySlot>) -> (r: Vec<DisplaySlot>)
    ensures
        r@ == v@,
{
    let mut r: Vec<DisplaySlot> = Vec::new();
    let mut i: usize = 0;
    while i < v.len()
        invariant
            i <= v@.len(),
            r@ == v@.take(i as int),
        decreases v@.len() - i,
    {
        r.push(v[i]);
        proof {
            lemma_take_push(v@, i as int);
        }
        i = i + 1;
    }
    proof {
        assert(v@.take(v@.len() as int) =~= v@);
    }
    r
}

// ── Labels, colours and placement ──

/// The text followed by three dots.
fn with_ellipsis(head: &str) -> (s: String)
    ensures
        s@ == head@ + seq!['.', '.', '.'],
{
    proof {
        reveal_strlit("...");
    }
    let mut s = String::from_str(head);
    s.append("...");
    proof {
        assert(s@ =~= head@ + seq!['.', '.', '.']);
    }
    s
}

/// The label of a window: a title over 30 bytes is cut to its first 27 bytes
/// and followed by "..."; an empty title shows the class instead.
pub open spec fn item_label_ok(title: Seq<char>, class: Seq<char>, label: Seq<char>) -> bool {
    let bytes = vstd::utf8::encode_utf8(title);
    if bytes.len() > 30 {
        exists|head: Seq<char>| vstd::utf8::encode_utf8(head) == bytes.subrange(0, 27) && label == head + seq!['.', '.', '.']
    } else if title.len() == 0 {
        label == class
    } else {
        label == title
    }
}

pub fn item_label(title: &str, class: &str) -> (label: String)
    requires
        vstd::utf8::encode_utf8(title@).len() <= usize::MAX,
        vstd::utf8::encode_utf8(title@).len() > 30 ==> vstd::utf8::is_char_boundary(vstd::utf8::encode_utf8(title@), 27),
    ensures
        item_label_ok(title@, class@, label@),
{
    let n = title.len();
    if n > 30 {
        let (head, _) = title.split_at(27);
        let label = with_ellipsis(head);
        proof {
            let bytes = vstd::utf8::encode_utf8(title@);
            assert(vstd::utf8::encode_utf8(head@) == bytes.subrange(0, 27));
            assert(label@ == head@ + seq!['.', '.', '.']);
        }
        label
    } else if title.is_empty() {
        class.to_owned()
    } else {
        title.to_owned()
    }
}

/// The accent colours item stripes cycle through.
pub open spec fn accent_colors() -> Seq<u32> {
    seq![0xe06c75, 0x98c379, 0x61afef, 0xc678dd, 0xe5c07b, 0x56b6c2]
}

/// The accent colour of the `index`-th item: the palette, cyclically.
pub fn accent_color(index: usize) -> (rgb: u32)
    ensures
        rgb == accent_colors()[(index % 6) as int],
{
    match index % 6 {
        0 => 0xe06c75,
        1 => 0x98c379,
        2 => 0x61afef,
        3 => 0xc678dd,
        4 => 0xe5c07b,
        _ => 0x56b6c2,
    }
}

/// The 16-bit X colour channels of a 24-bit RGB value: each 8-bit channel
/// scaled by 257, so that 0xff becomes 0xffff.
pub fn color_channels(rgb: u32) -> (c: (u16, u16, u16))
    ensures
        c.0 == (rgb / 0x10000) % 0x100 * 257,
        c.1 == (rgb / 0x100) % 0x100 * 257,
        c.2 == rgb % 0x100 * 257,
{
    let r8 = (rgb >> 16) & 0xff;
    let g8 = (rgb >> 8) & 0xff;
    let b8 = rgb & 0xff;
    proof {
        assert(r8 == (rgb / 0x10000) % 0x100) by (bit_vector)
            requires
                r8 == (rgb >> 16) & 0xff,
        ;
        assert(g8 == (rgb / 0x100) % 0x100) by (bit_vector)
            requires
                g8 == (rgb >> 8) & 0xff,
        ;
        assert(b8 == rgb % 0x100) by (bit_vector)
            requires
                b8 == rgb & 0xff,
        ;
    }
    (r8 as u16 * 257, g8 as u16 * 257, b8 as u16 * 257)
}

/// Where a window goes when snapped beside the panel: its frame's left edge
/// at the panel frame's right edge and the title bars level, but no further
/// right than the work area's right edge and no higher than its top.
pub open spec fn snap_beside_of(
    our: (i32, i32, u32),
    our_frame: (i32, i32, i32, i32),
    target_frame: (i32, i32, i32, i32),
    workarea: (i32, i32, u32),
) -> (int, int) {
    let x = our.0 + crate::geometry::as_signed(our.2) + our_frame.1 + target_frame.0;
    let y = our.1 - our_frame.2 + target_frame.2;
    let max_x = workarea.0 + crate::geometry::as_signed(workarea.2);
    let min_y = workarea.1 + target_frame.2;
    (if x <= max_x { x } else { max_x }, if y >= min_y { y } else { min_y })
}

pub fn snap_beside(
    our: (i32, i32, u32),
    our_frame: (i32, i32, i32, i32),
    target_frame: (i32, i32, i32, i32),
    workarea: (i32, i32, u32),
) -> (pos: (i32, i32))
    requires
        crate::geometry::fits_i32(our.0 + crate::geometry::as_signed(our.2)),
        crate::geometry::fits_i32(our.0 + crate::geometry::as_signed(our.2) + our_frame.1),
        crate::geometry::fits_i32(our.0 + crate::geometry::as_signed(our.2) + our_frame.1 + target_frame.0),
        crate::geometry::fits_i32(our.1 - our_frame.2),
        crate::geometry::fits_i32(our.1 - our_frame.2 + target_frame.2),
        crate::geometry::fits_i32(workarea.0 + crate::geometry::as_signed(workarea.2)),
        crate::geometry::fits_i32(workarea.1 + target_frame.2),
    ensures
        pos.0 as int == snap_beside_of(our, our_frame, target_frame, workarea).0,
        pos.1 as int == snap_beside_of(our, our_frame, target_frame, workarea).1,
{
    let our_w = crate::geometry::signed(our.2);
    let wa_w = crate::geometry::signed(workarea.2);
    let our_frame_right = our.0 + our_w + our_frame.1;
    let target_x = our_frame_right + target_frame.0;
    let our_frame_top = our.1 - our_frame.2;
    let target_y = our_frame_top + target_frame.2;
    let max_x = workarea.0 + wa_w;
    let target_x = if target_x <= max_x { target_x } else { max_x };
    let min_y = workarea.1 + target_frame.2;
    let target_y = if target_y >= min_y { target_y } else { min_y };
    (target_x, target_y)
}

/// The active window a _NET_ACTIVE_WINDOW value names; window 0 means none.
pub fn active_window_from(value: &[u8]) -> (wid: Option<u32>)
    ensures
        wid == (if value@.len() >= 4 && le_word(value@, 0) != 0 {
            Some(le_word(value@, 0) as u32)
        } else {
            None
        }),
{
    match parse_window_id(value) {
        Some(0) => None,
        other => other,
    }
}

/// The desktop a _NET_WM_DESKTOP value names; 0xFFFFFFFF (all desktops) means none.
pub fn window_desktop_from(value: &[u8]) -> (desktop: Option<u32>)
    ensures
        desktop == (if value@.len() >= 4 && le_word(value@, 0) != 0xFFFF_FFFF {
            Some(le_word(value@, 0) as u32)
        } else {
            None
        }),
{
    match parse_window_id(value) {
        Some(0xFFFF_FFFF) => None,
        other => other,
    }
}

/// The work area of `desktop` from a _NET_WORKAREA value, or a 1920x1080
/// screen at the origin when the value does not cover that desktop.
pub fn workarea_or_default(value: &[u8], desktop: u32) -> (area: (i32, i32, u32, u32))
    requires
        desktop * 4 + 4 <= usize::MAX,
    ensures
        area == (match crate::x11::connection::workarea_of(value@, desktop as int) {
            Some(a) => a,
            None => (0i32, 0i32, 1920u32, 1080u32),
        }),
{
    match workarea_from_property(value, desktop) {
        Some(a) => a,
        None => (0, 0, 1920, 1080),
    }
}

// ── Pointer input ──

/// The menu entry under point (`x`, `y`) of a menu `width` by `height` with
/// `n` entries: the point must lie in the menu, and the entry index is the
/// distance below the top padding, taken as an unsigned machine word, over
/// the entry height.
pub open spec fn menu_entry_at_of(width: u16, height: u16, n: int, x: i16, y: i16) -> Option<int> {
    if x >= 0 && y >= 0 && x < width && y < height {
        let d = y - MENU_PADDING;
        let u = if d >= 0 {
            d
        } else {
            d + usize::MAX + 1
        };
        let idx = u / (MENU_ITEM_H as int);
        if idx < n {
            Some(idx)
        } else {
            None
        }
    } else {
        None
    }
}

pub fn menu_entry_at(width: u16, height: u16, n: usize, x: i16, y: i16) -> (r: Option<usize>)
    ensures
        match r {
            Some(i) => menu_entry_at_of(width, height, n as int, x, y) == Some(i as int),
            None => menu_entry_at_of(width, height, n as int, x, y) is None,
        },
{
    if !(x >= 0 && y >= 0 && (x as u16) < width && (y as u16) < height) {
        return None;
    }
    let d: i32 = y as i32 - MENU_PADDING as i32;
    let u: usize = if d >= 0 {
        d as usize
    } else {
        usize::MAX - ((-d - 1) as usize)
    };
    let idx = u / (MENU_ITEM_H as usize);
    if idx < n {
        Some(idx)
    } else {
        None
    }
}

/// The size of a context menu with `n` entries: a fixed width, and one entry
/// height per entry plus padding above and below.
pub fn menu_size(n: usize) -> (size: (u16, u16))
    requires
        n * (MENU_ITEM_H as int) + 2 * MENU_PADDING <= u16::MAX,
    ensures
        size.0 == MENU_MIN_W,
        size.1 == n * (MENU_ITEM_H as int) + 2 * MENU_PADDING,
{
    proof {
        assert(n * 24 <= 65535 ==> n <= 2730) by (nonlinear_arith);
    }
    let h = (n as u16) * MENU_ITEM_H + (MENU_PADDING as u16 * 2);
    (MENU_MIN_W, h)
}

/// Where a menu opens: at the pointer, moved left and up as needed to stay
/// on a screen `screen_w` by `screen_h`.
pub fn menu_origin(root_x: i16, root_y: i16, screen_w: u16, screen_h: u16, width: u16, height: u16) -> (o: (i16, i16))
    requires
        screen_w <= i16::MAX,
        screen_h <= i16::MAX,
        width <= i16::MAX,
        height <= i16::MAX,
    ensures
        o.0 as int == if root_x <= screen_w - width { root_x as int } else { screen_w - width },
        o.1 as int == if root_y <= screen_h - height { root_y as int } else { screen_h - height },
{
    let max_x = screen_w as i16 - width as i16;
    let max_y = screen_h as i16 - height as i16;
    (if root_x <= max_x { root_x } else { max_x }, if root_y <= max_y { root_y } else { max_y })
}

/// A drag after the pointer moved to height `y`: it follows the pointer and
/// starts once it is more than the threshold away from where it began.
pub open spec fn dragged_to(d: DragState, y: i16) -> DragState {
    let dist = y - d.start_y;
    let far = dist > DRAG_THRESHOLD || -dist > DRAG_THRESHOLD;
    DragState { current_y: y, started: d.started || far, ..d }
}

pub fn drag_to(d: DragState, y: i16) -> (r: DragState)
    requires
        !d.started ==> i16::MIN < y - d.start_y <= i16::MAX,
    ensures
        r == dragged_to(d, y),
{
    let mut r = d;
    r.current_y = y;
    if !r.started {
        let dist = r.current_y - r.start_y;
        let far = if dist >= 0 { dist } else { -dist };
        if far > DRAG_THRESHOLD {
            r.started = true;
        }
    }
    r
}

/// What releasing the button does: a started drag drops its row; a click on
/// a group header toggles the group; a click on a window makes it active and
/// returns it, for the caller to raise and snap.
pub open spec fn released(m: PanelModel) -> (PanelModel, Option<u32>) {
    match m.drag {
        None => (m, None),
        Some(d) => {
            let m0 = PanelModel { drag: None, ..m };
            if d.started {
                (dropped(m0, d.source_row as int, d.current_y as int), None)
            } else if d.source_row < m.rows.len() {
                match m.rows[d.source_row as int] {
                    DisplayRow::GroupHeader { group_id } => (with_group_toggled(m0, group_id), None),
                    DisplayRow::Window { wid, .. } => (PanelModel { active_wid: Some(wid), ..m0 }, Some(wid)),
                }
            } else {
                (m0, None)
            }
        },
    }
}

impl App {
    /// Ends a press: finishes a drag or handles a click.
    pub fn release(&mut self) -> (clicked: Option<u32>)
        requires
            old(self)@.rows.len() <= MAX_ROWS,
            rows_of(old(self)@.groups, old(self)@.order).len() <= usize::MAX,
        ensures
            (final(self)@, clicked) == released(old(self)@),
    {
        match self.drag.take() {
            None => None,
            Some(d) => {
                if d.started {
                    self.handle_drop(d.source_row, d.current_y);
                    None
                } else if d.source_row < self.display_rows.len() {
                    match self.display_rows[d.source_row] {
                        DisplayRow::GroupHeader { group_id } => {
                            self.toggle_collapse(group_id);
                            None
                        },
                        DisplayRow::Window { wid, .. } => {
                            self.active_wid = Some(wid);
                            Some(wid)
                        },
                    }
                } else {
                    None
                }
            },
        }
    }
}

} // verus!
