//! What a drag-and-drop keeps of the panel: every window stays placed
//! (in a top-level slot or in a group), the same groups keep their slots,
//! and the rows are rebuilt from the result.
use vstd::prelude::*;

use crate::panel::{
    at_most, dropped, dropped_off_group, dropped_on_header, gap_at, group_at, has_id, header_under,
    is_header_of, is_slot, is_wid, not_slot, other_than, rows_of, slot_for_gap, slot_rows,
    with_member_appended, with_member_dropped, with_member_moved, with_rows, with_slot_moved,
    DisplayRow, DisplaySlot, GroupView, PanelModel,
};
use crate::search::{first_match, lemma_first_index, lemma_first_match, moved};

verus! {

/// Window `w` is in some group.
pub open spec fn in_some_group(gs: Seq<GroupView>, w: u32) -> bool {
    exists|k: int| 0 <= k < gs.len() && (#[trigger] gs[k]).members.contains(w)
}

/// Window `w` has a top-level slot or is a group member.
pub open spec fn placed(m: PanelModel, w: u32) -> bool {
    m.order.contains(DisplaySlot::Window(w)) || in_some_group(m.groups, w)
}

/// The same windows are placed, the same groups have slots, and the groups
/// keep their ids in order.
pub open spec fn same_placement(m: PanelModel, r: PanelModel) -> bool {
    &&& forall|w: u32| #![trigger placed(m, w)] #![trigger placed(r, w)] placed(m, w) == placed(r, w)
    &&& forall|g: u32|
        #![trigger m.order.contains(DisplaySlot::Group(g))]
        #![trigger r.order.contains(DisplaySlot::Group(g))]
        m.order.contains(DisplaySlot::Group(g)) == r.order.contains(DisplaySlot::Group(g))
    &&& r.groups.len() == m.groups.len()
    &&& forall|k: int| 0 <= k < r.groups.len() ==> (#[trigger] r.groups[k]).id == m.groups[k].id
}

/// The same windows are placed, the same groups have slots, the groups keep
/// their ids in order, and the rows are those of the resulting order.
pub open spec fn same_layout(m: PanelModel, r: PanelModel) -> bool {
    &&& forall|w: u32| #![trigger placed(m, w)] #![trigger placed(r, w)] placed(m, w) == placed(r, w)
    &&& forall|g: u32|
        #![trigger m.order.contains(DisplaySlot::Group(g))]
        #![trigger r.order.contains(DisplaySlot::Group(g))]
        m.order.contains(DisplaySlot::Group(g)) == r.order.contains(DisplaySlot::Group(g))
    &&& r.groups.len() == m.groups.len()
    &&& forall|k: int| 0 <= k < r.groups.len() ==> (#[trigger] r.groups[k]).id == m.groups[k].id
    &&& r.rows == rows_of(r.groups, r.order)
}

proof fn lemma_slot_rows_from(gs: Seq<GroupView>, order: Seq<DisplaySlot>, s: DisplaySlot, i: int)
    requires
        order.contains(s),
        0 <= i < slot_rows(gs, s).len(),
    ensures
        match slot_rows(gs, s)[i] {
            DisplayRow::GroupHeader { group_id } => order.contains(DisplaySlot::Group(group_id)),
            DisplayRow::Window { wid, group_id: None } => order.contains(DisplaySlot::Window(wid)),
            DisplayRow::Window { wid, group_id: Some(g) } => group_at(gs, g) >= 0 && gs[group_at(gs, g)].members.contains(wid),
        },
{
    match s {
        DisplaySlot::Window(w) => {},
        DisplaySlot::Group(g) => {
            if i > 0 {
                let p = group_at(gs, g);
                let ms = gs[p].members;
                assert(slot_rows(gs, s)[i] == DisplayRow::Window { wid: ms[i - 1], group_id: Some(g) });
                assert(ms.contains(ms[i - 1]));
            }
        },
    }
}

/// Rows built from an order come from that order.
pub proof fn lemma_rows_of_from_order(gs: Seq<GroupView>, order: Seq<DisplaySlot>, i: int)
    requires
        0 <= i < rows_of(gs, order).len(),
    ensures
        match rows_of(gs, order)[i] {
            DisplayRow::GroupHeader { group_id } => order.contains(DisplaySlot::Group(group_id)),
            DisplayRow::Window { wid, group_id: None } => order.contains(DisplaySlot::Window(wid)),
            DisplayRow::Window { wid, group_id: Some(g) } => group_at(gs, g) >= 0 && gs[group_at(gs, g)].members.contains(wid),
        },
    decreases order.len(),
{
    if order.len() > 0 {
        let dl = order.drop_last();
        let head = rows_of(gs, dl);
        assert(order.contains(order.last()));
        if i < head.len() {
            lemma_rows_of_from_order(gs, dl, i);
            assert(rows_of(gs, order)[i] == head[i]);
            match head[i] {
                DisplayRow::GroupHeader { group_id } => {
                    let k = choose|k: int| 0 <= k < dl.len() && dl[k] == DisplaySlot::Group(group_id);
                    assert(order[k] == dl[k]);
                },
                DisplayRow::Window { wid, group_id: None } => {
                    let k = choose|k: int| 0 <= k < dl.len() && dl[k] == DisplaySlot::Window(wid);
                    assert(order[k] == dl[k]);
                },
                _ => {},
            }
        } else {
            assert(rows_of(gs, order)[i] == slot_rows(gs, order.last())[i - head.len()]);
            lemma_slot_rows_from(gs, order, order.last(), i - head.len());
        }
    }
}

proof fn lemma_moved_contains<T>(s: Seq<T>, from: int, to: int)
    requires
        0 <= from < s.len(),
        0 <= to < s.len(),
    ensures
        forall|x: T| #[trigger] moved(s, from, to).contains(x) == s.contains(x),
{
    let r = s.remove(from);
    let t = moved(s, from, to);
    assert forall|x: T| #[trigger] t.contains(x) == s.contains(x) by {
        if t.contains(x) {
            let i = choose|i: int| 0 <= i < t.len() && t[i] == x;
            if i < to {
                assert(t[i] == r[i]);
            } else if i > to {
                assert(t[i] == r[i - 1]);
            }
            if i != to {
                let j = if i < to { i } else { i - 1 };
                if j < from {
                    assert(r[j] == s[j]);
                } else {
                    assert(r[j] == s[j + 1]);
                }
            }
        }
        if s.contains(x) {
            let i = choose|i: int| 0 <= i < s.len() && s[i] == x;
            if i == from {
                assert(t[to] == x);
            } else {
                let j = if i < from { i } else { i - 1 };
                assert(r[j] == x);
                if j < to {
                    assert(t[j] == x);
                } else {
                    assert(t[j + 1] == x);
                }
            }
        }
    }
}

proof fn lemma_slot_moved_layout(m: PanelModel, target: DisplaySlot, gap: int)
    ensures
        same_placement(m, with_slot_moved(m, target, gap)),
{
    let sp = first_match(m.order, is_slot(target));
    lemma_first_match(m.order, is_slot(target));
    if sp >= 0 {
        let dst = slot_for_gap(m.groups, m.order, gap);
        lemma_first_index(m.order.len() as int, crate::panel::reaches(m.groups, m.order, gap));
        let at = if dst > sp { dst - 1 } else { dst };
        lemma_moved_contains(m.order, sp, at);
    }
}

proof fn lemma_filter_other_contains(s: Seq<u32>, wid: u32, w: u32)
    requires
        w != wid,
    ensures
        s.filter(other_than(wid)).contains(w) == s.contains(w),
{
    if s.contains(w) {
        let i = choose|i: int| 0 <= i < s.len() && s[i] == w;
        s.lemma_filter_contains(other_than(wid), i);
    }
    if s.filter(other_than(wid)).contains(w) {
        s.lemma_filter_contains_rev(other_than(wid), w);
    }
}

proof fn lemma_filter_slot_contains(s: Seq<DisplaySlot>, wid: u32, x: DisplaySlot)
    requires
        x != DisplaySlot::Window(wid),
    ensures
        s.filter(not_slot(DisplaySlot::Window(wid))).contains(x) == s.contains(x),
{
    if s.contains(x) {
        let i = choose|i: int| 0 <= i < s.len() && s[i] == x;
        s.lemma_filter_contains(not_slot(DisplaySlot::Window(wid)), i);
    }
    if s.filter(not_slot(DisplaySlot::Window(wid))).contains(x) {
        s.lemma_filter_contains_rev(not_slot(DisplaySlot::Window(wid)), x);
    }
}

/// Taking `wid` out of group `g` keeps the order and the groups' ids.
proof fn lemma_member_dropped_shape(m: PanelModel, g: u32, wid: u32)
    ensures
        with_member_dropped(m, g, wid).order == m.order,
        with_member_dropped(m, g, wid).groups.len() == m.groups.len(),
        forall|k: int| 0 <= k < m.groups.len() ==> (#[trigger] with_member_dropped(m, g, wid).groups[k]).id == m.groups[k].id,
{
    lemma_first_match(m.groups, has_id(g));
}

/// Taking `wid` out of group `g` keeps every other window's membership.
proof fn lemma_member_dropped_others(m: PanelModel, g: u32, wid: u32, w: u32)
    requires
        w != wid,
    ensures
        in_some_group(with_member_dropped(m, g, wid).groups, w) == in_some_group(m.groups, w),
{
    let p = group_at(m.groups, g);
    let r = with_member_dropped(m, g, wid);
    if p >= 0 {
        lemma_first_match(m.groups, has_id(g));
        lemma_filter_other_contains(m.groups[p].members, wid, w);
        if in_some_group(m.groups, w) {
            let k = choose|k: int| 0 <= k < m.groups.len() && (#[trigger] m.groups[k]).members.contains(w);
            assert(r.groups[k].members.contains(w));
        }
        if in_some_group(r.groups, w) {
            let k = choose|k: int| 0 <= k < r.groups.len() && (#[trigger] r.groups[k]).members.contains(w);
            assert(m.groups[k].members.contains(w));
        }
    }
}

/// Appending `wid` to an existing group `t` places it and keeps every other
/// window's membership.
proof fn lemma_member_appended(m: PanelModel, t: u32, wid: u32)
    requires
        group_at(m.groups, t) >= 0,
    ensures
        in_some_group(with_member_appended(m, t, wid).groups, wid),
        forall|w: u32| w != wid ==> (in_some_group(#[trigger] with_member_appended(m, t, wid).groups, w) == in_some_group(m.groups, w)),
        with_member_appended(m, t, wid).order == m.order,
        with_member_appended(m, t, wid).groups.len() == m.groups.len(),
        forall|k: int| 0 <= k < m.groups.len() ==> (#[trigger] with_member_appended(m, t, wid).groups[k]).id == m.groups[k].id,
{
    let p = group_at(m.groups, t);
    lemma_first_match(m.groups, has_id(t));
    let r = with_member_appended(m, t, wid);
    let ms = m.groups[p].members;
    assert(r.groups[p].members == ms.push(wid));
    assert(r.groups[p].members[ms.len() as int] == wid);
    assert forall|w: u32| w != wid implies (in_some_group(#[trigger] with_member_appended(m, t, wid).groups, w) == in_some_group(m.groups, w)) by {
        if in_some_group(m.groups, w) {
            let k = choose|k: int| 0 <= k < m.groups.len() && (#[trigger] m.groups[k]).members.contains(w);
            if k == p {
                let i = choose|i: int| 0 <= i < ms.len() && ms[i] == w;
                assert(r.groups[p].members[i] == w);
            }
            assert(r.groups[k].members.contains(w));
        }
        if in_some_group(r.groups, w) {
            let k = choose|k: int| 0 <= k < r.groups.len() && (#[trigger] r.groups[k]).members.contains(w);
            if k == p {
                let i = choose|i: int| 0 <= i < ms.len() + 1 && r.groups[p].members[i] == w;
                assert(ms[i] == w);
            }
            assert(m.groups[k].members.contains(w));
        }
    }
}

proof fn lemma_on_header_layout(m: PanelModel, wid: u32, src: Option<u32>, t: u32)
    requires
        group_at(m.groups, t) >= 0,
        placed(m, wid),
    ensures
        same_placement(m, dropped_on_header(m, wid, src, t)),
{
    let m1 = match src {
        Some(g) => with_member_dropped(m, g, wid),
        None => PanelModel { order: m.order.filter(not_slot(DisplaySlot::Window(wid))), ..m },
    };
    assert(m1.groups.len() == m.groups.len() && forall|k: int| 0 <= k < m.groups.len() ==> (#[trigger] m1.groups[k]).id == m.groups[k].id) by {
        if let Some(g) = src {
            lemma_member_dropped_shape(m, g, wid);
        }
    }
    assert(group_at(m1.groups, t) == group_at(m.groups, t)) by {
        assert(m1.groups.len() == m.groups.len());
        lemma_first_match(m.groups, has_id(t));
        lemma_first_match(m1.groups, has_id(t));
        assert forall|k: int| 0 <= k < m.groups.len() implies has_id(t)(#[trigger] m1.groups[k]) == has_id(t)(m.groups[k]) by {
            if let Some(g) = src {
                lemma_member_dropped_shape(m, g, wid);
            }
        }
        if group_at(m1.groups, t) != group_at(m.groups, t) {
            let a = group_at(m1.groups, t);
            let b = group_at(m.groups, t);
            assert(has_id(t)(m1.groups[b]));
            if a >= 0 {
                assert(has_id(t)(m.groups[a]));
            }
        }
    }
    lemma_member_appended(m1, t, wid);
    let r = dropped_on_header(m, wid, src, t);
    assert forall|w: u32| #![trigger placed(m, w)] #![trigger placed(r, w)] placed(m, w) == placed(r, w) by {
        if w != wid {
            match src {
                Some(g) => {
                    lemma_member_dropped_others(m, g, wid, w);
                },
                None => {
                    lemma_filter_slot_contains(m.order, wid, DisplaySlot::Window(w));
                },
            }
            assert(in_some_group(r.groups, w) == in_some_group(m1.groups, w));
        }
    }
    assert forall|g: u32| m.order.contains(DisplaySlot::Group(g)) == r.order.contains(DisplaySlot::Group(g)) by {
        if src is None {
            lemma_filter_slot_contains(m.order, wid, DisplaySlot::Group(g));
        }
    }
}

proof fn lemma_remove_insert_contains(members: Seq<u32>, sp: int, at: int, wid: u32)
    requires
        0 <= sp < members.len(),
        members[sp] == wid,
        0 <= at < members.len(),
    ensures
        forall|w: u32| #[trigger] members.remove(sp).insert(at, wid).contains(w) == members.contains(w),
{
    let rest = members.remove(sp);
    let nm = rest.insert(at, wid);
    assert forall|w: u32| #[trigger] nm.contains(w) == members.contains(w) by {
        if nm.contains(w) {
            let i = choose|i: int| 0 <= i < nm.len() && nm[i] == w;
            if i != at {
                let j = if i < at { i } else { i - 1 };
                assert(rest[j] == w);
                if j < sp {
                    assert(members[j] == w);
                } else {
                    assert(members[j + 1] == w);
                }
            }
        }
        if members.contains(w) {
            let i = choose|i: int| 0 <= i < members.len() && members[i] == w;
            if i == sp {
                assert(nm[at] == w);
            } else {
                let j = if i < sp { i } else { i - 1 };
                assert(rest[j] == w);
                if j < at {
                    assert(nm[j] == w);
                } else {
                    assert(nm[j + 1] == w);
                }
            }
        }
    }
}

proof fn lemma_members_replaced(m: PanelModel, p: int, nm: Seq<u32>)
    requires
        0 <= p < m.groups.len(),
        forall|w: u32| #[trigger] nm.contains(w) == m.groups[p].members.contains(w),
    ensures
        same_placement(m, PanelModel { groups: m.groups.update(p, GroupView { members: nm, ..m.groups[p] }), ..m }),
{
    let r = PanelModel { groups: m.groups.update(p, GroupView { members: nm, ..m.groups[p] }), ..m };
    assert forall|w: u32| #![trigger placed(m, w)] #![trigger placed(r, w)] placed(m, w) == placed(r, w) by {
        if in_some_group(m.groups, w) {
            let k = choose|k: int| 0 <= k < m.groups.len() && (#[trigger] m.groups[k]).members.contains(w);
            assert(r.groups[k].members.contains(w));
        }
        if in_some_group(r.groups, w) {
            let k = choose|k: int| 0 <= k < r.groups.len() && (#[trigger] r.groups[k]).members.contains(w);
            assert(m.groups[k].members.contains(w));
        }
    }
}

proof fn lemma_member_moved_layout(m: PanelModel, g: u32, wid: u32, gap: int)
    ensures
        same_placement(m, with_member_moved(m, g, wid, gap)),
{
    let hr = first_match(m.rows, is_header_of(g));
    let p = group_at(m.groups, g);
    lemma_first_match(m.groups, has_id(g));
    if hr >= 0 && p >= 0 {
        let members = m.groups[p].members;
        let sp = first_match(members, is_wid(wid));
        lemma_first_match(members, is_wid(wid));
        if sp >= 0 {
            let target = if gap > hr + 1 { gap - hr - 1 } else { 0 };
            let rest = members.remove(sp);
            let at = if target > sp { at_most(target - 1, rest.len() as int) } else { at_most(target, rest.len() as int) };
            lemma_remove_insert_contains(members, sp, at, wid);
            lemma_members_replaced(m, p, rest.insert(at, wid));
        }
    }
}

proof fn lemma_insert_slot_contains(order: Seq<DisplaySlot>, pos: int, s: DisplaySlot)
    requires
        0 <= pos <= order.len(),
    ensures
        forall|x: DisplaySlot| #[trigger] order.insert(pos, s).contains(x) == (order.contains(x) || x == s),
{
    let r = order.insert(pos, s);
    assert forall|x: DisplaySlot| #[trigger] r.contains(x) == (order.contains(x) || x == s) by {
        if r.contains(x) {
            let i = choose|i: int| 0 <= i < r.len() && r[i] == x;
            if i < pos {
                assert(order[i] == x);
            } else if i > pos {
                assert(order[i - 1] == x);
            }
        }
        if order.contains(x) {
            let i = choose|i: int| 0 <= i < order.len() && order[i] == x;
            if i < pos {
                assert(r[i] == x);
            } else {
                assert(r[i + 1] == x);
            }
        }
        if x == s {
            assert(r[pos] == x);
        }
    }
}

proof fn lemma_off_group_layout(m: PanelModel, g: u32, wid: u32, gap: int)
    requires
        placed(m, wid),
    ensures
        same_placement(m, dropped_off_group(m, g, wid, gap)),
{
    let m1 = with_member_dropped(m, g, wid);
    lemma_member_dropped_shape(m, g, wid);
    let pos = slot_for_gap(m1.groups, m1.order, gap);
    lemma_first_index(m1.order.len() as int, crate::panel::reaches(m1.groups, m1.order, gap));
    let r = dropped_off_group(m, g, wid, gap);
    assert(r.groups == m1.groups);
    assert(r.order == m.order.insert(pos, DisplaySlot::Window(wid)));
    lemma_insert_slot_contains(m.order, pos, DisplaySlot::Window(wid));
    assert forall|w: u32| #![trigger placed(m, w)] #![trigger placed(r, w)] placed(m, w) == placed(r, w) by {
        if w != wid {
            lemma_member_dropped_others(m, g, wid, w);
        }
        assert(r.order.contains(DisplaySlot::Window(w)) == (m.order.contains(DisplaySlot::Window(w)) || w == wid));
    }
    assert forall|gg: u32| m.order.contains(DisplaySlot::Group(gg)) == r.order.contains(DisplaySlot::Group(gg)) by {
        assert(r.order.contains(DisplaySlot::Group(gg)) == (m.order.contains(DisplaySlot::Group(gg)) || DisplaySlot::Group(gg) == DisplaySlot::Window(wid)));
    }
}

/// A drop only rearranges. When the rows are those of the order and every
/// group slot names an existing group, dropping any row keeps every window
/// placed (and places no new one), keeps the same group slots and the groups'
/// ids, and leaves rows that are again those of the resulting order; a drop
/// outside the rows changes nothing.
pub proof fn drop_keeps_layout(m: PanelModel, source_row: int, y: int)
    requires
        0 <= source_row,
        m.rows == rows_of(m.groups, m.order),
        forall|g: u32| #[trigger] m.order.contains(DisplaySlot::Group(g)) ==> group_at(m.groups, g) >= 0,
    ensures
        same_layout(m, dropped(m, source_row, y)),
        source_row >= m.rows.len() ==> dropped(m, source_row, y) == m,
{
    lemma_drop_placement(m, source_row, y);
}

proof fn lemma_with_rows_layout(m: PanelModel, x: PanelModel)
    requires
        same_placement(m, x),
    ensures
        same_layout(m, with_rows(x)),
{
    let r = with_rows(x);
    assert(r.order == x.order && r.groups == x.groups);
    assert forall|w: u32| #![trigger placed(m, w)] #![trigger placed(r, w)] placed(m, w) == placed(r, w) by {
        assert(placed(x, w) == placed(r, w));
    }
}

spec fn placed_source(m: PanelModel, source_row: int) -> bool {
    match m.rows[source_row] {
        DisplayRow::Window { wid, .. } => placed(m, wid),
        _ => true,
    }
}

proof fn lemma_source_placed(m: PanelModel, source_row: int)
    requires
        0 <= source_row < m.rows.len(),
        m.rows == rows_of(m.groups, m.order),
    ensures
        placed_source(m, source_row),
{
    let gs = m.groups;
    let order = m.order;
    lemma_rows_of_from_order(gs, order, source_row);
    let row = rows_of(gs, order)[source_row];
    assert(m.rows[source_row] == row);
    match row {
        DisplayRow::Window { wid, group_id: Some(g) } => {
            let p = group_at(gs, g);
            lemma_first_match(gs, has_id(g));
            assert(0 <= p < gs.len());
            assert(gs[p].members.contains(wid));
            assert(in_some_group(m.groups, wid));
        },
        _ => {},
    }
}

proof fn lemma_header_target_exists(m: PanelModel, y: int)
    requires
        m.rows == rows_of(m.groups, m.order),
        forall|g: u32| #[trigger] m.order.contains(DisplaySlot::Group(g)) ==> group_at(m.groups, g) >= 0,
    ensures
        header_under(m, y) matches Some(t) ==> group_at(m.groups, t) >= 0,
{
    let r = crate::panel::row_under(m.rows.len() as int, y);
    crate::search::lemma_first_index(m.rows.len() as int, crate::panel::covers(y));
    if r >= 0 {
        lemma_rows_of_from_order(m.groups, m.order, r);
    }
}

proof fn lemma_header_row_drop(m: PanelModel, source_row: int, y: int)
    requires
        0 <= source_row < m.rows.len(),
        m.rows[source_row] is GroupHeader,
    ensures
        same_layout(m, dropped(m, source_row, y)),
{
    let gap = gap_at(m.rows.len() as int, y);
    let group_id = m.rows[source_row]->GroupHeader_group_id;
    lemma_slot_moved_layout(m, DisplaySlot::Group(group_id), gap);
    lemma_with_rows_layout(m, with_slot_moved(m, DisplaySlot::Group(group_id), gap));
}

proof fn lemma_window_row_on_header(m: PanelModel, source_row: int, y: int)
    requires
        0 <= source_row < m.rows.len(),
        m.rows == rows_of(m.groups, m.order),
        m.rows[source_row] is Window,
        placed_source(m, source_row),
        header_under(m, y) matches Some(t) && group_at(m.groups, t) >= 0,
    ensures
        same_layout(m, dropped(m, source_row, y)),
{
    let wid = m.rows[source_row]->wid;
    let src = m.rows[source_row]->Window_group_id;
    let t = header_under(m, y)->0;
    if src != Some(t) {
        lemma_on_header_layout(m, wid, src, t);
        lemma_with_rows_layout(m, dropped_on_header(m, wid, src, t));
    } else {
        assert(same_placement(m, m));
    }
}

proof fn lemma_window_row_off_header(m: PanelModel, source_row: int, y: int)
    requires
        0 <= source_row < m.rows.len(),
        m.rows[source_row] is Window,
        placed_source(m, source_row),
        header_under(m, y) is None,
    ensures
        same_layout(m, dropped(m, source_row, y)),
{
    let gap = gap_at(m.rows.len() as int, y);
    let wid = m.rows[source_row]->wid;
    let src = m.rows[source_row]->Window_group_id;
    match src {
        Some(g) => {
            lemma_member_moved_layout(m, g, wid, gap);
            lemma_off_group_layout(m, g, wid, gap);
            lemma_with_rows_layout(m, with_member_moved(m, g, wid, gap));
            lemma_with_rows_layout(m, dropped_off_group(m, g, wid, gap));
        },
        None => {
            lemma_slot_moved_layout(m, DisplaySlot::Window(wid), gap);
            lemma_with_rows_layout(m, with_slot_moved(m, DisplaySlot::Window(wid), gap));
        },
    }
}

proof fn lemma_drop_placement(m: PanelModel, source_row: int, y: int)
    requires
        0 <= source_row,
        m.rows == rows_of(m.groups, m.order),
        forall|g: u32| #[trigger] m.order.contains(DisplaySlot::Group(g)) ==> group_at(m.groups, g) >= 0,
    ensures
        same_layout(m, dropped(m, source_row, y)),
{
    if source_row < m.rows.len() {
        if m.rows[source_row] is GroupHeader {
            lemma_header_row_drop(m, source_row, y);
        } else {
            lemma_source_placed(m, source_row);
            lemma_header_target_exists(m, y);
            if header_under(m, y) is Some {
                lemma_window_row_on_header(m, source_row, y);
            } else {
                lemma_window_row_off_header(m, source_row, y);
            }
        }
    } else {
        assert(same_placement(m, m));
    }
}

} // verus!
