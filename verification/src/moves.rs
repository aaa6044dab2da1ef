//! Where things land when windows and groups are moved: a member dropped
//! inside its group, a window taken out of its group, a group deleted, and a
//! member reordered within its group.
use vstd::prelude::*;

use crate::panel::{group_at, is_header_of, is_wid, with_member_moved, PanelModel};
use crate::search::{first_match, lemma_first_match, moved};
use crate::state::{
    fresh_group, group_pos, groups_without, has_gid, has_member, is_slot, members_of, with_group_deleted,
    with_group_reordered, with_member_removed, with_new_group_of, DisplaySlot, StateModel,
};

verus! {

// ── Dropping a member inside its group ──

/// The position member `t` of `rest` (the group's members without the
/// dragged one, at `sp`) had in the group before the drag.
pub open spec fn former_index(t: int, sp: int) -> int {
    if t < sp { t } else { t + 1 }
}

/// A member dropped at row gap `gap` inside its group's block lands right
/// after exactly the other members whose rows lie above the gap (member `j`
/// is drawn at row `hr + 1 + j`, under the header at row `hr`); the other
/// members keep their order, and nothing else changes.
#[verifier::spinoff_prover]
#[verifier::rlimit(40)]
pub proof fn member_drop_lands_below_the_rows_above_the_gap(m: PanelModel, gid: u32, wid: u32, gap: int)
    requires
        first_match(m.rows, is_header_of(gid)) >= 0,
        group_at(m.groups, gid) >= 0,
        first_match(m.groups[group_at(m.groups, gid)].members, is_wid(wid)) >= 0,
    ensures
        ({
            let hr = first_match(m.rows, is_header_of(gid));
            let p = group_at(m.groups, gid);
            let before = m.groups[p].members;
            let sp = first_match(before, is_wid(wid));
            let r = with_member_moved(m, gid, wid, gap);
            let after = r.groups[p].members;
            &&& exists|i: int|
                0 <= i < after.len() && after[i] == wid && after.remove(i) == before.remove(sp) && forall|t: int|
                    0 <= t < before.len() - 1 ==> (t < i <==> hr + 1 + #[trigger] former_index(t, sp) < gap)
            &&& r.groups.len() == m.groups.len()
            &&& forall|k: int| 0 <= k < m.groups.len() && k != p ==> #[trigger] r.groups[k] == m.groups[k]
            &&& r.groups[p].id == m.groups[p].id
            &&& r.order == m.order
            &&& r.items == m.items
        }),
{
    let hr = first_match(m.rows, is_header_of(gid));
    let p = group_at(m.groups, gid);
    lemma_first_match(m.groups, crate::panel::has_id(gid));
    let before = m.groups[p].members;
    let sp = first_match(before, is_wid(wid));
    lemma_first_match(before, is_wid(wid));
    lemma_first_match(m.rows, is_header_of(gid));
    let target = if gap > hr + 1 { gap - hr - 1 } else { 0 };
    let rest = before.remove(sp);
    let at = if target > sp {
        crate::panel::at_most(target - 1, rest.len() as int)
    } else {
        crate::panel::at_most(target, rest.len() as int)
    };
    let r = with_member_moved(m, gid, wid, gap);
    let after = r.groups[p].members;
    assert(after == rest.insert(at, wid));
    assert(after[at] == wid);
    assert(after.remove(at) =~= rest);
    assert forall|t: int| 0 <= t < before.len() - 1 implies (t < at <==> hr + 1 + #[trigger] former_index(t, sp) < gap) by {
    }
}

// ── Taking a window out of its group ──

/// A window taken out of the first group holding it re-enters the top-level
/// order right after that group's first slot; the other slots keep their
/// order.
pub proof fn removed_member_reenters_after_its_group(m: StateModel, wid: u32, q: int)
    requires
        first_match(m.groups, has_member(wid)) >= 0,
        0 <= q < m.display_order.len(),
        m.display_order[q] == DisplaySlot::Group(m.groups[first_match(m.groups, has_member(wid))].id),
        forall|k: int| 0 <= k < q ==> m.display_order[k] != m.display_order[q],
    ensures
        ({
            let r = with_member_removed(m, wid);
            &&& r.display_order.len() == m.display_order.len() + 1
            &&& r.display_order[q + 1] == DisplaySlot::Window(wid)
            &&& r.display_order.remove(q + 1) == m.display_order
        }),
{
    let f = first_match(m.groups, has_member(wid));
    lemma_first_match(m.groups, has_member(wid));
    let s = DisplaySlot::Group(m.groups[f].id);
    assert forall|k: int| 0 <= k < q implies !#[trigger] is_slot(s)(m.display_order[k]) by {}
    crate::search::lemma_first_match_is(m.display_order, is_slot(s), q);
    let r = with_member_removed(m, wid);
    assert(r.display_order == m.display_order.insert(q + 1, DisplaySlot::Window(wid)));
    assert(r.display_order.remove(q + 1) =~= m.display_order);
}

// ── Deleting a group ──

/// Deleting a group puts its members' window slots, in member order, in
/// place of the group's first slot: the slots before stay where they were,
/// and the slots after follow the members.
pub proof fn deleted_group_members_take_its_place(m: StateModel, gid: u32, q: int)
    requires
        0 <= q < m.display_order.len(),
        m.display_order[q] == DisplaySlot::Group(gid),
        forall|k: int| 0 <= k < q ==> m.display_order[k] != DisplaySlot::Group(gid),
    ensures
        ({
            let d = m.display_order;
            let ms = members_of(m, gid);
            let r = with_group_deleted(m, gid).display_order;
            &&& r.len() == d.len() - 1 + ms.len()
            &&& forall|k: int| 0 <= k < q ==> #[trigger] r[k] == d[k]
            &&& forall|i: int| 0 <= i < ms.len() ==> #[trigger] r[q + i] == DisplaySlot::Window(ms[i])
            &&& forall|k: int| q < k < d.len() ==> #[trigger] r[k - 1 + ms.len()] == d[k]
        }),
{
    let d = m.display_order;
    assert forall|k: int| 0 <= k < q implies !#[trigger] is_slot(DisplaySlot::Group(gid))(d[k]) by {}
    crate::search::lemma_first_match_is(d, is_slot(DisplaySlot::Group(gid)), q);
}

/// Creating a group around a window that has a top-level slot, then deleting
/// that group, gives back the top-level order (when group ids lie below the
/// counter and no slot names the new id yet).
pub proof fn delete_undoes_create_with_window_on_the_order(m: StateModel, name: Seq<char>, wid: u32)
    requires
        m.display_order.contains(DisplaySlot::Window(wid)),
        !m.display_order.contains(DisplaySlot::Group(m.next_group_id)),
        forall|k: int| 0 <= k < m.groups.len() ==> #[trigger] m.groups[k].id < m.next_group_id,
    ensures
        with_group_deleted(with_new_group_of(m, name, wid), m.next_group_id).display_order == m.display_order,
{
    let gid = m.next_group_id;
    let d = m.display_order;
    let m1 = with_new_group_of(m, name, wid);
    let w = DisplaySlot::Window(wid);
    let p = first_match(d, is_slot(w));
    lemma_first_match(d, is_slot(w));
    let d1 = d.update(p, DisplaySlot::Group(gid));
    assert(m1.display_order == d1);
    // The new group is the only one with the new id.
    let gs = groups_without(m.groups, wid);
    assert(m1.groups == gs.push(fresh_group(gid, name, seq![wid])));
    assert forall|k: int| 0 <= k < gs.len() implies !#[trigger] has_gid(gid)(m1.groups[k]) by {
        assert(m1.groups[k].id == m.groups[k].id);
    }
    crate::search::lemma_first_match_is(m1.groups, has_gid(gid), gs.len() as int);
    assert(group_pos(m1, gid) == gs.len());
    assert(members_of(m1, gid) == seq![wid]);
    // Its slot is where the window's was.
    assert forall|k: int| 0 <= k < p implies !#[trigger] is_slot(DisplaySlot::Group(gid))(d1[k]) by {
        assert(d1[k] == d[k]);
        assert(d.contains(d[k]));
    }
    crate::search::lemma_first_match_is(d1, is_slot(DisplaySlot::Group(gid)), p);
    let r = with_group_deleted(m1, gid).display_order;
    assert(r == d1.take(p) + seq![wid].map_values(|x: u32| crate::state::member_slot(x)) + d1.skip(p + 1));
    assert(r =~= d);
}

// ── Reordering members ──

/// Moving a member of a group from `from` to `to` (both in range and
/// different) puts the member formerly at `from` at `to`, and the other
/// members keep their relative order; other groups and the rest of the state
/// stay.
pub proof fn reordered_member_moves_and_others_keep_order(m: StateModel, gid: u32, from: int, to: int)
    requires
        group_pos(m, gid) >= 0,
        0 <= from < m.groups[group_pos(m, gid)].members.len(),
        0 <= to < m.groups[group_pos(m, gid)].members.len(),
        from != to,
    ensures
        ({
            let p = group_pos(m, gid);
            let before = m.groups[p].members;
            let r = with_group_reordered(m, gid, from, to);
            let after = r.groups[p].members;
            &&& after.len() == before.len()
            &&& after[to] == before[from]
            &&& after.remove(to) == before.remove(from)
            &&& r.groups.len() == m.groups.len()
            &&& forall|k: int| 0 <= k < m.groups.len() && k != p ==> #[trigger] r.groups[k] == m.groups[k]
            &&& r.display_order == m.display_order && r.windows == m.windows
        }),
{
    let p = group_pos(m, gid);
    lemma_first_match(m.groups, has_gid(gid));
    let before = m.groups[p].members;
    let after = with_group_reordered(m, gid, from, to).groups[p].members;
    assert(after == moved(before, from, to));
    assert(after.remove(to) =~= before.remove(from));
}

proof fn lemma_moved_if_valid_back(s: Seq<u32>, from: int, to: int)
    requires
        0 <= from,
        0 <= to,
    ensures
        crate::state::moved_if_valid(crate::state::moved_if_valid(s, from, to), to, from) == s,
{
    if !(from >= s.len() || to >= s.len() || from == to) {
        let u = moved(s, from, to);
        assert(u[to] == s[from]);
        assert(u.remove(to) =~= s.remove(from));
        assert(s.remove(from).insert(from, s[from]) =~= s);
    }
}

/// Moving a member from `from` to `to` and then back from `to` to `from`
/// restores the state.
pub proof fn reordering_a_member_back_restores(m: StateModel, gid: u32, from: int, to: int)
    requires
        0 <= from,
        0 <= to,
    ensures
        with_group_reordered(with_group_reordered(m, gid, from, to), gid, to, from) == m,
{
    let p = group_pos(m, gid);
    lemma_first_match(m.groups, has_gid(gid));
    if p >= 0 {
        let m1 = with_group_reordered(m, gid, from, to);
        lemma_first_match(m1.groups, has_gid(gid));
        assert(m1.groups[p].id == gid);
        assert forall|k: int| 0 <= k < p implies !has_gid(gid)(#[trigger] m1.groups[k]) by {
            assert(m1.groups[k] == m.groups[k]);
            assert(!has_gid(gid)(m.groups[k]));
        }
        crate::search::lemma_first_match_is(m1.groups, has_gid(gid), p);
        lemma_moved_if_valid_back(m.groups[p].members, from, to);
        assert(with_group_reordered(m1, gid, to, from).groups =~= m.groups);
    }
}

// ── Joining a group ──

/// A window moved into an existing group joins it last; every group keeps
/// its other members in their order, and no group keeps a copy of it.
pub proof fn added_member_joins_last(m: StateModel, wid: u32, gid: u32)
    requires
        group_pos(m, gid) >= 0,
    ensures
        ({
            let p = group_pos(m, gid);
            let r = crate::state::with_member_added(m, wid, gid);
            &&& r.groups.len() == m.groups.len()
            &&& r.groups[p].members.last() == wid
            &&& r.groups[p].members.drop_last() == m.groups[p].members.filter(crate::state::other_than(wid))
            &&& forall|k: int| 0 <= k < m.groups.len() && k != p ==> (#[trigger] r.groups[k]).members == m.groups[k].members.filter(
                crate::state::other_than(wid),
            )
        }),
{
    let p = group_pos(m, gid);
    lemma_first_match(m.groups, has_gid(gid));
    let r = crate::state::with_member_added(m, wid, gid);
    let gs = groups_without(m.groups, wid);
    assert(r.groups[p].members == gs[p].members.push(wid));
    assert(r.groups[p].members.drop_last() =~= gs[p].members);
}

/// In the panel, a window moved into an existing group joins it last; the
/// group's other members keep their order, and the window leaves the top
/// level.
#[verifier::rlimit(80)]
pub proof fn panel_added_member_joins_last(m: PanelModel, gid: u32, wid: u32)
    requires
        group_at(m.groups, gid) >= 0,
    ensures
        ({
            let p = group_at(m.groups, gid);
            let r = crate::panel::with_member_added(m, gid, wid);
            &&& r.groups.len() == m.groups.len()
            &&& r.groups[p].members.last() == wid
            &&& r.groups[p].members.drop_last() == m.groups[p].members.filter(crate::panel::other_than(wid))
            &&& !r.order.contains(crate::panel::DisplaySlot::Window(wid))
        }),
{
    let p = group_at(m.groups, gid);
    lemma_first_match(m.groups, crate::panel::has_id(gid));
    let gs = m.groups.map_values(|g: crate::panel::GroupView| crate::panel::without_member(g, wid));
    assert forall|k: int| 0 <= k < gs.len() implies #[trigger] crate::panel::has_id(gid)(gs[k]) == crate::panel::has_id(gid)(m.groups[k]) by {}
    lemma_first_match(gs, crate::panel::has_id(gid));
    if group_at(gs, gid) != p {
        let a = group_at(gs, gid);
        assert(crate::panel::has_id(gid)(gs[p]));
        if a >= 0 {
            assert(crate::panel::has_id(gid)(m.groups[a]));
        }
    }
    let r = crate::panel::with_member_added(m, gid, wid);
    assert(r.groups[p].members == gs[p].members.push(wid));
    assert(r.groups[p].members.drop_last() =~= gs[p].members);
    let o = m.order;
    let f = crate::panel::not_slot(crate::panel::DisplaySlot::Window(wid));
    if r.order.contains(crate::panel::DisplaySlot::Window(wid)) {
        let i = choose|i: int| 0 <= i < r.order.len() && r.order[i] == crate::panel::DisplaySlot::Window(wid);
        o.lemma_filter_pred(f, i);
    }
}

// ── Leaving a group in the panel ──

/// In the panel, a window taken out of the first group holding it loses its
/// first place among that group's members (the others keep their order) and
/// comes back as a top-level slot right after that group's first slot; the
/// other slots keep their order.
#[verifier::spinoff_prover]
pub proof fn panel_removed_member_reenters_after_its_group(m: PanelModel, wid: u32, q: int)
    requires
        first_match(m.groups, crate::panel::holds(wid)) >= 0,
        0 <= q < m.order.len(),
        m.order[q] == crate::panel::DisplaySlot::Group(m.groups[first_match(m.groups, crate::panel::holds(wid))].id),
        forall|k: int| 0 <= k < q ==> m.order[k] != m.order[q],
    ensures
        ({
            let f = first_match(m.groups, crate::panel::holds(wid));
            let before = m.groups[f].members;
            let r = crate::panel::with_member_removed(m, wid);
            &&& r.order.len() == m.order.len() + 1
            &&& r.order[q + 1] == crate::panel::DisplaySlot::Window(wid)
            &&& r.order.remove(q + 1) == m.order
            &&& exists|i: int|
                0 <= i < before.len() && before[i] == wid && (forall|j: int| 0 <= j < i ==> before[j] != wid)
                    && r.groups[f].members == before.remove(i)
        }),
{
    let f = first_match(m.groups, crate::panel::holds(wid));
    lemma_first_match(m.groups, crate::panel::holds(wid));
    let g = m.groups[f];
    let sl = crate::panel::DisplaySlot::Group(g.id);
    assert forall|k: int| 0 <= k < q implies !#[trigger] crate::panel::is_slot(sl)(m.order[k]) by {}
    crate::search::lemma_first_match_is(m.order, crate::panel::is_slot(sl), q);
    let r = crate::panel::with_member_removed(m, wid);
    assert(r.order == m.order.insert(q + 1, crate::panel::DisplaySlot::Window(wid)));
    assert(r.order.remove(q + 1) =~= m.order);
    lemma_first_occurrence(g.members, wid);
    let pos = first_match(g.members, is_wid(wid));
    assert(r.groups[f].members == g.members.remove(pos));
}

proof fn lemma_first_occurrence(s: Seq<u32>, wid: u32)
    requires
        s.contains(wid),
    ensures
        0 <= first_match(s, is_wid(wid)) < s.len(),
        s[first_match(s, is_wid(wid))] == wid,
        forall|j: int| 0 <= j < first_match(s, is_wid(wid)) ==> s[j] != wid,
{
    lemma_first_match(s, is_wid(wid));
    let w0 = choose|i: int| 0 <= i < s.len() && s[i] == wid;
    assert(is_wid(wid)(s[w0]));
    let pos = first_match(s, is_wid(wid));
    assert forall|j: int| 0 <= j < pos implies s[j] != wid by {
        assert(!is_wid(wid)(s[j]));
    }
}

/// In the panel, deleting a group puts its members' window slots, in member
/// order, in place of the group's first slot.
#[verifier::spinoff_prover]
pub proof fn panel_deleted_group_members_take_its_place(m: PanelModel, gid: u32, q: int)
    requires
        group_at(m.groups, gid) >= 0,
        0 <= q < m.order.len(),
        m.order[q] == crate::panel::DisplaySlot::Group(gid),
        forall|k: int| 0 <= k < q ==> m.order[k] != crate::panel::DisplaySlot::Group(gid),
    ensures
        ({
            let d = m.order;
            let ms = m.groups[group_at(m.groups, gid)].members;
            let r = crate::panel::with_group_deleted(m, gid).order;
            &&& r.len() == d.len() - 1 + ms.len()
            &&& forall|k: int| 0 <= k < q ==> #[trigger] r[k] == d[k]
            &&& forall|i: int| 0 <= i < ms.len() ==> #[trigger] r[q + i] == crate::panel::DisplaySlot::Window(ms[i])
            &&& forall|k: int| q < k < d.len() ==> #[trigger] r[k - 1 + ms.len()] == d[k]
        }),
{
    let d = m.order;
    let sl = crate::panel::DisplaySlot::Group(gid);
    assert forall|k: int| 0 <= k < q implies !#[trigger] crate::panel::is_slot(sl)(d[k]) by {}
    crate::search::lemma_first_match_is(d, crate::panel::is_slot(sl), q);
}

// ── Dropping a top-level slot ──

/// A top-level slot dragged to a row gap lands right after exactly the other
/// slots that come before the gap's slot position (the first position before
/// which at least `gap` rows are drawn); the other slots keep their order.
#[verifier::rlimit(80)]
pub proof fn dropped_slot_lands_after_the_slots_above_the_gap(m: PanelModel, target: crate::panel::DisplaySlot, gap: int)
    requires
        first_match(m.order, crate::panel::is_slot(target)) >= 0,
    ensures
        ({
            let sp = first_match(m.order, crate::panel::is_slot(target));
            let dst = crate::panel::slot_for_gap(m.groups, m.order, gap);
            let after = crate::panel::with_slot_moved(m, target, gap).order;
            exists|i: int|
                0 <= i < after.len() && after[i] == target && after.remove(i) == m.order.remove(sp) && forall|t: int|
                    0 <= t < m.order.len() - 1 ==> (t < i <==> #[trigger] former_index(t, sp) < dst)
        }),
{
    let sp = first_match(m.order, crate::panel::is_slot(target));
    lemma_first_match(m.order, crate::panel::is_slot(target));
    let dst = crate::panel::slot_for_gap(m.groups, m.order, gap);
    crate::search::lemma_first_index(m.order.len() as int, crate::panel::reaches(m.groups, m.order, gap));
    let at = if dst > sp { dst - 1 } else { dst };
    let after = crate::panel::with_slot_moved(m, target, gap).order;
    assert(after == moved(m.order, sp, at));
    assert(after[at] == target);
    assert(after.remove(at) =~= m.order.remove(sp));
    assert forall|t: int| 0 <= t < m.order.len() - 1 implies (t < at <==> #[trigger] former_index(t, sp) < dst) by {}
}

/// A window dropped on another group's header joins that group last, and
/// leaves the group it came from (or its top-level slot).
#[verifier::rlimit(80)]
pub proof fn window_dropped_on_header_joins_last(m: PanelModel, wid: u32, src: Option<u32>, t: u32)
    requires
        group_at(m.groups, t) >= 0,
        src != Some(t),
    ensures
        ({
            let p = group_at(m.groups, t);
            let r = crate::panel::dropped_on_header(m, wid, src, t);
            &&& r.groups.len() == m.groups.len()
            &&& r.groups[p].id == t
            &&& r.groups[p].members.last() == wid
            &&& src is None ==> !r.order.contains(crate::panel::DisplaySlot::Window(wid))
        }),
{
    let p = group_at(m.groups, t);
    lemma_first_match(m.groups, crate::panel::has_id(t));
    let m1 = match src {
        Some(g) => crate::panel::with_member_dropped(m, g, wid),
        None => PanelModel { order: m.order.filter(crate::panel::not_slot(crate::panel::DisplaySlot::Window(wid))), ..m },
    };
    if let Some(g) = src {
        lemma_first_match(m.groups, crate::panel::has_id(g));
    }
    assert(m1.groups.len() == m.groups.len());
    assert forall|k: int| 0 <= k < m.groups.len() implies #[trigger] crate::panel::has_id(t)(m1.groups[k]) == crate::panel::has_id(t)(m.groups[k]) by {
        if let Some(g) = src {
            lemma_first_match(m.groups, crate::panel::has_id(g));
        }
    }
    lemma_first_match(m1.groups, crate::panel::has_id(t));
    if group_at(m1.groups, t) != p {
        let a = group_at(m1.groups, t);
        assert(crate::panel::has_id(t)(m1.groups[p]));
        if a >= 0 {
            assert(crate::panel::has_id(t)(m.groups[a]));
        }
    }
    let r = crate::panel::dropped_on_header(m, wid, src, t);
    assert(r.groups[p].members == m1.groups[p].members.push(wid));
    if src is None {
        let f = crate::panel::not_slot(crate::panel::DisplaySlot::Window(wid));
        if r.order.contains(crate::panel::DisplaySlot::Window(wid)) {
            let i = choose|i: int| 0 <= i < r.order.len() && r.order[i] == crate::panel::DisplaySlot::Window(wid);
            m.order.lemma_filter_pred(f, i);
        }
    }
}

} // verus!
