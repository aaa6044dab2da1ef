//! Properties that relate several operations of the library, stated over the
//! models its contracts use.
use vstd::prelude::*;

use crate::filter::{accepts, unicode_lowercase};
use crate::state::DisplaySlot;
use crate::panel::{
    covers, group_at, has_id, is_slot, DisplayRow, with_group_created, with_group_deleted,
    with_group_toggled as panel_toggled, with_rows, DisplaySlot as PanelSlot, GroupView, PanelModel,
};
use crate::search::{
    any_match,
    first_match, lemma_any_match_first, lemma_filter_agree, lemma_map_values_push, lemma_first_index_is, lemma_first_match, lemma_first_match_is,
    moved,
};
use crate::snapshot::{
    SavedModel, SavedGroupModel, SavedSlotModel, free_window, rebuild_groups, rebuild_slots, take_members,
    take_window, ids_at, grouped_positions,
    claims, equals_id, equals_int, free_position, pick, rename_source, renamed_from,
    renames_restored, restored, restored_order, snapshot_of, takers_before, taker,
    untaken_before, window_ids, window_keys,
};
use crate::state::{
    absent_from, distinct_ids, ensured_order, fresh_group, lemma_refreshed_closed, refreshed,
    reported_in, retitled_from, has_wid, acc_of, has_member, group_pos, groups_without, live_in, not_slot, other_than, present,
    slot_live, with_member_added, with_member_removed, with_windows_refreshed, without,
    add_group, add_members, add_window, display_items_of, display_name_of, fold_groups,
    fold_slots, fold_windows, grouped_in, has_gid, native_title_of, no_items, reordered,
    visible_in, window_pos, with_group_toggled, with_new_group, GroupModel, ItemKind, ItemsAcc,
    StateModel, WindowModel,
};

verus! {

// ── Moves ──

proof fn lemma_moved_back<T>(s: Seq<T>, from: int, to: int)
    requires
        0 <= from < s.len(),
        0 <= to < s.len(),
    ensures
        moved(moved(s, from, to), to, from) == s,
{
    let u = moved(s, from, to);
    assert(u[to] == s[from]);
    assert(u.remove(to) =~= s.remove(from));
    assert(s.remove(from).insert(from, s[from]) =~= s);
}

/// Moving an item from `from` to `to` and then from `to` back to `from`
/// gives back the original order, for windows and display slots alike.
pub proof fn reorder_then_back_restores(m: StateModel, from: int, to: int)
    requires
        0 <= from,
        0 <= to,
    ensures
        reordered(reordered(m, from, to), to, from) == m,
{
    if m.display_order.len() > 0 {
        if from < m.display_order.len() && to < m.display_order.len() && from != to {
            lemma_moved_back(m.display_order, from, to);
        }
    } else {
        if from < m.windows.len() && to < m.windows.len() && from != to {
            lemma_moved_back(m.windows, from, to);
        }
    }
}

// ── Groups of the application state ──

/// Toggling a group's collapsed flag twice leaves the state as it was.
pub proof fn toggle_twice_restores(m: StateModel, gid: u32)
    ensures
        with_group_toggled(with_group_toggled(m, gid), gid) == m,
{
    let p = first_match(m.groups, has_gid(gid));
    lemma_first_match(m.groups, has_gid(gid));
    if p >= 0 {
        let m1 = with_group_toggled(m, gid);
        lemma_first_match(m1.groups, has_gid(gid));
        assert(m1.groups[p].id == gid);
        assert forall|k: int| 0 <= k < p implies !has_gid(gid)(#[trigger] m1.groups[k]) by {
            assert(m1.groups[k] == m.groups[k]);
            assert(!has_gid(gid)(m.groups[k]));
        }
        lemma_first_match_is(m1.groups, has_gid(gid), p);
        assert(with_group_toggled(m1, gid).groups =~= m.groups);
    }
}

/// Groups created one after the other get different ids.
pub proof fn successive_groups_get_distinct_ids(m: StateModel, a: Seq<char>, b: Seq<char>)
    requires
        m.next_group_id + 1 < u32::MAX,
    ensures
        ({
            let m1 = with_new_group(m, a);
            let m2 = with_new_group(m1, b);
            &&& m1.groups.last().id == m.next_group_id
            &&& m2.groups.last().id == m1.next_group_id
            &&& m.next_group_id != m1.next_group_id
        }),
{
}

// ── Renames ──

/// A rename shows as the window's name; clearing it shows the native title again.
pub proof fn rename_then_clear_shows_native_title(m: StateModel, wid: u32, name: Seq<char>)
    ensures
        ({
            let m1 = if window_pos(m, wid) >= 0 {
                StateModel { renames: m.renames.insert(wid, name), ..m }
            } else {
                m
            };
            let m2 = StateModel { renames: m1.renames.remove(wid), ..m1 };
            &&& window_pos(m, wid) >= 0 ==> display_name_of(m1, wid) == name
            &&& display_name_of(m2, wid) == native_title_of(m, wid)
        }),
{
}

// ── Persistence ──

spec fn identity_seq(n: int) -> Seq<int> {
    Seq::new(n as nat, |k: int| k)
}

proof fn lemma_own_claims(keys: Seq<Seq<char>>, i: int)
    requires
        0 <= i <= keys.len(),
    ensures
        claims(keys, keys.take(i)) == identity_seq(i),
    decreases i,
{
    if i > 0 {
        lemma_own_claims(keys, i - 1);
        let pre = keys.take(i);
        assert(pre.drop_last() =~= keys.take(i - 1));
        assert(pre.last() == keys[i - 1]);
        let prev = identity_seq(i - 1);
        let p = free_position(keys, prev, keys[i - 1]);
        assert forall|k: int| 0 <= k < i - 1 implies !#[trigger] p(k) by {
            assert(prev[k] == k);
        }
        assert(!prev.contains(i - 1));
        lemma_first_index_is(keys.len() as int, p, i - 1);
        assert(claims(keys, pre) =~= identity_seq(i));
    }
}

proof fn lemma_own_takers(n: int, j: int)
    requires
        0 <= j <= n,
    ensures
        takers_before(identity_seq(n), j) == identity_seq(j),
    decreases j,
{
    if j > 0 {
        lemma_own_takers(n, j - 1);
        let cl = identity_seq(n);
        assert forall|k: int| 0 <= k < j - 1 implies !equals_int(j - 1)(#[trigger] cl[k]) by {}
        lemma_first_match_is(cl, equals_int(j - 1), j - 1);
        assert(taker(cl, j - 1) == j - 1);
        assert(takers_before(cl, j) =~= identity_seq(j));
    }
}

proof fn lemma_own_untaken(n: int, i: int)
    requires
        0 <= i <= n,
    ensures
        untaken_before(identity_seq(n), n, i) == Seq::<int>::empty(),
    decreases i,
{
    if i > 0 {
        lemma_own_untaken(n, i - 1);
    }
}

/// Restoring a state from its own snapshot keeps its windows in their order,
/// duplicate keys included: the k-th window with a key takes the k-th saved
/// position with that key.
pub proof fn restoring_own_snapshot_keeps_window_order(m: StateModel, renames: Map<u32, Seq<char>>)
    ensures
        restored(
            m,
            snapshot_of(m.windows, m.renames, m.groups, m.display_order, m.next_group_id),
            renames,
        ).windows == m.windows,
{
    let keys = window_keys(m.windows);
    let n = m.windows.len() as int;
    lemma_own_claims(keys, n);
    assert(keys.take(n) =~= keys);
    let cl = identity_seq(n);
    lemma_own_takers(n, n);
    lemma_own_untaken(n, n);
    assert(restored_order(cl, n) =~= identity_seq(n));
    assert(pick(m.windows, identity_seq(n)) =~= m.windows);
}

/// With distinct window ids, restoring a state from its own snapshot gives
/// back exactly the renames of its windows.
pub proof fn restoring_own_snapshot_keeps_renames(m: StateModel, r: Map<u32, Seq<char>>)
    requires
        forall|i: int, j: int| 0 <= i < j < m.windows.len() ==> m.windows[i].id != m.windows[j].id,
        renames_restored(
            r,
            m.windows,
            claims(window_keys(m.windows), window_keys(m.windows)),
            snapshot_of(m.windows, m.renames, m.groups, m.display_order, m.next_group_id),
            m.windows.len() as int,
        ),
    ensures
        forall|k: u32|
            #[trigger] r.contains_key(k) <==> (m.renames.contains_key(k) && exists|i: int|
                0 <= i < m.windows.len() && m.windows[i].id == k),
        forall|k: u32| #[trigger] r.contains_key(k) ==> r[k] == m.renames[k],
{
    let keys = window_keys(m.windows);
    let n = m.windows.len() as int;
    let s = snapshot_of(m.windows, m.renames, m.groups, m.display_order, m.next_group_id);
    lemma_own_claims(keys, n);
    assert(keys.take(n) =~= keys);
    let cl = claims(keys, keys);
    assert(cl == identity_seq(n));
    let ids = window_ids(m.windows);
    assert forall|i: int| 0 <= i < n implies rename_source(s, #[trigger] cl[i]) == (if m.renames.contains_key(
        m.windows[i].id,
    ) {
        Some(m.windows[i].id)
    } else {
        None
    }) by {
        assert(cl[i] == i);
        assert(ids[i] == m.windows[i].id);
        assert forall|k: int| 0 <= k < i implies !equals_id(ids[i])(#[trigger] ids[k]) by {
            assert(ids[k] == m.windows[k].id);
        }
        lemma_first_match_is(ids, equals_id(ids[i]), i);
    }
    assert forall|k: u32| #[trigger] r.contains_key(k) <==> (m.renames.contains_key(k) && exists|i: int|
        0 <= i < m.windows.len() && m.windows[i].id == k) by {
        if r.contains_key(k) {
            let i = choose|i: int| 0 <= i < n && renamed_from(m.windows, cl, s, k, i);
            assert(m.windows[i].id == k);
        }
        if m.renames.contains_key(k) && exists|i: int| 0 <= i < m.windows.len() && m.windows[i].id == k {
            let i = choose|i: int| 0 <= i < m.windows.len() && m.windows[i].id == k;
            assert(renamed_from(m.windows, cl, s, k, i));
        }
    }
    assert forall|k: u32| #[trigger] r.contains_key(k) implies r[k] == m.renames[k] by {
        let i = choose|i: int|
            0 <= i < n && renamed_from(m.windows, cl, s, k, i) && r[k] == s.renames[rename_source(s, cl[i])->0];
        assert(m.windows[i].id == k);
    }
}

/// A snapshot keeps one key and one id per window, in window order.
pub proof fn snapshot_lists_are_parallel(m: StateModel)
    ensures
        ({
            let s = snapshot_of(m.windows, m.renames, m.groups, m.display_order, m.next_group_id);
            &&& s.window_order.len() == m.windows.len()
            &&& s.window_ids.len() == m.windows.len()
            &&& forall|i: int| 0 <= i < m.windows.len() ==> #[trigger] s.window_ids[i] == m.windows[i].id
        }),
{
}

// ── Filter ──

/// A filter built from `classes` accepts a class exactly when one of the
/// classes equals it ignoring case.
pub proof fn filter_accepts_ignoring_case(classes: Seq<Seq<char>>, wm_class: Seq<char>)
    ensures
        accepts(classes.map_values(|c: Seq<char>| unicode_lowercase(c)), wm_class) <==> exists|k: int|
            0 <= k < classes.len() && unicode_lowercase(#[trigger] classes[k]) == unicode_lowercase(wm_class),
{
    let lowered = classes.map_values(|c: Seq<char>| unicode_lowercase(c));
    if accepts(lowered, wm_class) {
        let k = choose|k: int| 0 <= k < lowered.len() && lowered[k] == unicode_lowercase(wm_class);
        assert(unicode_lowercase(classes[k]) == unicode_lowercase(wm_class));
    }
    if exists|k: int| 0 <= k < classes.len() && unicode_lowercase(#[trigger] classes[k]) == unicode_lowercase(wm_class) {
        let k = choose|k: int| 0 <= k < classes.len() && unicode_lowercase(#[trigger] classes[k]) == unicode_lowercase(wm_class);
        assert(lowered[k] == unicode_lowercase(wm_class));
    }
}

// ── Panel ──

/// No two rows share a pixel: a height lies in the box of at most one row.
pub proof fn rows_do_not_overlap(i: int, j: int, y: int)
    requires
        covers(y)(i),
        covers(y)(j),
    ensures
        i == j,
{
}

/// Toggling a panel group twice leaves the panel as it was, with its rows rebuilt.
pub proof fn panel_toggle_twice_restores(m: PanelModel, gid: u32)
    ensures
        panel_toggled(panel_toggled(m, gid), gid) == with_rows(m),
{
    let p = group_at(m.groups, gid);
    lemma_first_match(m.groups, has_id(gid));
    let m1 = panel_toggled(m, gid);
    if p >= 0 {
        lemma_first_match(m1.groups, has_id(gid));
        assert(m1.groups[p].id == gid);
        assert forall|k: int| 0 <= k < p implies !has_id(gid)(#[trigger] m1.groups[k]) by {
            assert(m1.groups[k] == m.groups[k]);
            assert(!has_id(gid)(m.groups[k]));
        }
        lemma_first_match_is(m1.groups, has_id(gid), p);
        assert(panel_toggled(m1, gid).groups =~= m.groups);
    } else {
        assert(m1.groups == m.groups);
    }
}

proof fn lemma_pushed_group_found(gs: Seq<GroupView>, g: GroupView)
    requires
        group_at(gs, g.id) == -1,
    ensures
        group_at(gs.push(g), g.id) == gs.len(),
        gs.push(g).remove(gs.len() as int) == gs,
{
    let hs = gs.push(g);
    lemma_first_match(gs, has_id(g.id));
    assert forall|k: int| 0 <= k < gs.len() implies !has_id(g.id)(#[trigger] hs[k]) by {
        assert(hs[k] == gs[k]);
    }
    lemma_first_match_is(hs, has_id(g.id), gs.len() as int);
    assert(hs.remove(gs.len() as int) =~= gs);
}

proof fn lemma_slot_taken_back(order: Seq<PanelSlot>, wid: u32, gid: u32)
    requires
        first_match(order, is_slot(PanelSlot::Group(gid))) == -1,
    ensures
        ({
            let k = first_match(order, is_slot(PanelSlot::Window(wid)));
            let o1 = if k >= 0 {
                order.update(k, PanelSlot::Group(gid))
            } else {
                order
            };
            let sp = first_match(o1, is_slot(PanelSlot::Group(gid)));
            (if sp >= 0 {
                o1.take(sp) + seq![wid].map_values(|w: u32| crate::panel::window_slot(w)) + o1.skip(sp + 1)
            } else {
                o1
            }) == order
        }),
{
    let k = first_match(order, is_slot(PanelSlot::Window(wid)));
    lemma_first_match(order, is_slot(PanelSlot::Window(wid)));
    lemma_first_match(order, is_slot(PanelSlot::Group(gid)));
    if k >= 0 {
        let o1 = order.update(k, PanelSlot::Group(gid));
        assert forall|j: int| 0 <= j < k implies !is_slot(PanelSlot::Group(gid))(#[trigger] o1[j]) by {
            assert(o1[j] == order[j]);
        }
        lemma_first_match_is(o1, is_slot(PanelSlot::Group(gid)), k);
        assert(seq![wid].map_values(|w: u32| crate::panel::window_slot(w)) =~= seq![PanelSlot::Window(wid)]);
        assert(o1.take(k) + seq![wid].map_values(|w: u32| crate::panel::window_slot(w)) + o1.skip(k + 1) =~= order);
    }
}

/// Deleting the group just created for a window puts the window back in its
/// slot, when the new group's id was not in use.
pub proof fn panel_delete_undoes_create(m: PanelModel, wid: u32)
    requires
        m.next_group_id < u32::MAX,
        group_at(m.groups, m.next_group_id) == -1,
        first_match(m.order, is_slot(PanelSlot::Group(m.next_group_id))) == -1,
    ensures
        ({
            let m2 = with_group_deleted(with_group_created(m, wid), m.next_group_id);
            &&& m2.groups == m.groups
            &&& m2.order == m.order
            &&& m2.next_group_id == m.next_group_id + 1
        }),
{
    let gid = m.next_group_id;
    let g = GroupView { id: gid, name: crate::panel::numbered_name((gid + 1) as nat), collapsed: false, members: seq![wid] };
    lemma_pushed_group_found(m.groups, g);
    lemma_slot_taken_back(m.order, wid, gid);
}

// ── Sidebar items of the application state ──

/// The window an item lists, if it lists one.
pub open spec fn item_window(it: ItemKind) -> Option<u32> {
    match it {
        ItemKind::UngroupedWindow(w) => Some(w),
        ItemKind::GroupedWindow(w, _) => Some(w),
        ItemKind::GroupHeader(_) => None,
    }
}

/// The group an item heads, if it is a header.
pub open spec fn item_header(it: ItemKind) -> Option<u32> {
    match it {
        ItemKind::GroupHeader(g) => Some(g),
        _ => None,
    }
}

/// Listed items name visible windows, each window and each header at most
/// once, and the seen sets cover what is listed.
spec fn acc_ok(acc: ItemsAcc, vis: spec_fn(u32) -> bool) -> bool {
    &&& forall|k: int| 0 <= k < acc.items.len() ==> match item_window(#[trigger] acc.items[k]) {
        Some(w) => vis(w) && acc.seen_windows.contains(w),
        None => true,
    }
    &&& forall|k: int| 0 <= k < acc.items.len() ==> match item_header(#[trigger] acc.items[k]) {
        Some(g) => acc.seen_groups.contains(g),
        None => true,
    }
    &&& forall|i: int, j: int|
        0 <= i < j < acc.items.len() && #[trigger] item_window(acc.items[i]) is Some ==> item_window(acc.items[i])
            != item_window(#[trigger] acc.items[j])
    &&& forall|i: int, j: int|
        0 <= i < j < acc.items.len() && #[trigger] item_header(acc.items[i]) is Some ==> item_header(acc.items[i])
            != item_header(#[trigger] acc.items[j])
}

proof fn lemma_push_window(acc: ItemsAcc, vis: spec_fn(u32) -> bool, it: ItemKind, w: u32)
    requires
        acc_ok(acc, vis),
        item_window(it) == Some(w),
        vis(w),
        !acc.seen_windows.contains(w),
    ensures
        acc_ok(ItemsAcc { items: acc.items.push(it), seen_windows: acc.seen_windows.insert(w), ..acc }, vis),
{
    let b = ItemsAcc { items: acc.items.push(it), seen_windows: acc.seen_windows.insert(w), ..acc };
    let n = acc.items.len() as int;
    assert forall|k: int| 0 <= k < b.items.len() implies match item_window(#[trigger] b.items[k]) {
        Some(x) => vis(x) && b.seen_windows.contains(x),
        None => true,
    } by {
        if k < n {
            assert(b.items[k] == acc.items[k]);
        }
    }
    assert forall|k: int| 0 <= k < b.items.len() implies match item_header(#[trigger] b.items[k]) {
        Some(g) => b.seen_groups.contains(g),
        None => true,
    } by {
        if k < n {
            assert(b.items[k] == acc.items[k]);
        }
    }
    assert forall|i: int, j: int|
        0 <= i < j < b.items.len() && #[trigger] item_window(b.items[i]) is Some implies item_window(b.items[i])
            != item_window(#[trigger] b.items[j]) by {
        assert(b.items[i] == acc.items[i]);
        if j < n {
            assert(b.items[j] == acc.items[j]);
        } else {
            assert(acc.seen_windows.contains(item_window(acc.items[i])->0));
        }
    }
    assert forall|i: int, j: int|
        0 <= i < j < b.items.len() && #[trigger] item_header(b.items[i]) is Some implies item_header(b.items[i])
            != item_header(#[trigger] b.items[j]) by {
        assert(b.items[i] == acc.items[i]);
        if j < n {
            assert(b.items[j] == acc.items[j]);
        }
    }
}

proof fn lemma_push_header(acc: ItemsAcc, vis: spec_fn(u32) -> bool, g: u32)
    requires
        acc_ok(acc, vis),
        !acc.seen_groups.contains(g),
    ensures
        acc_ok(
            ItemsAcc {
                items: acc.items.push(ItemKind::GroupHeader(g)),
                seen_groups: acc.seen_groups.insert(g),
                ..acc
            },
            vis,
        ),
{
    let b = ItemsAcc { items: acc.items.push(ItemKind::GroupHeader(g)), seen_groups: acc.seen_groups.insert(g), ..acc };
    let n = acc.items.len() as int;
    assert forall|k: int| 0 <= k < b.items.len() implies match item_window(#[trigger] b.items[k]) {
        Some(x) => vis(x) && b.seen_windows.contains(x),
        None => true,
    } by {
        if k < n {
            assert(b.items[k] == acc.items[k]);
        }
    }
    assert forall|k: int| 0 <= k < b.items.len() implies match item_header(#[trigger] b.items[k]) {
        Some(x) => b.seen_groups.contains(x),
        None => true,
    } by {
        if k < n {
            assert(b.items[k] == acc.items[k]);
        }
    }
    assert forall|i: int, j: int|
        0 <= i < j < b.items.len() && #[trigger] item_window(b.items[i]) is Some implies item_window(b.items[i])
            != item_window(#[trigger] b.items[j]) by {
        assert(b.items[i] == acc.items[i]);
        if j < n {
            assert(b.items[j] == acc.items[j]);
        }
    }
    assert forall|i: int, j: int|
        0 <= i < j < b.items.len() && #[trigger] item_header(b.items[i]) is Some implies item_header(b.items[i])
            != item_header(#[trigger] b.items[j]) by {
        assert(b.items[i] == acc.items[i]);
        if j < n {
            assert(b.items[j] == acc.items[j]);
        } else {
            assert(acc.seen_groups.contains(item_header(acc.items[i])->0));
        }
    }
}

proof fn lemma_add_members_ok(acc: ItemsAcc, members: Seq<u32>, gid: u32, vis: spec_fn(u32) -> bool)
    requires
        acc_ok(acc, vis),
    ensures
        acc_ok(add_members(acc, members, gid, vis), vis),
    decreases members.len(),
{
    if members.len() > 0 {
        lemma_add_members_ok(acc, members.drop_last(), gid, vis);
        let a = add_members(acc, members.drop_last(), gid, vis);
        let w = members.last();
        if vis(w) && !a.seen_windows.contains(w) {
            lemma_push_window(a, vis, ItemKind::GroupedWindow(w, gid), w);
        }
    }
}

proof fn lemma_add_group_ok(acc: ItemsAcc, g: GroupModel, vis: spec_fn(u32) -> bool)
    requires
        acc_ok(acc, vis),
    ensures
        acc_ok(add_group(acc, g, vis), vis),
{
    if !acc.seen_groups.contains(g.id) {
        lemma_push_header(acc, vis, g.id);
        let a = ItemsAcc {
            items: acc.items.push(ItemKind::GroupHeader(g.id)),
            seen_groups: acc.seen_groups.insert(g.id),
            ..acc
        };
        if !g.collapsed {
            lemma_add_members_ok(a, g.members, g.id, vis);
        }
    }
}

proof fn lemma_add_window_ok(acc: ItemsAcc, wid: u32, vis: spec_fn(u32) -> bool, grp: spec_fn(u32) -> bool)
    requires
        acc_ok(acc, vis),
    ensures
        acc_ok(add_window(acc, wid, vis, grp), vis),
{
    if vis(wid) && !grp(wid) && !acc.seen_windows.contains(wid) {
        lemma_push_window(acc, vis, ItemKind::UngroupedWindow(wid), wid);
    }
}

proof fn lemma_fold_slots_ok(m: StateModel, acc: ItemsAcc, slots: Seq<DisplaySlot>, vis: spec_fn(u32) -> bool, grp: spec_fn(u32) -> bool)
    requires
        acc_ok(acc, vis),
    ensures
        acc_ok(fold_slots(m, acc, slots, vis, grp), vis),
    decreases slots.len(),
{
    if slots.len() > 0 {
        lemma_fold_slots_ok(m, acc, slots.drop_last(), vis, grp);
        let a = fold_slots(m, acc, slots.drop_last(), vis, grp);
        match slots.last() {
            DisplaySlot::Window(w) => lemma_add_window_ok(a, w, vis, grp),
            DisplaySlot::Group(g) => {
                let p = crate::state::group_pos(m, g);
                if p >= 0 {
                    lemma_add_group_ok(a, m.groups[p], vis);
                }
            },
        }
    }
}

proof fn lemma_fold_windows_ok(acc: ItemsAcc, ws: Seq<WindowModel>, vis: spec_fn(u32) -> bool, grp: spec_fn(u32) -> bool)
    requires
        acc_ok(acc, vis),
    ensures
        acc_ok(fold_windows(acc, ws, vis, grp), vis),
    decreases ws.len(),
{
    if ws.len() > 0 {
        lemma_fold_windows_ok(acc, ws.drop_last(), vis, grp);
        lemma_add_window_ok(fold_windows(acc, ws.drop_last(), vis, grp), ws.last().id, vis, grp);
    }
}

proof fn lemma_fold_groups_ok(acc: ItemsAcc, gs: Seq<GroupModel>, vis: spec_fn(u32) -> bool)
    requires
        acc_ok(acc, vis),
    ensures
        acc_ok(fold_groups(acc, gs, vis), vis),
    decreases gs.len(),
{
    if gs.len() > 0 {
        lemma_fold_groups_ok(acc, gs.drop_last(), vis);
        lemma_add_group_ok(fold_groups(acc, gs.drop_last(), vis), gs.last(), vis);
    }
}

/// The sidebar lists only windows that are tracked, accepted by the filter
/// and not hidden; it lists each window at most once and each group header at
/// most once.
pub proof fn display_items_list_visible_windows_once(m: StateModel, lowered: Seq<Seq<char>>)
    ensures
        ({
            let items = display_items_of(m, lowered);
            &&& forall|k: int| 0 <= k < items.len() && #[trigger] item_window(items[k]) is Some ==> visible_in(m, lowered)(
                item_window(items[k])->0,
            )
            &&& forall|i: int, j: int|
                0 <= i < j < items.len() && #[trigger] item_window(items[i]) is Some ==> item_window(items[i])
                    != item_window(#[trigger] items[j])
            &&& forall|i: int, j: int|
                0 <= i < j < items.len() && #[trigger] item_header(items[i]) is Some ==> item_header(items[i])
                    != item_header(#[trigger] items[j])
        }),
{
    let vis = visible_in(m, lowered);
    let grp = grouped_in(m.groups);
    assert(acc_ok(no_items(), vis));
    lemma_fold_slots_ok(m, no_items(), m.display_order, vis, grp);
    let a1 = fold_slots(m, no_items(), m.display_order, vis, grp);
    lemma_fold_windows_ok(a1, m.windows, vis, grp);
    let a2 = fold_windows(a1, m.windows, vis, grp);
    lemma_fold_groups_ok(a2, m.groups, vis);
    let items = display_items_of(m, lowered);
    assert forall|k: int| 0 <= k < items.len() && #[trigger] item_window(items[k]) is Some implies visible_in(m, lowered)(
        item_window(items[k])->0,
    ) by {
    }
}

/// Every grouped item lies in the first group with its id, which is expanded
/// and has the window as a member.
spec fn grouped_ok(items: Seq<ItemKind>, m: StateModel) -> bool {
    forall|k: int| 0 <= k < items.len() ==> match #[trigger] items[k] {
        ItemKind::GroupedWindow(w, g) => {
            let p = crate::state::group_pos(m, g);
            p >= 0 && !m.groups[p].collapsed && m.groups[p].members.contains(w)
        },
        _ => true,
    }
}

proof fn lemma_add_members_grouped(acc: ItemsAcc, members: Seq<u32>, gid: u32, vis: spec_fn(u32) -> bool, m: StateModel)
    requires
        grouped_ok(acc.items, m),
        crate::state::group_pos(m, gid) >= 0,
        !m.groups[crate::state::group_pos(m, gid)].collapsed,
        forall|i: int| 0 <= i < members.len() ==> m.groups[crate::state::group_pos(m, gid)].members.contains(#[trigger] members[i]),
    ensures
        grouped_ok(add_members(acc, members, gid, vis).items, m),
    decreases members.len(),
{
    if members.len() > 0 {
        lemma_add_members_grouped(acc, members.drop_last(), gid, vis, m);
        let a = add_members(acc, members.drop_last(), gid, vis);
        let w = members.last();
        assert(members[members.len() - 1] == w);
        if vis(w) && !a.seen_windows.contains(w) {
            let items = a.items.push(ItemKind::GroupedWindow(w, gid));
            assert forall|k: int| 0 <= k < items.len() implies match #[trigger] items[k] {
                ItemKind::GroupedWindow(x, g) => {
                    let p = crate::state::group_pos(m, g);
                    p >= 0 && !m.groups[p].collapsed && m.groups[p].members.contains(x)
                },
                _ => true,
            } by {
                if k < a.items.len() {
                    assert(items[k] == a.items[k]);
                }
            }
        }
    }
}

proof fn lemma_add_group_grouped(acc: ItemsAcc, g: GroupModel, vis: spec_fn(u32) -> bool, m: StateModel)
    requires
        grouped_ok(acc.items, m),
        acc.seen_groups.contains(g.id) || {
            let p = crate::state::group_pos(m, g.id);
            p >= 0 && m.groups[p] == g
        },
    ensures
        grouped_ok(add_group(acc, g, vis).items, m),
{
    if !acc.seen_groups.contains(g.id) {
        let a = ItemsAcc {
            items: acc.items.push(ItemKind::GroupHeader(g.id)),
            seen_groups: acc.seen_groups.insert(g.id),
            ..acc
        };
        assert forall|k: int| 0 <= k < a.items.len() implies match #[trigger] a.items[k] {
            ItemKind::GroupedWindow(x, gg) => {
                let p = crate::state::group_pos(m, gg);
                p >= 0 && !m.groups[p].collapsed && m.groups[p].members.contains(x)
            },
            _ => true,
        } by {
            if k < acc.items.len() {
                assert(a.items[k] == acc.items[k]);
            }
        }
        if !g.collapsed {
            assert forall|i: int| 0 <= i < g.members.len() implies m.groups[crate::state::group_pos(m, g.id)].members.contains(
                #[trigger] g.members[i],
            ) by {}
            lemma_add_members_grouped(a, g.members, g.id, vis, m);
        }
    }
}

proof fn lemma_add_window_grouped(acc: ItemsAcc, wid: u32, vis: spec_fn(u32) -> bool, grp: spec_fn(u32) -> bool, m: StateModel)
    requires
        grouped_ok(acc.items, m),
    ensures
        grouped_ok(add_window(acc, wid, vis, grp).items, m),
{
    if vis(wid) && !grp(wid) && !acc.seen_windows.contains(wid) {
        let items = acc.items.push(ItemKind::UngroupedWindow(wid));
        assert forall|k: int| 0 <= k < items.len() implies match #[trigger] items[k] {
            ItemKind::GroupedWindow(x, g) => {
                let p = crate::state::group_pos(m, g);
                p >= 0 && !m.groups[p].collapsed && m.groups[p].members.contains(x)
            },
            _ => true,
        } by {
            if k < acc.items.len() {
                assert(items[k] == acc.items[k]);
            }
        }
    }
}

proof fn lemma_fold_slots_grouped(m: StateModel, acc: ItemsAcc, slots: Seq<DisplaySlot>, vis: spec_fn(u32) -> bool, grp: spec_fn(u32) -> bool)
    requires
        grouped_ok(acc.items, m),
    ensures
        grouped_ok(fold_slots(m, acc, slots, vis, grp).items, m),
    decreases slots.len(),
{
    if slots.len() > 0 {
        lemma_fold_slots_grouped(m, acc, slots.drop_last(), vis, grp);
        let a = fold_slots(m, acc, slots.drop_last(), vis, grp);
        match slots.last() {
            DisplaySlot::Window(w) => lemma_add_window_grouped(a, w, vis, grp, m),
            DisplaySlot::Group(g) => {
                let p = crate::state::group_pos(m, g);
                if p >= 0 {
                    lemma_first_match(m.groups, has_gid(g));
                    assert(m.groups[p].id == g);
                    lemma_add_group_grouped(a, m.groups[p], vis, m);
                }
            },
        }
    }
}

proof fn lemma_fold_windows_grouped(acc: ItemsAcc, ws: Seq<WindowModel>, vis: spec_fn(u32) -> bool, grp: spec_fn(u32) -> bool, m: StateModel)
    requires
        grouped_ok(acc.items, m),
    ensures
        grouped_ok(fold_windows(acc, ws, vis, grp).items, m),
    decreases ws.len(),
{
    if ws.len() > 0 {
        lemma_fold_windows_grouped(acc, ws.drop_last(), vis, grp, m);
        lemma_add_window_grouped(fold_windows(acc, ws.drop_last(), vis, grp), ws.last().id, vis, grp, m);
    }
}

proof fn lemma_add_members_keeps_groups(acc: ItemsAcc, members: Seq<u32>, gid: u32, vis: spec_fn(u32) -> bool)
    ensures
        add_members(acc, members, gid, vis).seen_groups == acc.seen_groups,
    decreases members.len(),
{
    if members.len() > 0 {
        lemma_add_members_keeps_groups(acc, members.drop_last(), gid, vis);
    }
}

proof fn lemma_add_group_seen(acc: ItemsAcc, g: GroupModel, vis: spec_fn(u32) -> bool)
    ensures
        add_group(acc, g, vis).seen_groups == acc.seen_groups.insert(g.id),
{
    if !acc.seen_groups.contains(g.id) {
        let a = ItemsAcc {
            items: acc.items.push(ItemKind::GroupHeader(g.id)),
            seen_groups: acc.seen_groups.insert(g.id),
            ..acc
        };
        lemma_add_members_keeps_groups(a, g.members, g.id, vis);
    } else {
        assert(acc.seen_groups.insert(g.id) =~= acc.seen_groups);
    }
}

proof fn lemma_fold_groups_grouped(acc: ItemsAcc, m: StateModel, k: int, vis: spec_fn(u32) -> bool)
    requires
        0 <= k <= m.groups.len(),
        grouped_ok(acc.items, m),
    ensures
        grouped_ok(fold_groups(acc, m.groups.take(k), vis).items, m),
        forall|j: int| 0 <= j < k ==> #[trigger] fold_groups(acc, m.groups.take(k), vis).seen_groups.contains(m.groups[j].id),
        forall|x: u32| acc.seen_groups.contains(x) ==> #[trigger] fold_groups(acc, m.groups.take(k), vis).seen_groups.contains(x),
    decreases k,
{
    if k > 0 {
        lemma_fold_groups_grouped(acc, m, k - 1, vis);
        let gs = m.groups.take(k);
        assert(gs.drop_last() =~= m.groups.take(k - 1));
        assert(gs.last() == m.groups[k - 1]);
        let a = fold_groups(acc, m.groups.take(k - 1), vis);
        let g = m.groups[k - 1];
        if !a.seen_groups.contains(g.id) {
            lemma_first_match(m.groups, has_gid(g.id));
            assert forall|j: int| 0 <= j < k - 1 implies !has_gid(g.id)(#[trigger] m.groups[j]) by {
                assert(a.seen_groups.contains(m.groups[j].id));
            }
            lemma_first_match_is(m.groups, has_gid(g.id), k - 1);
        }
        lemma_add_group_grouped(a, g, vis, m);
        lemma_add_group_seen(a, g, vis);
        assert(fold_groups(acc, gs, vis) == add_group(a, g, vis));
    }
}

/// Every grouped window the sidebar lists is a member of the first group with
/// that id, and that group is expanded: a collapsed group shows only its header.
pub proof fn display_items_show_members_of_expanded_groups(m: StateModel, lowered: Seq<Seq<char>>)
    ensures
        forall|k: int| 0 <= k < display_items_of(m, lowered).len() ==> match #[trigger] display_items_of(m, lowered)[k] {
            ItemKind::GroupedWindow(w, g) => {
                let p = crate::state::group_pos(m, g);
                p >= 0 && !m.groups[p].collapsed && m.groups[p].members.contains(w)
            },
            _ => true,
        },
{
    let vis = visible_in(m, lowered);
    let grp = grouped_in(m.groups);
    lemma_fold_slots_grouped(m, no_items(), m.display_order, vis, grp);
    let a1 = fold_slots(m, no_items(), m.display_order, vis, grp);
    lemma_fold_windows_grouped(a1, m.windows, vis, grp, m);
    let a2 = fold_windows(a1, m.windows, vis, grp);
    lemma_fold_groups_grouped(a2, m, m.groups.len() as int, vis);
    assert(m.groups.take(m.groups.len() as int) =~= m.groups);
}

// ── Groups ──

/// Every group id lies below the group counter.
pub open spec fn ids_below_counter(m: StateModel) -> bool {
    forall|k: int| 0 <= k < m.groups.len() ==> #[trigger] m.groups[k].id < m.next_group_id
}

/// Creating a group, where every group id lies below the counter, adds one
/// empty, expanded group named as asked, under the counter's id, which no
/// existing group has; its slot ends the top-level order; windows, renames
/// and the active window stay as they were; ids stay below the counter.
pub proof fn created_group_is_fresh_and_last(m: StateModel, name: Seq<char>)
    requires
        ids_below_counter(m),
        m.next_group_id < u32::MAX,
    ensures
        ({
            let r = with_new_group(m, name);
            let gid = m.next_group_id;
            &&& forall|k: int| 0 <= k < m.groups.len() ==> #[trigger] m.groups[k].id != gid
            &&& group_pos(r, gid) == m.groups.len()
            &&& r.groups[group_pos(r, gid)] == fresh_group(gid, name, seq![])
            &&& r.groups.take(m.groups.len() as int) == m.groups
            &&& r.display_order.last() == DisplaySlot::Group(gid)
            &&& r.windows == m.windows && r.renames == m.renames && r.active == m.active
            &&& ids_below_counter(r)
        }),
{
    let r = with_new_group(m, name);
    let gid = m.next_group_id;
    assert forall|k: int| 0 <= k < m.groups.len() implies !#[trigger] has_gid(gid)(r.groups[k]) by {
        assert(r.groups[k] == m.groups[k]);
    }
    lemma_first_match_is(r.groups, has_gid(gid), m.groups.len() as int);
    assert(r.groups.take(m.groups.len() as int) =~= m.groups);
    assert forall|k: int| 0 <= k < r.groups.len() implies #[trigger] r.groups[k].id < r.next_group_id by {
        if k < m.groups.len() {
            assert(r.groups[k] == m.groups[k]);
        }
    }
}

/// After moving a window into an existing group, it is a member of that group
/// and of no other, and it has no top-level slot; without such a group the
/// state is unchanged.
pub proof fn added_member_is_in_that_group_only(m: StateModel, wid: u32, gid: u32)
    ensures
        ({
            let r = with_member_added(m, wid, gid);
            let p = group_pos(m, gid);
            &&& p >= 0 ==> {
                &&& r.groups.len() == m.groups.len()
                &&& r.groups[p].id == gid
                &&& r.groups[p].members.contains(wid)
                &&& forall|k: int| 0 <= k < r.groups.len() && k != p ==> !(#[trigger] r.groups[k]).members.contains(wid)
                &&& !r.display_order.contains(DisplaySlot::Window(wid))
            }
            &&& p < 0 ==> r == m
        }),
{
    let p = group_pos(m, gid);
    lemma_first_match(m.groups, has_gid(gid));
    if p >= 0 {
        let r = with_member_added(m, wid, gid);
        let gs = groups_without(m.groups, wid);
        assert(r.groups[p].members == gs[p].members.push(wid));
        assert(r.groups[p].members[gs[p].members.len() as int] == wid);
        assert forall|k: int| 0 <= k < r.groups.len() && k != p implies !(#[trigger] r.groups[k]).members.contains(wid) by {
            lemma_without_drops(m.groups[k].members, wid);
        }
        let d = ensured_order(m);
        let f = not_slot(DisplaySlot::Window(wid));
        if r.display_order.contains(DisplaySlot::Window(wid)) {
            let i = choose|i: int| 0 <= i < r.display_order.len() && r.display_order[i] == DisplaySlot::Window(wid);
            d.lemma_filter_pred(f, i);
        }
    }
}

proof fn lemma_without_drops(s: Seq<u32>, wid: u32)
    ensures
        !without(s, wid).contains(wid),
{
    if without(s, wid).contains(wid) {
        let i = choose|i: int| 0 <= i < without(s, wid).len() && without(s, wid)[i] == wid;
        s.lemma_filter_pred(other_than(wid), i);
    }
}

/// After taking a window out of the groups, no group holds it; the groups
/// keep their ids, names and collapsed flags.
pub proof fn removed_member_is_in_no_group(m: StateModel, wid: u32)
    ensures
        ({
            let r = with_member_removed(m, wid);
            &&& r.groups.len() == m.groups.len()
            &&& forall|k: int| 0 <= k < r.groups.len() ==> !(#[trigger] r.groups[k]).members.contains(wid)
            &&& forall|k: int| 0 <= k < r.groups.len() ==> {
                &&& (#[trigger] r.groups[k]).id == m.groups[k].id
                &&& r.groups[k].name == m.groups[k].name
                &&& r.groups[k].collapsed == m.groups[k].collapsed
            }
        }),
{
    let r = with_member_removed(m, wid);
    assert forall|k: int| 0 <= k < r.groups.len() implies !(#[trigger] r.groups[k]).members.contains(wid) by {
        lemma_without_drops(m.groups[k].members, wid);
    }
}

// ── Refreshing the window list ──

/// A refresh drops the renames of windows that are gone and keeps the others
/// unchanged, clears the hidden set, keeps each group's id, name and
/// collapsed flag while taking gone windows out of its members (in order),
/// takes their slots out of the top-level order, and keeps the active window.
pub proof fn refresh_prunes_to_live_windows(m: StateModel, entries: Seq<WindowModel>)
    ensures
        ({
            let r = with_windows_refreshed(m, entries);
            let nw = r.windows;
            &&& forall|k: u32| #[trigger] r.renames.contains_key(k) <==> (m.renames.contains_key(k) && present(nw, k))
            &&& forall|k: u32| r.renames.contains_key(k) ==> #[trigger] r.renames[k] == m.renames[k]
            &&& r.hidden.is_empty()
            &&& r.active == m.active
            &&& r.groups.len() == m.groups.len()
            &&& forall|k: int| 0 <= k < r.groups.len() ==> {
                &&& (#[trigger] r.groups[k]).id == m.groups[k].id
                &&& r.groups[k].name == m.groups[k].name
                &&& r.groups[k].collapsed == m.groups[k].collapsed
                &&& r.groups[k].members == m.groups[k].members.filter(live_in(nw))
            }
            &&& forall|k: int, w: u32| 0 <= k < r.groups.len() && #[trigger] r.groups[k].members.contains(w) ==> present(nw, w)
            &&& forall|w: u32| #[trigger] r.display_order.contains(DisplaySlot::Window(w)) ==> present(nw, w)
        }),
{
    let r = with_windows_refreshed(m, entries);
    let nw = r.windows;
    assert forall|k: int, w: u32| 0 <= k < r.groups.len() && #[trigger] r.groups[k].members.contains(w) implies present(nw, w) by {
        let mem = m.groups[k].members;
        let i = choose|i: int| 0 <= i < r.groups[k].members.len() && r.groups[k].members[i] == w;
        mem.lemma_filter_pred(live_in(nw), i);
    }
    assert forall|w: u32| #[trigger] r.display_order.contains(DisplaySlot::Window(w)) implies present(nw, w) by {
        let i = choose|i: int| 0 <= i < r.display_order.len() && r.display_order[i] == DisplaySlot::Window(w);
        m.display_order.lemma_filter_pred(slot_live(nw, m.groups), i);
    }
}


/// With distinct window ids, a refresh lists the old windows that are still
/// reported, in their old order and with the title and desktop of their
/// report, followed by the reported windows that are new, in report order.
pub proof fn refresh_keeps_old_order_then_appends_new(m: StateModel, entries: Seq<WindowModel>)
    requires
        distinct_ids(m.windows),
    ensures
        with_windows_refreshed(m, entries).windows == m.windows.filter(reported_in(entries)).map_values(
            retitled_from(entries),
        ) + entries.filter(absent_from(m.windows)),
{
    let old = m.windows;
    lemma_refreshed_closed(old, entries);
    let f = old.filter(reported_in(entries));
    let kept = refreshed(old, entries);
    assert forall|i: int| 0 <= i < entries.len() implies #[trigger] absent_from(kept)(entries[i])
        == absent_from(old)(entries[i]) by {
        let id = entries[i].id;
        lemma_any_match_first(entries, has_wid(id));
        assert(has_wid(id)(entries[i]));
        if present(old, id) {
            let k = choose|k: int| 0 <= k < old.len() && has_wid(id)(#[trigger] old[k]);
            old.lemma_filter_contains(reported_in(entries), k);
            let j = choose|j: int| 0 <= j < f.len() && f[j] == old[k];
            assert(has_wid(id)(kept[j]));
        }
        if present(kept, id) {
            let j = choose|j: int| 0 <= j < kept.len() && has_wid(id)(#[trigger] kept[j]);
            assert(f.contains(f[j]));
            old.lemma_filter_contains_rev(reported_in(entries), f[j]);
            let k = choose|k: int| 0 <= k < old.len() && old[k] == f[j];
            assert(has_wid(id)(old[k]));
        }
    }
    lemma_filter_agree(entries, absent_from(kept), absent_from(old));
}

// ── What the sidebar items cover ──

/// Ungrouped items name windows in no group; every seen group has a header
/// item and every seen window an item.
spec fn acc_covers(acc: ItemsAcc, grp: spec_fn(u32) -> bool) -> bool {
    &&& forall|k: int| 0 <= k < acc.items.len() ==> (#[trigger] acc.items[k] matches ItemKind::UngroupedWindow(w) ==> !grp(w))
    &&& forall|g: u32| #[trigger] acc.seen_groups.contains(g) ==> exists|k: int| 0 <= k < acc.items.len() && #[trigger] acc.items[k] == ItemKind::GroupHeader(g)
    &&& forall|w: u32| #[trigger] acc.seen_windows.contains(w) ==> exists|k: int| 0 <= k < acc.items.len() && #[trigger] item_window(acc.items[k]) == Some(w)
}

/// `b` extends `a`: its items start with `a`'s and its seen sets contain `a`'s.
spec fn grows(a: ItemsAcc, b: ItemsAcc) -> bool {
    &&& a.items.len() <= b.items.len()
    &&& forall|k: int| 0 <= k < a.items.len() ==> #[trigger] b.items[k] == a.items[k]
    &&& a.seen_windows.subset_of(b.seen_windows)
    &&& a.seen_groups.subset_of(b.seen_groups)
}

proof fn lemma_push_covers(acc: ItemsAcc, it: ItemKind, sw: Set<u32>, sg: Set<u32>, grp: spec_fn(u32) -> bool)
    requires
        acc_covers(acc, grp),
        it matches ItemKind::UngroupedWindow(w) ==> !grp(w),
        forall|g: u32| #[trigger] sg.contains(g) ==> acc.seen_groups.contains(g) || it == ItemKind::GroupHeader(g),
        forall|w: u32| #[trigger] sw.contains(w) ==> acc.seen_windows.contains(w) || item_window(it) == Some(w),
        acc.seen_windows.subset_of(sw),
        acc.seen_groups.subset_of(sg),
    ensures
        acc_covers(acc_of(acc.items.push(it), sw, sg), grp),
        grows(acc, acc_of(acc.items.push(it), sw, sg)),
{
    let b = acc_of(acc.items.push(it), sw, sg);
    let n = acc.items.len() as int;
    assert(b.items[n] == it);
    assert forall|g: u32| #[trigger] b.seen_groups.contains(g) implies exists|k: int| 0 <= k < b.items.len() && #[trigger] b.items[k] == ItemKind::GroupHeader(g) by {
        if acc.seen_groups.contains(g) {
            let k = choose|k: int| 0 <= k < acc.items.len() && #[trigger] acc.items[k] == ItemKind::GroupHeader(g);
            assert(b.items[k] == acc.items[k]);
        }
    }
    assert forall|w: u32| #[trigger] b.seen_windows.contains(w) implies exists|k: int| 0 <= k < b.items.len() && #[trigger] item_window(b.items[k]) == Some(w) by {
        if acc.seen_windows.contains(w) {
            let k = choose|k: int| 0 <= k < acc.items.len() && #[trigger] item_window(acc.items[k]) == Some(w);
            assert(b.items[k] == acc.items[k]);
        }
    }
}

proof fn lemma_grows_trans(a: ItemsAcc, b: ItemsAcc, c: ItemsAcc)
    requires
        grows(a, b),
        grows(b, c),
    ensures
        grows(a, c),
{
    assert forall|k: int| 0 <= k < a.items.len() implies #[trigger] c.items[k] == a.items[k] by {
        assert(c.items[k] == b.items[k]);
    }
}

proof fn lemma_add_members_covers(acc: ItemsAcc, members: Seq<u32>, gid: u32, vis: spec_fn(u32) -> bool, grp: spec_fn(u32) -> bool)
    requires
        acc_covers(acc, grp),
    ensures
        acc_covers(add_members(acc, members, gid, vis), grp),
        grows(acc, add_members(acc, members, gid, vis)),
        add_members(acc, members, gid, vis).seen_groups == acc.seen_groups,
    decreases members.len(),
{
    if members.len() > 0 {
        lemma_add_members_covers(acc, members.drop_last(), gid, vis, grp);
        let a = add_members(acc, members.drop_last(), gid, vis);
        let w = members.last();
        if vis(w) && !a.seen_windows.contains(w) {
            lemma_push_covers(a, ItemKind::GroupedWindow(w, gid), a.seen_windows.insert(w), a.seen_groups, grp);
            lemma_grows_trans(acc, a, add_members(acc, members, gid, vis));
        }
    }
}

proof fn lemma_add_group_covers(acc: ItemsAcc, g: GroupModel, vis: spec_fn(u32) -> bool, grp: spec_fn(u32) -> bool)
    requires
        acc_covers(acc, grp),
    ensures
        acc_covers(add_group(acc, g, vis), grp),
        grows(acc, add_group(acc, g, vis)),
        add_group(acc, g, vis).seen_groups.contains(g.id),
{
    if !acc.seen_groups.contains(g.id) {
        let a = ItemsAcc {
            items: acc.items.push(ItemKind::GroupHeader(g.id)),
            seen_groups: acc.seen_groups.insert(g.id),
            ..acc
        };
        lemma_push_covers(acc, ItemKind::GroupHeader(g.id), acc.seen_windows, acc.seen_groups.insert(g.id), grp);
        assert(a == acc_of(acc.items.push(ItemKind::GroupHeader(g.id)), acc.seen_windows, acc.seen_groups.insert(g.id)));
        if !g.collapsed {
            lemma_add_members_covers(a, g.members, g.id, vis, grp);
            lemma_grows_trans(acc, a, add_group(acc, g, vis));
        }
    }
}

proof fn lemma_add_window_covers(acc: ItemsAcc, wid: u32, vis: spec_fn(u32) -> bool, grp: spec_fn(u32) -> bool)
    requires
        acc_covers(acc, grp),
    ensures
        acc_covers(add_window(acc, wid, vis, grp), grp),
        grows(acc, add_window(acc, wid, vis, grp)),
        vis(wid) && !grp(wid) ==> add_window(acc, wid, vis, grp).seen_windows.contains(wid),
{
    if vis(wid) && !grp(wid) && !acc.seen_windows.contains(wid) {
        lemma_push_covers(acc, ItemKind::UngroupedWindow(wid), acc.seen_windows.insert(wid), acc.seen_groups, grp);
    }
}

proof fn lemma_fold_slots_covers(m: StateModel, acc: ItemsAcc, slots: Seq<DisplaySlot>, vis: spec_fn(u32) -> bool, grp: spec_fn(u32) -> bool)
    requires
        acc_covers(acc, grp),
    ensures
        acc_covers(fold_slots(m, acc, slots, vis, grp), grp),
    decreases slots.len(),
{
    if slots.len() > 0 {
        lemma_fold_slots_covers(m, acc, slots.drop_last(), vis, grp);
        let a = fold_slots(m, acc, slots.drop_last(), vis, grp);
        match slots.last() {
            DisplaySlot::Window(w) => lemma_add_window_covers(a, w, vis, grp),
            DisplaySlot::Group(g) => {
                let p = crate::state::group_pos(m, g);
                if p >= 0 {
                    lemma_add_group_covers(a, m.groups[p], vis, grp);
                }
            },
        }
    }
}

proof fn lemma_fold_windows_covers(acc: ItemsAcc, ws: Seq<WindowModel>, vis: spec_fn(u32) -> bool, grp: spec_fn(u32) -> bool)
    requires
        acc_covers(acc, grp),
    ensures
        acc_covers(fold_windows(acc, ws, vis, grp), grp),
        grows(acc, fold_windows(acc, ws, vis, grp)),
        forall|j: int| 0 <= j < ws.len() && vis(#[trigger] ws[j].id) && !grp(ws[j].id)
            ==> fold_windows(acc, ws, vis, grp).seen_windows.contains(ws[j].id),
    decreases ws.len(),
{
    if ws.len() > 0 {
        let dl = ws.drop_last();
        lemma_fold_windows_covers(acc, dl, vis, grp);
        let a = fold_windows(acc, dl, vis, grp);
        lemma_add_window_covers(a, ws.last().id, vis, grp);
        lemma_grows_trans(acc, a, fold_windows(acc, ws, vis, grp));
        assert forall|j: int| 0 <= j < ws.len() && vis(#[trigger] ws[j].id) && !grp(ws[j].id)
            implies fold_windows(acc, ws, vis, grp).seen_windows.contains(ws[j].id) by {
            if j < dl.len() {
                assert(dl[j] == ws[j]);
            }
        }
    }
}

proof fn lemma_fold_groups_covers(acc: ItemsAcc, gs: Seq<GroupModel>, vis: spec_fn(u32) -> bool, grp: spec_fn(u32) -> bool)
    requires
        acc_covers(acc, grp),
    ensures
        acc_covers(fold_groups(acc, gs, vis), grp),
        forall|j: int| 0 <= j < gs.len() ==> fold_groups(acc, gs, vis).seen_groups.contains(#[trigger] gs[j].id),
    decreases gs.len(),
{
    if gs.len() > 0 {
        let dl = gs.drop_last();
        lemma_fold_groups_covers(acc, dl, vis, grp);
        let a = fold_groups(acc, dl, vis);
        lemma_add_group_covers(a, gs.last(), vis, grp);
        assert forall|j: int| 0 <= j < gs.len() implies fold_groups(acc, gs, vis).seen_groups.contains(#[trigger] gs[j].id) by {
            if j < dl.len() {
                assert(dl[j] == gs[j]);
            }
        }
    }
}

/// Every group gets a header item; every visible window in no group gets an
/// item; and an ungrouped item never names a window that is in a group.
pub proof fn display_items_cover_groups_and_ungrouped_windows(m: StateModel, lowered: Seq<Seq<char>>)
    ensures
        ({
            let items = display_items_of(m, lowered);
            let vis = visible_in(m, lowered);
            let grp = grouped_in(m.groups);
            &&& forall|k: int| 0 <= k < items.len() ==> (#[trigger] items[k] matches ItemKind::UngroupedWindow(w) ==> !grp(w))
            &&& forall|j: int| 0 <= j < m.groups.len() ==> exists|k: int| 0 <= k < items.len() && #[trigger] items[k] == ItemKind::GroupHeader(#[trigger] m.groups[j].id)
            &&& forall|j: int| 0 <= j < m.windows.len() && vis(#[trigger] m.windows[j].id) && !grp(m.windows[j].id)
                ==> exists|k: int| 0 <= k < items.len() && #[trigger] item_window(items[k]) == Some(m.windows[j].id)
        }),
{
    let vis = visible_in(m, lowered);
    let grp = grouped_in(m.groups);
    assert(acc_covers(no_items(), grp));
    lemma_fold_slots_covers(m, no_items(), m.display_order, vis, grp);
    let a1 = fold_slots(m, no_items(), m.display_order, vis, grp);
    lemma_fold_windows_covers(a1, m.windows, vis, grp);
    let a2 = fold_windows(a1, m.windows, vis, grp);
    lemma_fold_groups_covers(a2, m.groups, vis, grp);
    let a3 = fold_groups(a2, m.groups, vis);
    lemma_fold_groups_grows(a2, m.groups, vis);
    assert forall|j: int| 0 <= j < m.windows.len() && vis(#[trigger] m.windows[j].id) && !grp(m.windows[j].id)
        implies exists|k: int| 0 <= k < a3.items.len() && #[trigger] item_window(a3.items[k]) == Some(m.windows[j].id) by {
        assert(a2.seen_windows.contains(m.windows[j].id));
        assert(a3.seen_windows.contains(m.windows[j].id));
    }
    assert forall|j: int| 0 <= j < m.groups.len() implies exists|k: int| 0 <= k < a3.items.len() && #[trigger] a3.items[k] == ItemKind::GroupHeader(#[trigger] m.groups[j].id) by {
        assert(a3.seen_groups.contains(m.groups[j].id));
    }
}

proof fn lemma_fold_groups_grows(acc: ItemsAcc, gs: Seq<GroupModel>, vis: spec_fn(u32) -> bool)
    ensures
        acc.seen_windows.subset_of(fold_groups(acc, gs, vis).seen_windows),
    decreases gs.len(),
{
    if gs.len() > 0 {
        lemma_fold_groups_grows(acc, gs.drop_last(), vis);
        let a = fold_groups(acc, gs.drop_last(), vis);
        lemma_add_group_grows(a, gs.last(), vis);
    }
}

proof fn lemma_add_group_grows(acc: ItemsAcc, g: GroupModel, vis: spec_fn(u32) -> bool)
    ensures
        acc.seen_windows.subset_of(add_group(acc, g, vis).seen_windows),
{
    if !acc.seen_groups.contains(g.id) && !g.collapsed {
        let a = ItemsAcc {
            items: acc.items.push(ItemKind::GroupHeader(g.id)),
            seen_groups: acc.seen_groups.insert(g.id),
            ..acc
        };
        lemma_add_members_grows(a, g.members, g.id, vis);
    }
}

proof fn lemma_add_members_grows(acc: ItemsAcc, members: Seq<u32>, gid: u32, vis: spec_fn(u32) -> bool)
    ensures
        acc.seen_windows.subset_of(add_members(acc, members, gid, vis).seen_windows),
    decreases members.len(),
{
    if members.len() > 0 {
        lemma_add_members_grows(acc, members.drop_last(), gid, vis);
    }
}

// ── Restoring the window order ──

/// Each window either claims a saved position holding its key, or sorts
/// after all saved positions at the saved count plus its own index; no saved
/// position is claimed twice.
proof fn lemma_claims_shape(order: Seq<Seq<char>>, keys: Seq<Seq<char>>)
    ensures
        ({
            let cl = claims(order, keys);
            let l = order.len() as int;
            &&& cl.len() == keys.len()
            &&& forall|i: int| 0 <= i < cl.len() ==> ((0 <= #[trigger] cl[i] < l && order[cl[i]] == keys[i]) || cl[i] == l + i)
            &&& forall|i: int, j: int| 0 <= i < j < cl.len() && #[trigger] cl[i] < l ==> cl[i] != #[trigger] cl[j]
        }),
    decreases keys.len(),
{
    if keys.len() > 0 {
        let dl = keys.drop_last();
        lemma_claims_shape(order, dl);
        let prev = claims(order, dl);
        let l = order.len() as int;
        let p = free_position(order, prev, keys.last());
        crate::search::lemma_first_index(l, p);
        let cl = claims(order, keys);
        assert forall|i: int| 0 <= i < cl.len() implies ((0 <= #[trigger] cl[i] < l && order[cl[i]] == keys[i]) || cl[i] == l + i) by {
            if i < prev.len() {
                assert(cl[i] == prev[i]);
                assert(keys[i] == dl[i]);
            }
        }
        assert forall|i: int, j: int| 0 <= i < j < cl.len() && #[trigger] cl[i] < l implies cl[i] != #[trigger] cl[j] by {
            assert(cl[i] == prev[i]);
            if j < prev.len() {
                assert(cl[j] == prev[j]);
            } else if cl[j] < l {
                assert(!prev.contains(cl[j]));
                assert(prev[i] == cl[i]);
            }
        }
    }
}

/// The windows taking a saved position below `j` are listed once each, by
/// increasing position.
proof fn lemma_takers_before(cl: Seq<int>, l: int, j: int)
    requires
        0 <= j <= l,
        forall|i: int| 0 <= i < cl.len() ==> 0 <= #[trigger] cl[i],
        forall|a: int, b: int| 0 <= a < b < cl.len() && #[trigger] cl[a] < l ==> cl[a] != #[trigger] cl[b],
    ensures
        ({
            let t = takers_before(cl, j);
            &&& forall|x: int| #[trigger] t.contains(x) <==> (0 <= x < cl.len() && cl[x] < j)
            &&& forall|a: int, b: int| 0 <= a < b < t.len() ==> cl[#[trigger] t[a]] < cl[#[trigger] t[b]]
            &&& forall|a: int| 0 <= a < t.len() ==> 0 <= #[trigger] t[a] < cl.len()
        }),
    decreases j,
{
    if j > 0 {
        lemma_takers_before(cl, l, j - 1);
        let prev = takers_before(cl, j - 1);
        let tk = taker(cl, j - 1);
        lemma_first_match(cl, equals_int(j - 1));
        let t = takers_before(cl, j);
        assert forall|x: int| #[trigger] t.contains(x) <==> (0 <= x < cl.len() && cl[x] < j) by {
            if 0 <= x < cl.len() && cl[x] == j - 1 {
                assert(equals_int(j - 1)(cl[x]));
                if tk != x {
                    if tk < x {
                        assert(cl[tk] != cl[x]);
                    } else {
                        assert(!equals_int(j - 1)(cl[x]));
                    }
                }
                assert(t[t.len() - 1] == x);
            }
            if t.contains(x) && !prev.contains(x) {
                let k = choose|k: int| 0 <= k < t.len() && t[k] == x;
                if k < prev.len() {
                    assert(prev[k] == x);
                }
            }
            if prev.contains(x) {
                let k = choose|k: int| 0 <= k < prev.len() && prev[k] == x;
                assert(t[k] == x);
            }
        }
        assert forall|a: int, b: int| 0 <= a < b < t.len() implies cl[#[trigger] t[a]] < cl[#[trigger] t[b]] by {
            if b < prev.len() {
                assert(t[a] == prev[a] && t[b] == prev[b]);
            } else {
                assert(t[a] == prev[a]);
                assert(prev.contains(prev[a]));
            }
        }
        assert forall|a: int| 0 <= a < t.len() implies 0 <= #[trigger] t[a] < cl.len() by {
            if a < prev.len() {
                assert(t[a] == prev[a]);
            }
        }
    }
}

/// The windows among the first `i` that took no saved position, in order.
proof fn lemma_untaken_before(cl: Seq<int>, l: int, i: int)
    requires
        0 <= i <= cl.len(),
    ensures
        ({
            let u = untaken_before(cl, l, i);
            &&& forall|x: int| #[trigger] u.contains(x) <==> (0 <= x < i && cl[x] >= l)
            &&& forall|a: int, b: int| 0 <= a < b < u.len() ==> #[trigger] u[a] < #[trigger] u[b]
            &&& forall|a: int| 0 <= a < u.len() ==> 0 <= #[trigger] u[a] < i
        }),
    decreases i,
{
    if i > 0 {
        lemma_untaken_before(cl, l, i - 1);
        let prev = untaken_before(cl, l, i - 1);
        let u = untaken_before(cl, l, i);
        assert forall|x: int| #[trigger] u.contains(x) <==> (0 <= x < i && cl[x] >= l) by {
            if x == i - 1 && cl[x] >= l {
                assert(u[u.len() - 1] == x);
            }
            if u.contains(x) && !prev.contains(x) {
                let k = choose|k: int| 0 <= k < u.len() && u[k] == x;
                if k < prev.len() {
                    assert(prev[k] == x);
                }
            }
            if prev.contains(x) {
                let k = choose|k: int| 0 <= k < prev.len() && prev[k] == x;
                assert(u[k] == x);
            }
        }
        assert forall|a: int, b: int| 0 <= a < b < u.len() implies #[trigger] u[a] < #[trigger] u[b] by {
            assert(u[a] == prev[a]);
            if b < prev.len() {
                assert(u[b] == prev[b]);
            }
        }
        assert forall|a: int| 0 <= a < u.len() implies 0 <= #[trigger] u[a] < i by {
            if a < prev.len() {
                assert(u[a] == prev[a]);
            }
        }
    }
}

/// Restoring from a snapshot reorders the windows without losing or
/// repeating any: the new list takes each old window exactly once. Windows
/// that claimed a saved position (one holding their class:instance key) come
/// first, by increasing position; the others follow in their old order.
pub proof fn restore_reorders_windows(m: StateModel, s: SavedModel, renames: Map<u32, Seq<char>>)
    ensures
        ({
            let cl = claims(s.window_order, window_keys(m.windows));
            let l = s.window_order.len() as int;
            let idx = restored_order(cl, l);
            let n = m.windows.len() as int;
            let r = restored(m, s, renames);
            &&& idx.no_duplicates()
            &&& forall|x: int| 0 <= x < n ==> idx.contains(x)
            &&& forall|k: int| 0 <= k < idx.len() ==> 0 <= #[trigger] idx[k] < n
            &&& r.windows == pick(m.windows, idx)
            &&& forall|a: int, b: int| 0 <= a < b < idx.len() && cl[#[trigger] idx[b]] < l ==> cl[#[trigger] idx[a]] < cl[idx[b]]
            &&& forall|a: int, b: int| 0 <= a < b < idx.len() && cl[#[trigger] idx[a]] >= l ==> idx[a] < #[trigger] idx[b] && cl[idx[b]] >= l
        }),
{
    let keys = window_keys(m.windows);
    let cl = claims(s.window_order, keys);
    let l = s.window_order.len() as int;
    let n = m.windows.len() as int;
    lemma_claims_shape(s.window_order, keys);
    assert forall|i: int| 0 <= i < cl.len() implies 0 <= #[trigger] cl[i] by {
        assert((0 <= cl[i] < l && s.window_order[cl[i]] == keys[i]) || cl[i] == l + i);
    }
    lemma_takers_before(cl, l, l);
    lemma_untaken_before(cl, l, n);
    let t = takers_before(cl, l);
    let u = untaken_before(cl, l, n);
    let idx = restored_order(cl, l);
    assert(idx == t + u);
    assert forall|a: int, b: int| 0 <= a < idx.len() && 0 <= b < idx.len() && a != b implies idx[a] != idx[b] by {
        if a < t.len() && b < t.len() {
            if a < b {
                assert(cl[t[a]] < cl[t[b]]);
            } else {
                assert(cl[t[b]] < cl[t[a]]);
            }
        } else if a >= t.len() && b >= t.len() {
            if a < b {
                assert(u[a - t.len()] < u[b - t.len()]);
            } else {
                assert(u[b - t.len()] < u[a - t.len()]);
            }
        } else if a < t.len() {
            assert(t.contains(t[a]));
            assert(u.contains(u[b - t.len()]));
        } else {
            assert(t.contains(t[b]));
            assert(u.contains(u[a - t.len()]));
        }
    }
    assert forall|x: int| 0 <= x < n implies idx.contains(x) by {
        if cl[x] < l {
            assert(t.contains(x));
            let k = choose|k: int| 0 <= k < t.len() && t[k] == x;
            assert(idx[k] == x);
        } else {
            assert(u.contains(x));
            let k = choose|k: int| 0 <= k < u.len() && u[k] == x;
            assert(idx[t.len() + k] == x);
        }
    }
    assert forall|k: int| 0 <= k < idx.len() implies 0 <= #[trigger] idx[k] < n by {
        if k >= t.len() {
            assert(idx[k] == u[k - t.len()]);
        }
    }
    assert forall|a: int, b: int| 0 <= a < b < idx.len() && cl[#[trigger] idx[b]] < l implies cl[#[trigger] idx[a]] < cl[idx[b]] by {
        if b >= t.len() {
            assert(u.contains(idx[b]));
        } else {
            assert(idx[a] == t[a] && idx[b] == t[b]);
        }
    }
    assert forall|a: int, b: int| 0 <= a < b < idx.len() && cl[#[trigger] idx[a]] >= l implies idx[a] < #[trigger] idx[b] && cl[idx[b]] >= l by {
        if a < t.len() {
            assert(t.contains(idx[a]));
        } else {
            assert(idx[a] == u[a - t.len()] && idx[b] == u[b - t.len()]);
            assert(u.contains(u[b - t.len()]));
        }
    }
}

// ── Restoring groups ──

proof fn lemma_take_members_in_range(nk: Seq<Seq<char>>, used: Set<int>, keys: Seq<Seq<char>>)
    ensures
        forall|a: int| 0 <= a < take_members(nk, used, keys).0.len() ==> 0 <= #[trigger] take_members(nk, used, keys).0[a] < nk.len(),
    decreases keys.len(),
{
    if keys.len() > 0 {
        let prev = take_members(nk, used, keys.drop_last());
        lemma_take_members_in_range(nk, used, keys.drop_last());
        crate::search::lemma_first_index(nk.len() as int, free_window(nk, prev.1, keys.last()));
        let r = take_members(nk, used, keys);
        assert forall|a: int| 0 <= a < r.0.len() implies 0 <= #[trigger] r.0[a] < nk.len() by {
            if a < prev.0.len() {
                assert(r.0[a] == prev.0[a]);
            }
        }
    }
}

proof fn lemma_rebuild_groups(nk: Seq<Seq<char>>, nid: Seq<u32>, used: Set<int>, sgs: Seq<SavedGroupModel>)
    requires
        nk.len() == nid.len(),
    ensures
        ({
            let gs = rebuild_groups(nk, nid, used, sgs).0;
            &&& gs.len() == sgs.len()
            &&& forall|k: int| 0 <= k < gs.len() ==> {
                &&& (#[trigger] gs[k]).id == sgs[k].id
                &&& gs[k].name == sgs[k].name
                &&& gs[k].collapsed == sgs[k].collapsed
                &&& forall|w: u32| gs[k].members.contains(w) ==> nid.contains(w)
            }
        }),
    decreases sgs.len(),
{
    if sgs.len() > 0 {
        let dl = sgs.drop_last();
        lemma_rebuild_groups(nk, nid, used, dl);
        let prev = rebuild_groups(nk, nid, used, dl);
        let sg = sgs.last();
        let t = take_members(nk, prev.1, sg.members);
        lemma_take_members_in_range(nk, prev.1, sg.members);
        let gs = rebuild_groups(nk, nid, used, sgs).0;
        assert forall|k: int| 0 <= k < gs.len() implies {
            &&& (#[trigger] gs[k]).id == sgs[k].id
            &&& gs[k].name == sgs[k].name
            &&& gs[k].collapsed == sgs[k].collapsed
            &&& forall|w: u32| gs[k].members.contains(w) ==> nid.contains(w)
        } by {
            if k < dl.len() {
                assert(gs[k] == prev.0[k]);
                assert(sgs[k] == dl[k]);
            } else {
                assert forall|w: u32| gs[k].members.contains(w) implies nid.contains(w) by {
                    let a = choose|a: int| 0 <= a < gs[k].members.len() && gs[k].members[a] == w;
                    assert(gs[k].members[a] == nid[t.0[a]]);
                }
            }
        }
    }
}

/// Restoring rebuilds the saved groups in saved order, each with its saved
/// id, name and collapsed flag, and with members that are all current
/// windows; the group counter becomes the saved one, or one when that is 0.
pub proof fn restore_rebuilds_saved_groups(m: StateModel, s: SavedModel, renames: Map<u32, Seq<char>>)
    ensures
        ({
            let r = restored(m, s, renames);
            &&& r.groups.len() == s.groups.len()
            &&& forall|k: int| 0 <= k < r.groups.len() ==> {
                &&& (#[trigger] r.groups[k]).id == s.groups[k].id
                &&& r.groups[k].name == s.groups[k].name
                &&& r.groups[k].collapsed == s.groups[k].collapsed
                &&& forall|w: u32| r.groups[k].members.contains(w) ==> present(m.windows, w)
            }
            &&& r.next_group_id == if s.next_group_id >= 1 { s.next_group_id } else { 1 }
            &&& r.active == m.active
        }),
{
    let r = restored(m, s, renames);
    let ws = r.windows;
    lemma_rebuild_groups(window_keys(ws), window_ids(ws), Set::empty(), s.groups);
    restore_reorders_windows(m, s, renames);
    let cl = claims(s.window_order, window_keys(m.windows));
    let idx = restored_order(cl, s.window_order.len() as int);
    assert forall|k: int, w: u32| 0 <= k < r.groups.len() && #[trigger] r.groups[k].members.contains(w) implies present(m.windows, w) by {
        assert(window_ids(ws).contains(w));
        let p = choose|p: int| 0 <= p < window_ids(ws).len() && window_ids(ws)[p] == w;
        let i = idx[p];
        assert(ws[p] == m.windows[i]);
        assert(has_wid(w)(m.windows[i]));
        lemma_any_match_first(m.windows, has_wid(w));
        lemma_first_match(m.windows, has_wid(w));
    }
}

// ── Drag and drop ──

/// A drop only rearranges: the tracked windows, the active window and the
/// group counter stay.
spec fn keeps_windows(m: PanelModel, x: PanelModel) -> bool {
    x.items == m.items && x.active_wid == m.active_wid && x.next_group_id == m.next_group_id
}

proof fn lemma_slot_moved_keeps(m: PanelModel, t: PanelSlot, gap: int)
    ensures
        keeps_windows(m, with_rows(crate::panel::with_slot_moved(m, t, gap))),
{
}

proof fn lemma_dropped_on_header_keeps(m: PanelModel, wid: u32, src: Option<u32>, t: u32)
    ensures
        keeps_windows(m, with_rows(crate::panel::dropped_on_header(m, wid, src, t))),
{
}

proof fn lemma_member_moved_keeps(m: PanelModel, g: u32, wid: u32, gap: int)
    ensures
        keeps_windows(m, with_rows(crate::panel::with_member_moved(m, g, wid, gap))),
{
}

proof fn lemma_dropped_off_group_keeps(m: PanelModel, g: u32, wid: u32, gap: int)
    ensures
        keeps_windows(m, with_rows(crate::panel::dropped_off_group(m, g, wid, gap))),
{
}

/// A drop only rearranges: the tracked windows, the active window and the
/// group counter stay.
#[verifier::rlimit(100)]
pub proof fn drop_only_rearranges(m: PanelModel, source_row: int, y: int)
    ensures
        ({
            let r = crate::panel::dropped(m, source_row, y);
            &&& r.items == m.items
            &&& r.active_wid == m.active_wid
            &&& r.next_group_id == m.next_group_id
        }),
{
    if 0 <= source_row < m.rows.len() {
        let gap = crate::panel::gap_at(m.rows.len() as int, y);
        match m.rows[source_row] {
            DisplayRow::GroupHeader { group_id } => {
                lemma_slot_moved_keeps(m, PanelSlot::Group(group_id), gap);
            },
            DisplayRow::Window { wid, group_id: src } => {
                match crate::panel::header_under(m, y) {
                    Some(t) => {
                        lemma_dropped_on_header_keeps(m, wid, src, t);
                    },
                    None => {
                        match src {
                            Some(g) => {
                                lemma_member_moved_keeps(m, g, wid, gap);
                                lemma_dropped_off_group_keeps(m, g, wid, gap);
                            },
                            None => {
                                lemma_slot_moved_keeps(m, PanelSlot::Window(wid), gap);
                            },
                        }
                    },
                }
            },
        }
    }
}

// ── Where grouped items sit ──

/// The group a grouped item belongs to.
pub open spec fn item_group(it: ItemKind) -> Option<u32> {
    match it {
        ItemKind::GroupedWindow(_, g) => Some(g),
        _ => None,
    }
}

/// Each grouped item directly follows its group's header or another item of
/// the same group.
pub open spec fn grouped_follow_header(items: Seq<ItemKind>) -> bool {
    forall|k: int|
        0 <= k < items.len() && (#[trigger] item_group(items[k])) is Some ==> k > 0 && (items[k - 1]
            == ItemKind::GroupHeader(item_group(items[k])->0) || item_group(items[k - 1]) == item_group(items[k]))
}

/// The last item is the header of `gid` or an item of group `gid`.
spec fn ends_in_group(items: Seq<ItemKind>, gid: u32) -> bool {
    items.len() > 0 && (items.last() == ItemKind::GroupHeader(gid) || item_group(items.last()) == Some(gid))
}

proof fn lemma_push_non_grouped(items: Seq<ItemKind>, it: ItemKind)
    requires
        grouped_follow_header(items),
        item_group(it) is None,
    ensures
        grouped_follow_header(items.push(it)),
{
    let r = items.push(it);
    assert forall|k: int| 0 <= k < r.len() && (#[trigger] item_group(r[k])) is Some implies k > 0 && (r[k - 1]
        == ItemKind::GroupHeader(item_group(r[k])->0) || item_group(r[k - 1]) == item_group(r[k])) by {
        assert(r[k] == items[k]);
        assert(item_group(items[k]) is Some);
        assert(r[k - 1] == items[k - 1]);
    }
}

proof fn lemma_members_follow(acc: ItemsAcc, members: Seq<u32>, gid: u32, vis: spec_fn(u32) -> bool)
    requires
        grouped_follow_header(acc.items),
        ends_in_group(acc.items, gid),
    ensures
        grouped_follow_header(add_members(acc, members, gid, vis).items),
        ends_in_group(add_members(acc, members, gid, vis).items, gid),
    decreases members.len(),
{
    if members.len() > 0 {
        lemma_members_follow(acc, members.drop_last(), gid, vis);
        let a = add_members(acc, members.drop_last(), gid, vis);
        let w = members.last();
        if vis(w) && !a.seen_windows.contains(w) {
            let r = a.items.push(ItemKind::GroupedWindow(w, gid));
            assert forall|k: int| 0 <= k < r.len() && (#[trigger] item_group(r[k])) is Some implies k > 0 && (r[k - 1]
                == ItemKind::GroupHeader(item_group(r[k])->0) || item_group(r[k - 1]) == item_group(r[k])) by {
                if k < a.items.len() {
                    assert(r[k] == a.items[k]);
                    assert(item_group(a.items[k]) is Some);
                    assert(r[k - 1] == a.items[k - 1]);
                } else {
                    assert(r[k - 1] == a.items.last());
                }
            }
        }
    }
}

proof fn lemma_group_follow(acc: ItemsAcc, g: GroupModel, vis: spec_fn(u32) -> bool)
    requires
        grouped_follow_header(acc.items),
    ensures
        grouped_follow_header(add_group(acc, g, vis).items),
{
    if !acc.seen_groups.contains(g.id) {
        lemma_push_non_grouped(acc.items, ItemKind::GroupHeader(g.id));
        let a = ItemsAcc {
            items: acc.items.push(ItemKind::GroupHeader(g.id)),
            seen_groups: acc.seen_groups.insert(g.id),
            ..acc
        };
        if !g.collapsed {
            lemma_members_follow(a, g.members, g.id, vis);
        }
    }
}

proof fn lemma_window_follow(acc: ItemsAcc, wid: u32, vis: spec_fn(u32) -> bool, grp: spec_fn(u32) -> bool)
    requires
        grouped_follow_header(acc.items),
    ensures
        grouped_follow_header(add_window(acc, wid, vis, grp).items),
{
    if vis(wid) && !grp(wid) && !acc.seen_windows.contains(wid) {
        lemma_push_non_grouped(acc.items, ItemKind::UngroupedWindow(wid));
    }
}

proof fn lemma_slots_follow(m: StateModel, acc: ItemsAcc, slots: Seq<DisplaySlot>, vis: spec_fn(u32) -> bool, grp: spec_fn(u32) -> bool)
    requires
        grouped_follow_header(acc.items),
    ensures
        grouped_follow_header(fold_slots(m, acc, slots, vis, grp).items),
    decreases slots.len(),
{
    if slots.len() > 0 {
        lemma_slots_follow(m, acc, slots.drop_last(), vis, grp);
        let a = fold_slots(m, acc, slots.drop_last(), vis, grp);
        match slots.last() {
            DisplaySlot::Window(w) => lemma_window_follow(a, w, vis, grp),
            DisplaySlot::Group(g) => {
                let p = crate::state::group_pos(m, g);
                if p >= 0 {
                    lemma_group_follow(a, m.groups[p], vis);
                }
            },
        }
    }
}

proof fn lemma_windows_follow(acc: ItemsAcc, ws: Seq<WindowModel>, vis: spec_fn(u32) -> bool, grp: spec_fn(u32) -> bool)
    requires
        grouped_follow_header(acc.items),
    ensures
        grouped_follow_header(fold_windows(acc, ws, vis, grp).items),
    decreases ws.len(),
{
    if ws.len() > 0 {
        lemma_windows_follow(acc, ws.drop_last(), vis, grp);
        lemma_window_follow(fold_windows(acc, ws.drop_last(), vis, grp), ws.last().id, vis, grp);
    }
}

proof fn lemma_groups_follow(acc: ItemsAcc, gs: Seq<GroupModel>, vis: spec_fn(u32) -> bool)
    requires
        grouped_follow_header(acc.items),
    ensures
        grouped_follow_header(fold_groups(acc, gs, vis).items),
    decreases gs.len(),
{
    if gs.len() > 0 {
        lemma_groups_follow(acc, gs.drop_last(), vis);
        lemma_group_follow(fold_groups(acc, gs.drop_last(), vis), gs.last(), vis);
    }
}

/// Grouped items sit under their header: each one directly follows the
/// header of its group or another item of the same group; so from a grouped
/// item back to its group's header there are only items of that group.
pub proof fn display_items_keep_members_under_their_header(m: StateModel, lowered: Seq<Seq<char>>)
    ensures
        grouped_follow_header(display_items_of(m, lowered)),
        forall|k: int|
            0 <= k < display_items_of(m, lowered).len() && (#[trigger] item_group(display_items_of(m, lowered)[k])) is Some
                ==> exists|j: int|
                0 <= j < k && #[trigger] display_items_of(m, lowered)[j] == ItemKind::GroupHeader(
                    item_group(display_items_of(m, lowered)[k])->0,
                ) && forall|i: int| j < i <= k ==> #[trigger] item_group(display_items_of(m, lowered)[i])
                    == item_group(display_items_of(m, lowered)[k]),
{
    let vis = visible_in(m, lowered);
    let grp = grouped_in(m.groups);
    lemma_slots_follow(m, no_items(), m.display_order, vis, grp);
    let a1 = fold_slots(m, no_items(), m.display_order, vis, grp);
    lemma_windows_follow(a1, m.windows, vis, grp);
    let a2 = fold_windows(a1, m.windows, vis, grp);
    lemma_groups_follow(a2, m.groups, vis);
    let items = display_items_of(m, lowered);
    assert forall|k: int|
        0 <= k < items.len() && (#[trigger] item_group(items[k])) is Some implies exists|j: int|
        0 <= j < k && #[trigger] items[j] == ItemKind::GroupHeader(item_group(items[k])->0) && forall|i: int|
            j < i <= k ==> #[trigger] item_group(items[i]) == item_group(items[k]) by {
        lemma_run_back_to_header(items, k);
    }
}

proof fn lemma_run_back_to_header(items: Seq<ItemKind>, k: int)
    requires
        grouped_follow_header(items),
        0 <= k < items.len(),
        item_group(items[k]) is Some,
    ensures
        exists|j: int|
            0 <= j < k && #[trigger] items[j] == ItemKind::GroupHeader(item_group(items[k])->0) && forall|i: int|
                j < i <= k ==> #[trigger] item_group(items[i]) == item_group(items[k]),
    decreases k,
{
    let g = item_group(items[k])->0;
    if items[k - 1] == ItemKind::GroupHeader(g) {
        assert forall|i: int| k - 1 < i <= k implies #[trigger] item_group(items[i]) == item_group(items[k]) by {
            assert(i == k);
        }
    } else {
        lemma_run_back_to_header(items, k - 1);
        let j = choose|j: int|
            0 <= j < k - 1 && #[trigger] items[j] == ItemKind::GroupHeader(item_group(items[k - 1])->0) && forall|i: int|
                j < i <= k - 1 ==> #[trigger] item_group(items[i]) == item_group(items[k - 1]);
        assert forall|i: int| j < i <= k implies #[trigger] item_group(items[i]) == item_group(items[k]) by {
            if i < k {
                assert(item_group(items[i]) == item_group(items[k - 1]));
            }
        }
    }
}

// ── Expanded groups list their visible members ──

/// Group ids are distinct, and no window is listed twice among all members.
pub open spec fn groups_well_formed(gs: Seq<GroupModel>) -> bool {
    &&& forall|p: int, q: int| 0 <= p < q < gs.len() ==> #[trigger] gs[p].id != #[trigger] gs[q].id
    &&& forall|p: int, q: int, w: u32|
        0 <= p < gs.len() && 0 <= q < gs.len() && #[trigger] gs[p].members.contains(w) && #[trigger] gs[q].members.contains(w) ==> p == q
    &&& forall|p: int| 0 <= p < gs.len() ==> (#[trigger] gs[p]).members.no_duplicates()
}

pub open spec fn grouped_item(gid: u32) -> spec_fn(u32) -> ItemKind {
    |w: u32| ItemKind::GroupedWindow(w, gid)
}

/// The items a group's header is followed by: its visible members, in
/// member order.
pub open spec fn member_run(g: GroupModel, vis: spec_fn(u32) -> bool) -> Seq<ItemKind> {
    g.members.filter(vis).map_values(grouped_item(g.id))
}

/// The group's header is listed, directly followed by its member run.
pub open spec fn run_listed(items: Seq<ItemKind>, g: GroupModel, vis: spec_fn(u32) -> bool) -> bool {
    exists|j: int|
        0 <= j && j + 1 + member_run(g, vis).len() <= items.len() && #[trigger] items[j] == ItemKind::GroupHeader(g.id)
            && items.subrange(j + 1, j + 1 + member_run(g, vis).len()) == member_run(g, vis)
}

/// A seen window that is a group member belongs to a seen group; every seen,
/// expanded group has its run listed.
spec fn runs_ok(acc: ItemsAcc, gs: Seq<GroupModel>, vis: spec_fn(u32) -> bool) -> bool {
    &&& forall|p: int, w: u32|
        0 <= p < gs.len() && #[trigger] gs[p].members.contains(w) && #[trigger] acc.seen_windows.contains(w)
            ==> acc.seen_groups.contains(gs[p].id)
    &&& forall|p: int|
        0 <= p < gs.len() && !gs[p].collapsed && #[trigger] acc.seen_groups.contains(gs[p].id) ==> run_listed(
            acc.items,
            gs[p],
            vis,
        )
}

proof fn lemma_run_extends(items: Seq<ItemKind>, more: Seq<ItemKind>, g: GroupModel, vis: spec_fn(u32) -> bool)
    requires
        run_listed(items, g, vis),
    ensures
        run_listed(items + more, g, vis),
{
    let r = member_run(g, vis);
    let j = choose|j: int|
        0 <= j && j + 1 + r.len() <= items.len() && #[trigger] items[j] == ItemKind::GroupHeader(g.id)
            && items.subrange(j + 1, j + 1 + r.len()) == r;
    let b = items + more;
    assert(b[j] == items[j]);
    assert(b.subrange(j + 1, j + 1 + r.len()) =~= items.subrange(j + 1, j + 1 + r.len()));
}

proof fn lemma_runs_extend(acc: ItemsAcc, b: ItemsAcc, gs: Seq<GroupModel>, vis: spec_fn(u32) -> bool)
    requires
        runs_ok(acc, gs, vis),
        b.items.len() >= acc.items.len(),
        b.items.take(acc.items.len() as int) == acc.items,
        b.seen_groups == acc.seen_groups,
        forall|w: u32| #[trigger] b.seen_windows.contains(w) ==> acc.seen_windows.contains(w),
    ensures
        runs_ok(b, gs, vis),
{
    assert(b.items =~= acc.items + b.items.skip(acc.items.len() as int));
    assert forall|p: int|
        0 <= p < gs.len() && !gs[p].collapsed && #[trigger] b.seen_groups.contains(gs[p].id) implies run_listed(
        b.items,
        gs[p],
        vis,
    ) by {
        lemma_run_extends(acc.items, b.items.skip(acc.items.len() as int), gs[p], vis);
    }
}

proof fn lemma_add_members_run(acc: ItemsAcc, members: Seq<u32>, gid: u32, vis: spec_fn(u32) -> bool)
    requires
        members.no_duplicates(),
        forall|w: u32| #[trigger] members.contains(w) ==> !acc.seen_windows.contains(w),
    ensures
        add_members(acc, members, gid, vis).items == acc.items + members.filter(vis).map_values(grouped_item(gid)),
        add_members(acc, members, gid, vis).seen_groups == acc.seen_groups,
        forall|w: u32| #[trigger] add_members(acc, members, gid, vis).seen_windows.contains(w) ==> acc.seen_windows.contains(w) || members.contains(w),
    decreases members.len(),
{
    if members.len() == 0 {
        assert(members.filter(vis) =~= Seq::<u32>::empty());
        assert(acc.items + Seq::<ItemKind>::empty() =~= acc.items);
    } else {
        let dl = members.drop_last();
        let w = members.last();
        assert forall|x: u32| #[trigger] dl.contains(x) implies !acc.seen_windows.contains(x) by {
            let i = choose|i: int| 0 <= i < dl.len() && dl[i] == x;
            assert(members[i] == x);
            assert(members.contains(x));
        }
        assert(dl.no_duplicates()) by {
            assert forall|i: int, j: int| 0 <= i < dl.len() && 0 <= j < dl.len() && i != j implies dl[i] != dl[j] by {
                assert(dl[i] == members[i] && dl[j] == members[j]);
            }
        }
        lemma_add_members_run(acc, dl, gid, vis);
        let a = add_members(acc, dl, gid, vis);
        assert(members.contains(w)) by {
            assert(members[members.len() - 1] == w);
        }
        assert(!dl.contains(w)) by {
            if dl.contains(w) {
                let i = choose|i: int| 0 <= i < dl.len() && dl[i] == w;
                assert(members[i] == members[members.len() - 1]);
            }
        }
        assert(!a.seen_windows.contains(w));
        assert(members =~= dl.push(w));
        dl.lemma_filter_push(w, vis);
        lemma_map_values_push(dl.filter(vis), w, grouped_item(gid));
        let r = add_members(acc, members, gid, vis);
        if vis(w) {
            assert(r.items =~= acc.items + members.filter(vis).map_values(grouped_item(gid)));
        }
        assert forall|x: u32| #[trigger] r.seen_windows.contains(x) implies acc.seen_windows.contains(x) || members.contains(x) by {
            if a.seen_windows.contains(x) && dl.contains(x) {
                let i = choose|i: int| 0 <= i < dl.len() && dl[i] == x;
                assert(members[i] == x);
            }
        }
    }
}

proof fn lemma_add_group_runs(acc: ItemsAcc, gs: Seq<GroupModel>, p: int, vis: spec_fn(u32) -> bool)
    requires
        groups_well_formed(gs),
        0 <= p < gs.len(),
        runs_ok(acc, gs, vis),
    ensures
        runs_ok(add_group(acc, gs[p], vis), gs, vis),
        add_group(acc, gs[p], vis).seen_groups.contains(gs[p].id),
{
    let g = gs[p];
    if !acc.seen_groups.contains(g.id) {
        assert forall|w: u32| #[trigger] g.members.contains(w) implies !acc.seen_windows.contains(w) by {
            if acc.seen_windows.contains(w) {
                assert(gs[p].members.contains(w));
            }
        }
        let a = ItemsAcc {
            items: acc.items.push(ItemKind::GroupHeader(g.id)),
            seen_groups: acc.seen_groups.insert(g.id),
            ..acc
        };
        let r = add_group(acc, g, vis);
        let n = acc.items.len() as int;
        let run = member_run(g, vis);
        if g.collapsed {
            assert(r == a);
        } else {
            lemma_add_members_run(a, g.members, g.id, vis);
            assert(r.items == a.items + run);
        }
        assert(r.items.len() >= n + 1);
        assert(r.items.take(n) =~= acc.items);
        assert(r.items[n] == ItemKind::GroupHeader(g.id));
        assert forall|q: int|
            0 <= q < gs.len() && !gs[q].collapsed && #[trigger] r.seen_groups.contains(gs[q].id) implies run_listed(
            r.items,
            gs[q],
            vis,
        ) by {
            if q == p {
                assert(r.items.subrange(n + 1, n + 1 + run.len()) =~= run);
            } else {
                assert(gs[q].id != gs[p].id);
                assert(acc.seen_groups.contains(gs[q].id));
                assert(r.items =~= acc.items + r.items.skip(n));
                lemma_run_extends(acc.items, r.items.skip(n), gs[q], vis);
            }
        }
        assert forall|q: int, w: u32|
            0 <= q < gs.len() && #[trigger] gs[q].members.contains(w) && #[trigger] r.seen_windows.contains(w) implies r.seen_groups.contains(gs[q].id) by {
            if !acc.seen_windows.contains(w) {
                if !g.collapsed {
                    assert(g.members.contains(w));
                    assert(gs[p].members.contains(w));
                    assert(q == p);
                }
            }
        }
    }
}

proof fn lemma_add_window_runs(acc: ItemsAcc, wid: u32, vis: spec_fn(u32) -> bool, gs: Seq<GroupModel>)
    requires
        runs_ok(acc, gs, vis),
    ensures
        runs_ok(add_window(acc, wid, vis, grouped_in(gs)), gs, vis),
{
    let grp = grouped_in(gs);
    if vis(wid) && !grp(wid) && !acc.seen_windows.contains(wid) {
        let r = add_window(acc, wid, vis, grp);
        assert(r.items =~= acc.items + seq![ItemKind::UngroupedWindow(wid)]);
        assert forall|p: int|
            0 <= p < gs.len() && !gs[p].collapsed && #[trigger] r.seen_groups.contains(gs[p].id) implies run_listed(
            r.items,
            gs[p],
            vis,
        ) by {
            lemma_run_extends(acc.items, seq![ItemKind::UngroupedWindow(wid)], gs[p], vis);
        }
        assert forall|p: int, w: u32|
            0 <= p < gs.len() && #[trigger] gs[p].members.contains(w) && #[trigger] r.seen_windows.contains(w) implies r.seen_groups.contains(gs[p].id) by {
            if w == wid {
                assert(has_member(w)(gs[p]));
                crate::search::lemma_any_match_first(gs, has_member(w));
            }
        }
    }
}

proof fn lemma_slots_runs(m: StateModel, acc: ItemsAcc, slots: Seq<DisplaySlot>, vis: spec_fn(u32) -> bool)
    requires
        groups_well_formed(m.groups),
        runs_ok(acc, m.groups, vis),
    ensures
        runs_ok(fold_slots(m, acc, slots, vis, grouped_in(m.groups)), m.groups, vis),
    decreases slots.len(),
{
    if slots.len() > 0 {
        lemma_slots_runs(m, acc, slots.drop_last(), vis);
        let a = fold_slots(m, acc, slots.drop_last(), vis, grouped_in(m.groups));
        match slots.last() {
            DisplaySlot::Window(w) => lemma_add_window_runs(a, w, vis, m.groups),
            DisplaySlot::Group(g) => {
                let p = crate::state::group_pos(m, g);
                lemma_first_match(m.groups, crate::state::has_gid(g));
                if p >= 0 {
                    lemma_add_group_runs(a, m.groups, p, vis);
                }
            },
        }
    }
}

proof fn lemma_windows_runs(acc: ItemsAcc, ws: Seq<WindowModel>, vis: spec_fn(u32) -> bool, gs: Seq<GroupModel>)
    requires
        runs_ok(acc, gs, vis),
    ensures
        runs_ok(fold_windows(acc, ws, vis, grouped_in(gs)), gs, vis),
    decreases ws.len(),
{
    if ws.len() > 0 {
        lemma_windows_runs(acc, ws.drop_last(), vis, gs);
        lemma_add_window_runs(fold_windows(acc, ws.drop_last(), vis, grouped_in(gs)), ws.last().id, vis, gs);
    }
}

proof fn lemma_groups_runs(acc: ItemsAcc, gs: Seq<GroupModel>, n: int, vis: spec_fn(u32) -> bool)
    requires
        groups_well_formed(gs),
        0 <= n <= gs.len(),
        runs_ok(acc, gs, vis),
    ensures
        runs_ok(fold_groups(acc, gs.take(n), vis), gs, vis),
    decreases n,
{
    if n > 0 {
        lemma_groups_runs(acc, gs, n - 1, vis);
        assert(gs.take(n).drop_last() =~= gs.take(n - 1));
        assert(gs.take(n).last() == gs[n - 1]);
        lemma_add_group_runs(fold_groups(acc, gs.take(n - 1), vis), gs, n - 1, vis);
    }
}

/// With distinct group ids and no window listed twice among the members,
/// each expanded group's header is directly followed by its visible members,
/// all of them and in member order.
pub proof fn display_items_list_expanded_groups_in_member_order(m: StateModel, lowered: Seq<Seq<char>>)
    requires
        groups_well_formed(m.groups),
    ensures
        forall|p: int|
            0 <= p < m.groups.len() && !(#[trigger] m.groups[p]).collapsed ==> run_listed(
                display_items_of(m, lowered),
                m.groups[p],
                visible_in(m, lowered),
            ),
{
    let vis = visible_in(m, lowered);
    let grp = grouped_in(m.groups);
    assert(runs_ok(no_items(), m.groups, vis));
    lemma_slots_runs(m, no_items(), m.display_order, vis);
    let a1 = fold_slots(m, no_items(), m.display_order, vis, grp);
    lemma_windows_runs(a1, m.windows, vis, m.groups);
    let a2 = fold_windows(a1, m.windows, vis, grp);
    lemma_groups_runs(a2, m.groups, m.groups.len() as int, vis);
    assert(m.groups.take(m.groups.len() as int) =~= m.groups);
    assert(acc_covers(no_items(), grp));
    lemma_fold_slots_covers(m, no_items(), m.display_order, vis, grp);
    lemma_fold_windows_covers(a1, m.windows, vis, grp);
    lemma_fold_groups_covers(a2, m.groups, vis, grp);
    let a3 = fold_groups(a2, m.groups, vis);
    assert forall|p: int| 0 <= p < m.groups.len() && !(#[trigger] m.groups[p]).collapsed implies run_listed(
        a3.items,
        m.groups[p],
        vis,
    ) by {
        assert(a3.seen_groups.contains(m.groups[p].id));
    }
}

// ── No window in two restored groups ──

/// The window positions each rebuilt group took, group by group.
pub open spec fn group_positions(nk: Seq<Seq<char>>, nid: Seq<u32>, used: Set<int>, sgs: Seq<SavedGroupModel>) -> Seq<Seq<int>>
    decreases sgs.len(),
{
    if sgs.len() == 0 {
        seq![]
    } else {
        let prev = rebuild_groups(nk, nid, used, sgs.drop_last());
        group_positions(nk, nid, used, sgs.drop_last()).push(take_members(nk, prev.1, sgs.last().members).0)
    }
}

proof fn lemma_take_members_props(nk: Seq<Seq<char>>, used: Set<int>, keys: Seq<Seq<char>>)
    ensures
        ({
            let (ps, u2) = take_members(nk, used, keys);
            &&& forall|a: int| 0 <= a < ps.len() ==> 0 <= #[trigger] ps[a] < nk.len() && !used.contains(ps[a])
            &&& ps.no_duplicates()
            &&& forall|x: int| #[trigger] u2.contains(x) <==> (used.contains(x) || ps.contains(x))
        }),
    decreases keys.len(),
{
    if keys.len() > 0 {
        let dl = keys.drop_last();
        lemma_take_members_props(nk, used, dl);
        let prev = take_members(nk, used, dl);
        let j = take_window(nk, prev.1, keys.last());
        crate::search::lemma_first_index(nk.len() as int, free_window(nk, prev.1, keys.last()));
        if j >= 0 {
            let ps = prev.0.push(j);
            assert(!prev.0.contains(j));
            assert forall|a: int| 0 <= a < ps.len() implies 0 <= #[trigger] ps[a] < nk.len() && !used.contains(ps[a]) by {
                if a < prev.0.len() {
                    assert(ps[a] == prev.0[a]);
                }
            }
            assert forall|a: int, b: int| 0 <= a < ps.len() && 0 <= b < ps.len() && a != b implies ps[a] != ps[b] by {
                if a == prev.0.len() {
                    assert(prev.0.contains(ps[b]) || b == a);
                    assert(ps[b] == prev.0[b]);
                } else if b == prev.0.len() {
                    assert(ps[a] == prev.0[a]);
                    assert(prev.0.contains(ps[a]));
                } else {
                    assert(ps[a] == prev.0[a] && ps[b] == prev.0[b]);
                }
            }
            assert forall|x: int| #[trigger] prev.1.insert(j).contains(x) <==> (used.contains(x) || ps.contains(x)) by {
                if prev.0.contains(x) {
                    let i = choose|i: int| 0 <= i < prev.0.len() && prev.0[i] == x;
                    assert(ps[i] == x);
                }
                if ps.contains(x) && x != j {
                    let i = choose|i: int| 0 <= i < ps.len() && ps[i] == x;
                    assert(prev.0[i] == x);
                }
                if x == j {
                    assert(ps[ps.len() - 1] == j);
                }
            }
        }
    }
}

/// Each rebuilt group holds the windows at its taken positions; positions
/// lie among the windows, are taken at most once over all groups, and are
/// all in the final taken set.
proof fn lemma_rebuild_positions(nk: Seq<Seq<char>>, nid: Seq<u32>, used: Set<int>, sgs: Seq<SavedGroupModel>)
    requires
        nk.len() == nid.len(),
    ensures
        ({
            let (gs, u2) = rebuild_groups(nk, nid, used, sgs);
            let ps = group_positions(nk, nid, used, sgs);
            &&& ps.len() == gs.len() == sgs.len()
            &&& forall|k: int| 0 <= k < gs.len() ==> (#[trigger] gs[k]).members == ids_at(nid, ps[k])
            &&& forall|k: int, a: int|
                0 <= k < ps.len() && 0 <= a < ps[k].len() ==> 0 <= #[trigger] ps[k][a] < nk.len() && !used.contains(ps[k][a])
                    && u2.contains(ps[k][a])
            &&& forall|k: int, a: int, k2: int, b: int|
                0 <= k < ps.len() && 0 <= a < ps[k].len() && 0 <= k2 < ps.len() && 0 <= b < ps[k2].len()
                    && #[trigger] ps[k][a] == #[trigger] ps[k2][b] ==> k == k2 && a == b
            &&& forall|x: int| #[trigger] u2.contains(x) ==> used.contains(x) || exists|k: int, a: int|
                0 <= k < ps.len() && 0 <= a < ps[k].len() && #[trigger] ps[k][a] == x
            &&& forall|x: int| used.contains(x) ==> #[trigger] u2.contains(x)
        }),
    decreases sgs.len(),
{
    if sgs.len() > 0 {
        let dl = sgs.drop_last();
        lemma_rebuild_positions(nk, nid, used, dl);
        let prev = rebuild_groups(nk, nid, used, dl);
        let pps = group_positions(nk, nid, used, dl);
        let t = take_members(nk, prev.1, sgs.last().members);
        lemma_take_members_props(nk, prev.1, sgs.last().members);
        let (gs, u2) = rebuild_groups(nk, nid, used, sgs);
        let ps = group_positions(nk, nid, used, sgs);
        let n = pps.len() as int;
        assert(ps == pps.push(t.0));
        assert(u2 == t.1);
        assert forall|k: int| 0 <= k < gs.len() implies (#[trigger] gs[k]).members == ids_at(nid, ps[k]) by {
            if k < n {
                assert(gs[k] == prev.0[k]);
            }
        }
        assert forall|k: int, a: int|
            0 <= k < ps.len() && 0 <= a < ps[k].len() implies 0 <= #[trigger] ps[k][a] < nk.len() && !used.contains(ps[k][a])
                && u2.contains(ps[k][a]) by {
            if k < n {
                assert(ps[k] == pps[k]);
                assert(prev.1.contains(pps[k][a]));
            } else {
                assert(t.0.contains(t.0[a]));
                if used.contains(t.0[a]) {
                    assert(prev.1.contains(t.0[a]));
                }
            }
        }
        assert forall|k: int, a: int, k2: int, b: int|
            0 <= k < ps.len() && 0 <= a < ps[k].len() && 0 <= k2 < ps.len() && 0 <= b < ps[k2].len()
                && #[trigger] ps[k][a] == #[trigger] ps[k2][b] implies k == k2 && a == b by {
            if k < n && k2 < n {
                assert(ps[k] == pps[k] && ps[k2] == pps[k2]);
            } else if k < n {
                assert(ps[k] == pps[k]);
                assert(prev.1.contains(pps[k][a]));
            } else if k2 < n {
                assert(ps[k2] == pps[k2]);
                assert(prev.1.contains(pps[k2][b]));
            }
        }
        assert forall|x: int| #[trigger] u2.contains(x) implies used.contains(x) || exists|k: int, a: int|
            0 <= k < ps.len() && 0 <= a < ps[k].len() && #[trigger] ps[k][a] == x by {
            if prev.1.contains(x) {
                if !used.contains(x) {
                    let (k, a) = choose|k: int, a: int| 0 <= k < pps.len() && 0 <= a < pps[k].len() && #[trigger] pps[k][a] == x;
                    assert(ps[k] == pps[k]);
                }
            } else {
                let a = choose|a: int| 0 <= a < t.0.len() && t.0[a] == x;
                assert(ps[n][a] == x);
            }
        }
    }
}

/// With distinct window ids and a saved counter above every saved group id:
/// after restoring, no window is a member of two groups, nor twice of one,
/// and every group id lies below the counter, so the next group created gets
/// an id no restored group has.
pub proof fn restored_groups_share_no_window(m: StateModel, s: SavedModel, renames: Map<u32, Seq<char>>)
    requires
        distinct_ids(m.windows),
        forall|k: int| 0 <= k < s.groups.len() ==> #[trigger] s.groups[k].id < s.next_group_id,
    ensures
        ({
            let r = restored(m, s, renames);
            &&& forall|k: int, a: int, k2: int, b: int|
                0 <= k < r.groups.len() && 0 <= a < r.groups[k].members.len() && 0 <= k2 < r.groups.len() && 0 <= b
                    < r.groups[k2].members.len() && #[trigger] r.groups[k].members[a] == #[trigger] r.groups[k2].members[b]
                    ==> k == k2 && a == b
            &&& ids_below_counter(r)
        }),
{
    let r = restored(m, s, renames);
    restore_reorders_windows(m, s, renames);
    restore_rebuilds_saved_groups(m, s, renames);
    let cl = claims(s.window_order, window_keys(m.windows));
    let idx = restored_order(cl, s.window_order.len() as int);
    let ws = r.windows;
    assert(distinct_ids(ws)) by {
        assert forall|i: int, j: int| 0 <= i < j < ws.len() implies #[trigger] ws[i].id != #[trigger] ws[j].id by {
            assert(ws[i] == m.windows[idx[i]] && ws[j] == m.windows[idx[j]]);
            assert(idx[i] != idx[j]);
            if idx[i] < idx[j] {
                assert(m.windows[idx[i]].id != m.windows[idx[j]].id);
            } else {
                assert(m.windows[idx[j]].id != m.windows[idx[i]].id);
            }
        }
    }
    let nk = window_keys(ws);
    let nid = window_ids(ws);
    lemma_rebuild_positions(nk, nid, Set::empty(), s.groups);
    let ps = group_positions(nk, nid, Set::empty(), s.groups);
    assert forall|k: int, a: int, k2: int, b: int|
        0 <= k < r.groups.len() && 0 <= a < r.groups[k].members.len() && 0 <= k2 < r.groups.len() && 0 <= b
            < r.groups[k2].members.len() && #[trigger] r.groups[k].members[a] == #[trigger] r.groups[k2].members[b]
            implies k == k2 && a == b by {
        assert(r.groups[k].members[a] == nid[ps[k][a]]);
        assert(r.groups[k2].members[b] == nid[ps[k2][b]]);
        let x = ps[k][a];
        let y = ps[k2][b];
        if x != y {
            if x < y {
                assert(ws[x].id != ws[y].id);
            } else {
                assert(ws[y].id != ws[x].id);
            }
        }
    }
    assert forall|k: int| 0 <= k < r.groups.len() implies #[trigger] r.groups[k].id < r.next_group_id by {
        assert(r.groups[k].id == s.groups[k].id);
    }
}

// ── Restored top-level slots ──

proof fn lemma_rebuild_slots_props(
    nk: Seq<Seq<char>>,
    nid: Seq<u32>,
    gs: Seq<GroupModel>,
    used: Set<int>,
    slots: Seq<SavedSlotModel>,
)
    requires
        nk.len() == nid.len(),
        forall|i: int, j: int| 0 <= i < nid.len() && 0 <= j < nid.len() && #[trigger] nid[i] == #[trigger] nid[j] ==> i == j,
    ensures
        ({
            let (os, u2) = rebuild_slots(nk, nid, gs, used, slots);
            &&& forall|k: int| 0 <= k < os.len() ==> match #[trigger] os[k] {
                DisplaySlot::Window(w) => exists|j: int|
                    0 <= j < nk.len() && #[trigger] nid[j] == w && u2.contains(j) && !used.contains(j),
                DisplaySlot::Group(g) => any_match(gs, crate::state::has_gid(g)),
            }
            &&& forall|k: int, k2: int| 0 <= k < k2 < os.len() && (#[trigger] os[k]) is Window ==> os[k] != #[trigger] os[k2]
            &&& forall|x: int| used.contains(x) ==> #[trigger] u2.contains(x)
        }),
    decreases slots.len(),
{
    if slots.len() > 0 {
        let dl = slots.drop_last();
        lemma_rebuild_slots_props(nk, nid, gs, used, dl);
        let prev = rebuild_slots(nk, nid, gs, used, dl);
        let (os, u2) = rebuild_slots(nk, nid, gs, used, slots);
        match slots.last() {
            SavedSlotModel::Window(key) => {
                let j = take_window(nk, prev.1, key);
                crate::search::lemma_first_index(nk.len() as int, free_window(nk, prev.1, key));
                if j >= 0 {
                    let n = prev.0.len() as int;
                    assert forall|k: int| 0 <= k < os.len() implies match #[trigger] os[k] {
                        DisplaySlot::Window(w) => exists|jj: int|
                            0 <= jj < nk.len() && #[trigger] nid[jj] == w && u2.contains(jj) && !used.contains(jj),
                        DisplaySlot::Group(g) => any_match(gs, crate::state::has_gid(g)),
                    } by {
                        if k < n {
                            assert(os[k] == prev.0[k]);
                        } else {
                            assert(nid[j] == nid[j]);
                            if used.contains(j) {
                                assert(prev.1.contains(j));
                            }
                        }
                    }
                    assert forall|k: int, k2: int| 0 <= k < k2 < os.len() && (#[trigger] os[k]) is Window implies os[k] != #[trigger] os[k2] by {
                        assert(os[k] == prev.0[k]);
                        if k2 < n {
                            assert(os[k2] == prev.0[k2]);
                        } else if os[k] == os[k2] {
                            let w = nid[j];
                            assert(prev.0[k] == DisplaySlot::Window(w));
                            let jj = choose|jj: int| 0 <= jj < nk.len() && #[trigger] nid[jj] == w && prev.1.contains(jj) && !used.contains(jj);
                            assert(nid[jj] == nid[j]);
                        }
                    }
                } else {
                    assert(os == prev.0);
                }
            },
            SavedSlotModel::Group(g) => {
                let n = prev.0.len() as int;
                assert forall|k: int| 0 <= k < os.len() implies match #[trigger] os[k] {
                    DisplaySlot::Window(w) => exists|jj: int|
                        0 <= jj < nk.len() && #[trigger] nid[jj] == w && u2.contains(jj) && !used.contains(jj),
                    DisplaySlot::Group(g) => any_match(gs, crate::state::has_gid(g)),
                } by {
                    if k < n {
                        assert(os[k] == prev.0[k]);
                    }
                }
                assert forall|k: int, k2: int| 0 <= k < k2 < os.len() && (#[trigger] os[k]) is Window implies os[k] != #[trigger] os[k2] by {
                    assert(os[k] == prev.0[k]);
                    if k2 < n {
                        assert(os[k2] == prev.0[k2]);
                    }
                }
            },
        }
    }
}

/// With distinct window ids, the restored top-level order holds a window
/// slot only for a current window that is in no restored group, each such
/// window at most once, and a group slot only for a restored group.
pub proof fn restored_slots_name_ungrouped_windows_and_groups(m: StateModel, s: SavedModel, renames: Map<u32, Seq<char>>)
    requires
        distinct_ids(m.windows),
    ensures
        ({
            let r = restored(m, s, renames);
            &&& forall|k: int| 0 <= k < r.display_order.len() ==> match #[trigger] r.display_order[k] {
                DisplaySlot::Window(w) => present(r.windows, w) && !any_match(r.groups, has_member(w)),
                DisplaySlot::Group(g) => any_match(r.groups, crate::state::has_gid(g)),
            }
            &&& forall|k: int, k2: int|
                0 <= k < k2 < r.display_order.len() && (#[trigger] r.display_order[k]) is Window ==> r.display_order[k]
                    != #[trigger] r.display_order[k2]
        }),
{
    let r = restored(m, s, renames);
    restore_reorders_windows(m, s, renames);
    let ws = r.windows;
    let cl = claims(s.window_order, window_keys(m.windows));
    let idx = restored_order(cl, s.window_order.len() as int);
    assert(distinct_ids(ws)) by {
        assert forall|i: int, j: int| 0 <= i < j < ws.len() implies #[trigger] ws[i].id != #[trigger] ws[j].id by {
            assert(ws[i] == m.windows[idx[i]] && ws[j] == m.windows[idx[j]]);
            assert(idx[i] != idx[j]);
            if idx[i] < idx[j] {
                assert(m.windows[idx[i]].id != m.windows[idx[j]].id);
            } else {
                assert(m.windows[idx[j]].id != m.windows[idx[i]].id);
            }
        }
    }
    let nk = window_keys(ws);
    let nid = window_ids(ws);
    let gs = r.groups;
    let used = grouped_positions(nid, gs);
    assert forall|i: int, j: int| 0 <= i < nid.len() && 0 <= j < nid.len() && #[trigger] nid[i] == #[trigger] nid[j] implies i == j by {
        if i < j {
            assert(ws[i].id != ws[j].id);
        } else if j < i {
            assert(ws[j].id != ws[i].id);
        }
    }
    lemma_rebuild_slots_props(nk, nid, gs, used, s.display_order);
    assert(r.display_order == rebuild_slots(nk, nid, gs, used, s.display_order).0);
    assert forall|k: int| 0 <= k < r.display_order.len() implies match #[trigger] r.display_order[k] {
        DisplaySlot::Window(w) => present(r.windows, w) && !any_match(r.groups, has_member(w)),
        DisplaySlot::Group(g) => any_match(r.groups, crate::state::has_gid(g)),
    } by {
        match r.display_order[k] {
            DisplaySlot::Window(w) => {
                let j = choose|j: int| 0 <= j < nk.len() && #[trigger] nid[j] == w && rebuild_slots(nk, nid, gs, used, s.display_order).1.contains(j) && !used.contains(j);
                assert(has_wid(w)(ws[j]));
                lemma_any_match_first(ws, has_wid(w));
                lemma_first_match(ws, has_wid(w));
            },
            DisplaySlot::Group(g) => {},
        }
    }
}

// ── Top-level slots come first ──

/// What follows the items of `base` in `acc`: windows `base` had not listed,
/// and headers or members of existing groups `base` had not listed.
spec fn late_ok(base: ItemsAcc, acc: ItemsAcc, gs: Seq<GroupModel>) -> bool {
    &&& base.items.len() <= acc.items.len()
    &&& acc.items.take(base.items.len() as int) == base.items
    &&& base.seen_windows.subset_of(acc.seen_windows)
    &&& base.seen_groups.subset_of(acc.seen_groups)
    &&& forall|k: int| base.items.len() <= k < acc.items.len() ==> match #[trigger] acc.items[k] {
        ItemKind::UngroupedWindow(w) => !base.seen_windows.contains(w),
        ItemKind::GroupHeader(g) => !base.seen_groups.contains(g) && any_match(gs, crate::state::has_gid(g)),
        ItemKind::GroupedWindow(_, g) => !base.seen_groups.contains(g) && any_match(gs, crate::state::has_gid(g)),
    }
}

proof fn lemma_late_push(base: ItemsAcc, acc: ItemsAcc, gs: Seq<GroupModel>, b: ItemsAcc)
    requires
        late_ok(base, acc, gs),
        b.items.len() == acc.items.len() + 1,
        b.items.take(acc.items.len() as int) == acc.items,
        acc.seen_windows.subset_of(b.seen_windows),
        acc.seen_groups.subset_of(b.seen_groups),
        match b.items.last() {
            ItemKind::UngroupedWindow(w) => !base.seen_windows.contains(w),
            ItemKind::GroupHeader(g) => !base.seen_groups.contains(g) && any_match(gs, crate::state::has_gid(g)),
            ItemKind::GroupedWindow(_, g) => !base.seen_groups.contains(g) && any_match(gs, crate::state::has_gid(g)),
        },
    ensures
        late_ok(base, b, gs),
{
    let n = acc.items.len() as int;
    assert(b.items.take(base.items.len() as int) =~= base.items) by {
        assert forall|i: int| 0 <= i < base.items.len() implies b.items[i] == base.items[i] by {
            assert(b.items[i] == b.items.take(n)[i]);
            assert(acc.items[i] == acc.items.take(base.items.len() as int)[i]);
        }
    }
    assert forall|k: int| base.items.len() <= k < b.items.len() implies match #[trigger] b.items[k] {
        ItemKind::UngroupedWindow(w) => !base.seen_windows.contains(w),
        ItemKind::GroupHeader(g) => !base.seen_groups.contains(g) && any_match(gs, crate::state::has_gid(g)),
        ItemKind::GroupedWindow(_, g) => !base.seen_groups.contains(g) && any_match(gs, crate::state::has_gid(g)),
    } by {
        if k < n {
            assert(b.items[k] == b.items.take(n)[k]);
        }
    }
}

proof fn lemma_late_members(base: ItemsAcc, acc: ItemsAcc, members: Seq<u32>, gid: u32, vis: spec_fn(u32) -> bool, gs: Seq<GroupModel>)
    requires
        late_ok(base, acc, gs),
        !base.seen_groups.contains(gid),
        any_match(gs, crate::state::has_gid(gid)),
    ensures
        late_ok(base, add_members(acc, members, gid, vis), gs),
    decreases members.len(),
{
    if members.len() > 0 {
        lemma_late_members(base, acc, members.drop_last(), gid, vis, gs);
        let a = add_members(acc, members.drop_last(), gid, vis);
        let w = members.last();
        if vis(w) && !a.seen_windows.contains(w) {
            let b = add_members(acc, members, gid, vis);
            assert(b.items.take(a.items.len() as int) =~= a.items);
            lemma_late_push(base, a, gs, b);
        }
    }
}

proof fn lemma_late_group(base: ItemsAcc, acc: ItemsAcc, g: GroupModel, vis: spec_fn(u32) -> bool, gs: Seq<GroupModel>)
    requires
        late_ok(base, acc, gs),
        any_match(gs, crate::state::has_gid(g.id)),
    ensures
        late_ok(base, add_group(acc, g, vis), gs),
{
    if !acc.seen_groups.contains(g.id) {
        let a = ItemsAcc {
            items: acc.items.push(ItemKind::GroupHeader(g.id)),
            seen_groups: acc.seen_groups.insert(g.id),
            ..acc
        };
        assert(a.items.take(acc.items.len() as int) =~= acc.items);
        lemma_late_push(base, acc, gs, a);
        if !g.collapsed {
            lemma_late_members(base, a, g.members, g.id, vis, gs);
        }
    }
}

proof fn lemma_late_window(base: ItemsAcc, acc: ItemsAcc, wid: u32, vis: spec_fn(u32) -> bool, grp: spec_fn(u32) -> bool, gs: Seq<GroupModel>)
    requires
        late_ok(base, acc, gs),
    ensures
        late_ok(base, add_window(acc, wid, vis, grp), gs),
{
    if vis(wid) && !grp(wid) && !acc.seen_windows.contains(wid) {
        let b = add_window(acc, wid, vis, grp);
        assert(b.items.take(acc.items.len() as int) =~= acc.items);
        lemma_late_push(base, acc, gs, b);
    }
}

proof fn lemma_late_windows(base: ItemsAcc, acc: ItemsAcc, ws: Seq<WindowModel>, vis: spec_fn(u32) -> bool, grp: spec_fn(u32) -> bool, gs: Seq<GroupModel>)
    requires
        late_ok(base, acc, gs),
    ensures
        late_ok(base, fold_windows(acc, ws, vis, grp), gs),
    decreases ws.len(),
{
    if ws.len() > 0 {
        lemma_late_windows(base, acc, ws.drop_last(), vis, grp, gs);
        lemma_late_window(base, fold_windows(acc, ws.drop_last(), vis, grp), ws.last().id, vis, grp, gs);
    }
}

proof fn lemma_late_groups(base: ItemsAcc, acc: ItemsAcc, gs: Seq<GroupModel>, n: int, vis: spec_fn(u32) -> bool)
    requires
        late_ok(base, acc, gs),
        0 <= n <= gs.len(),
    ensures
        late_ok(base, fold_groups(acc, gs.take(n), vis), gs),
    decreases n,
{
    if n > 0 {
        lemma_late_groups(base, acc, gs, n - 1, vis);
        assert(gs.take(n).drop_last() =~= gs.take(n - 1));
        assert(gs.take(n).last() == gs[n - 1]);
        assert(crate::state::has_gid(gs[n - 1].id)(gs[n - 1]));
        lemma_late_group(base, fold_groups(acc, gs.take(n - 1), vis), gs[n - 1], vis, gs);
    }
}

/// After the slots, listed windows with a window slot that are visible and
/// ungrouped are seen, and groups with a group slot are seen.
proof fn lemma_slots_seen(m: StateModel, acc: ItemsAcc, slots: Seq<DisplaySlot>, vis: spec_fn(u32) -> bool, grp: spec_fn(u32) -> bool)
    requires
        acc_covers(acc, grp),
    ensures
        acc_covers(fold_slots(m, acc, slots, vis, grp), grp),
        grows(acc, fold_slots(m, acc, slots, vis, grp)),
        forall|w: u32| #[trigger] slots.contains(DisplaySlot::Window(w)) && vis(w) && !grp(w)
            ==> fold_slots(m, acc, slots, vis, grp).seen_windows.contains(w),
        forall|g: u32| #[trigger] slots.contains(DisplaySlot::Group(g)) && crate::state::group_pos(m, g) >= 0
            ==> fold_slots(m, acc, slots, vis, grp).seen_groups.contains(g),
    decreases slots.len(),
{
    if slots.len() > 0 {
        let dl = slots.drop_last();
        lemma_slots_seen(m, acc, dl, vis, grp);
        let a = fold_slots(m, acc, dl, vis, grp);
        let r = fold_slots(m, acc, slots, vis, grp);
        match slots.last() {
            DisplaySlot::Window(w) => lemma_add_window_covers(a, w, vis, grp),
            DisplaySlot::Group(g) => {
                let p = crate::state::group_pos(m, g);
                if p >= 0 {
                    lemma_first_match(m.groups, crate::state::has_gid(g));
                    lemma_add_group_covers(a, m.groups[p], vis, grp);
                }
            },
        }
        lemma_grows_trans(acc, a, r);
        assert forall|w: u32| #[trigger] slots.contains(DisplaySlot::Window(w)) && vis(w) && !grp(w) implies r.seen_windows.contains(w) by {
            let i = choose|i: int| 0 <= i < slots.len() && slots[i] == DisplaySlot::Window(w);
            if i < dl.len() {
                assert(dl[i] == slots[i]);
                assert(dl.contains(DisplaySlot::Window(w)));
            }
        }
        assert forall|g: u32| #[trigger] slots.contains(DisplaySlot::Group(g)) && crate::state::group_pos(m, g) >= 0 implies r.seen_groups.contains(g) by {
            let i = choose|i: int| 0 <= i < slots.len() && slots[i] == DisplaySlot::Group(g);
            if i < dl.len() {
                assert(dl[i] == slots[i]);
                assert(dl.contains(DisplaySlot::Group(g)));
            }
        }
    }
}

/// The items of the top-level order come first: after them, the display
/// items name only windows without a window slot and groups (headers and
/// members) without a group slot.
proof fn lemma_ungrouped_items(m: StateModel, lowered: Seq<Seq<char>>)
    ensures
        forall|k: int| 0 <= k < display_items_of(m, lowered).len() ==> (#[trigger] display_items_of(m, lowered)[k] matches ItemKind::UngroupedWindow(w) ==> visible_in(m, lowered)(w) && !grouped_in(m.groups)(w)),
{
    display_items_cover_groups_and_ungrouped_windows(m, lowered);
    display_items_list_visible_windows_once(m, lowered);
    let items = display_items_of(m, lowered);
    assert forall|k: int| 0 <= k < items.len() implies (#[trigger] items[k] matches ItemKind::UngroupedWindow(w) ==> visible_in(m, lowered)(w) && !grouped_in(m.groups)(w)) by {
        assert(item_window(items[k]) == item_window(items[k]));
    }
}

#[verifier::spinoff_prover]
#[verifier::rlimit(80)]
pub proof fn display_items_list_top_level_slots_first(m: StateModel, lowered: Seq<Seq<char>>)
    ensures
        ({
            let vis = visible_in(m, lowered);
            let grp = grouped_in(m.groups);
            let top = fold_slots(m, no_items(), m.display_order, vis, grp).items;
            let items = display_items_of(m, lowered);
            &&& items.take(top.len() as int) == top
            &&& forall|k: int| top.len() <= k < items.len() ==> match #[trigger] items[k] {
                ItemKind::UngroupedWindow(w) => !m.display_order.contains(DisplaySlot::Window(w)),
                ItemKind::GroupHeader(g) => !m.display_order.contains(DisplaySlot::Group(g)),
                ItemKind::GroupedWindow(_, g) => !m.display_order.contains(DisplaySlot::Group(g)),
            }
        }),
{
    let vis = visible_in(m, lowered);
    let grp = grouped_in(m.groups);
    assert(acc_covers(no_items(), grp));
    lemma_slots_seen(m, no_items(), m.display_order, vis, grp);
    let a1 = fold_slots(m, no_items(), m.display_order, vis, grp);
    assert(a1.items.take(a1.items.len() as int) =~= a1.items);
    assert(late_ok(a1, a1, m.groups));
    lemma_late_windows(a1, a1, m.windows, vis, grp, m.groups);
    let a2 = fold_windows(a1, m.windows, vis, grp);
    lemma_late_groups(a1, a2, m.groups, m.groups.len() as int, vis);
    assert(m.groups.take(m.groups.len() as int) =~= m.groups);
    let a3 = fold_groups(a2, m.groups, vis);
    assert(late_ok(a1, a3, m.groups));
    let items = display_items_of(m, lowered);
    assert(items == a3.items);
    lemma_ungrouped_items(m, lowered);
    assert forall|k: int| a1.items.len() <= k < items.len() implies match #[trigger] items[k] {
        ItemKind::UngroupedWindow(w) => !m.display_order.contains(DisplaySlot::Window(w)),
        ItemKind::GroupHeader(g) => !m.display_order.contains(DisplaySlot::Group(g)),
        ItemKind::GroupedWindow(_, g) => !m.display_order.contains(DisplaySlot::Group(g)),
    } by {
        match items[k] {
            ItemKind::UngroupedWindow(w) => {
                assert(!a1.seen_windows.contains(w));
                assert(vis(w) && !grp(w));
                if m.display_order.contains(DisplaySlot::Window(w)) {
                    assert(a1.seen_windows.contains(w));
                }
            },
            ItemKind::GroupHeader(g) => {
                assert(!a1.seen_groups.contains(g) && any_match(m.groups, crate::state::has_gid(g)));
                lemma_any_match_first(m.groups, crate::state::has_gid(g));
                lemma_first_match(m.groups, crate::state::has_gid(g));
                assert(crate::state::group_pos(m, g) >= 0);
                if m.display_order.contains(DisplaySlot::Group(g)) {
                    assert(a1.seen_groups.contains(g));
                }
            },
            ItemKind::GroupedWindow(_, g) => {
                assert(!a1.seen_groups.contains(g) && any_match(m.groups, crate::state::has_gid(g)));
                lemma_any_match_first(m.groups, crate::state::has_gid(g));
                lemma_first_match(m.groups, crate::state::has_gid(g));
                assert(crate::state::group_pos(m, g) >= 0);
                if m.display_order.contains(DisplaySlot::Group(g)) {
                    assert(a1.seen_groups.contains(g));
                }
            },
        }
    }
}

} // verus!
