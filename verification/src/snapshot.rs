//! Persistence snapshots: what is kept of the application state across
//! restarts, and how a snapshot is taken and matched back to live windows.
use std::collections::HashMap;

use vstd::prelude::*;

use crate::search::{
    any_match, first_index, first_match, lemma_any_match_first, lemma_first_index_is,
    lemma_first_index_none, lemma_first_match_is, lemma_first_match_none,
    lemma_contains_push, lemma_map_values_push, lemma_take_push,
};
use crate::state::{
    copy_entry, find_group, find_member_group, find_window, group_views, has_gid, has_member,
    has_wid, text_map, window_views, DisplaySlot, Group, GroupModel, StateModel, WindowEntry,
    WindowModel,
};
use crate::text::texts;

verus! {

broadcast use {vstd::std_specs::hash::group_hash_axioms, vstd::string::group_string_axioms};

/// Serializable snapshot of app state for persistence across restarts.
/// Uses class:instance keys (not window IDs, which change across restarts).
#[derive(Debug, Clone)]
pub struct SavedState {
    /// Ordered list of class:instance keys representing the user's preferred window order.
    pub window_order: Vec<String>,
    /// Window IDs at save time (parallel to window_order). Used to map renames.
    pub window_ids: Vec<u32>,
    /// User-assigned renames, keyed by window ID at save time.
    pub renames: HashMap<u32, String>,
    /// Saved PTM window X position (None = use WM default placement).
    pub window_x: Option<i32>,
    /// Saved PTM window Y position (None = use WM default placement).
    pub window_y: Option<i32>,
    /// Saved tab groups.
    pub groups: Vec<SavedGroup>,
    /// Saved display order (top-level slots).
    pub display_order: Vec<SavedDisplaySlot>,
    /// Next group ID counter.
    pub next_group_id: u32,
}

/// The group id counter a snapshot starts from when it records none.
pub fn default_next_group_id() -> (id: u32)
    ensures
        id == 1,
{
    1
}

/// A saved tab group; its members are class:instance keys.
#[derive(Debug, Clone)]
pub struct SavedGroup {
    pub id: u32,
    pub name: String,
    pub collapsed: bool,
    pub members: Vec<String>,
}

/// A saved top-level slot: a window by its class:instance key, or a group by id.
#[derive(Debug, Clone)]
pub enum SavedDisplaySlot {
    Window(String),
    Group(u32),
}

/// A saved slot with its key taken as characters.
pub enum SavedSlotModel {
    Window(Seq<char>),
    Group(u32),
}

impl View for SavedDisplaySlot {
    type V = SavedSlotModel;

    open spec fn view(&self) -> SavedSlotModel {
        match self {
            SavedDisplaySlot::Window(k) => SavedSlotModel::Window(k@),
            SavedDisplaySlot::Group(g) => SavedSlotModel::Group(*g),
        }
    }
}

/// A saved group with its texts taken as characters.
pub struct SavedGroupModel {
    pub id: u32,
    pub name: Seq<char>,
    pub collapsed: bool,
    pub members: Seq<Seq<char>>,
}

impl View for SavedGroup {
    type V = SavedGroupModel;

    open spec fn view(&self) -> SavedGroupModel {
        SavedGroupModel {
            id: self.id,
            name: self.name@,
            collapsed: self.collapsed,
            members: texts(self.members@),
        }
    }
}

/// What a snapshot holds.
pub struct SavedModel {
    pub window_order: Seq<Seq<char>>,
    pub window_ids: Seq<u32>,
    pub renames: Map<u32, Seq<char>>,
    pub window_x: Option<i32>,
    pub window_y: Option<i32>,
    pub groups: Seq<SavedGroupModel>,
    pub display_order: Seq<SavedSlotModel>,
    pub next_group_id: u32,
}

impl View for SavedState {
    type V = SavedModel;

    open spec fn view(&self) -> SavedModel {
        SavedModel {
            window_order: texts(self.window_order@),
            window_ids: self.window_ids@,
            renames: text_map(self.renames@),
            window_x: self.window_x,
            window_y: self.window_y,
            groups: self.groups@.map_values(|g: SavedGroup| g@),
            display_order: self.display_order@.map_values(|s: SavedDisplaySlot| s@),
            next_group_id: self.next_group_id,
        }
    }
}

// ── Keys ──

/// A window's persistent key: its class, a colon, its instance.
pub open spec fn window_key(w: WindowModel) -> Seq<char> {
    w.wm_class + seq![':'] + w.wm_instance
}

pub open spec fn window_keys(ws: Seq<WindowModel>) -> Seq<Seq<char>> {
    ws.map_values(|w: WindowModel| window_key(w))
}

pub open spec fn window_ids(ws: Seq<WindowModel>) -> Seq<u32> {
    ws.map_values(|w: WindowModel| w.id)
}

/// The two texts with one colon between them.
fn join_key(class: &str, instance: &str) -> (key: String)
    ensures
        key@ == class@ + seq![':'] + instance@,
{
    proof {
        reveal_strlit(":");
    }
    let mut key = String::from_str(class);
    key.append(":");
    key.append(instance);
    proof {
        assert(key@ =~= class@ + seq![':'] + instance@);
    }
    key
}

fn key_of(w: &WindowEntry) -> (key: String)
    ensures
        key@ == window_key(w@),
{
    join_key(w.wm_class.as_str(), w.wm_instance.as_str())
}

pub(crate) fn keys_of(ws: &Vec<WindowEntry>) -> (keys: Vec<String>)
    ensures
        texts(keys@) == window_keys(window_views(ws@)),
{
    let ghost wv = window_views(ws@);
    let mut keys: Vec<String> = Vec::new();
    let mut i: usize = 0;
    while i < ws.len()
        invariant
            i <= ws@.len(),
            wv == window_views(ws@),
            texts(keys@) == window_keys(wv).take(i as int),
        decreases ws@.len() - i,
    {
        let k = key_of(&ws[i]);
        let ghost before = keys@;
        keys.push(k);
        proof {
            lemma_map_values_push(before, k, |s: String| s@);
            lemma_take_push(window_keys(wv), i as int);
        }
        i = i + 1;
    }
    proof {
        assert(window_keys(wv).take(ws@.len() as int) =~= window_keys(wv));
    }
    keys
}

fn ids_of(ws: &Vec<WindowEntry>) -> (ids: Vec<u32>)
    ensures
        ids@ == window_ids(window_views(ws@)),
{
    let ghost wv = window_views(ws@);
    let mut ids: Vec<u32> = Vec::new();
    let mut i: usize = 0;
    while i < ws.len()
        invariant
            i <= ws@.len(),
            wv == window_views(ws@),
            ids@ == window_ids(wv).take(i as int),
        decreases ws@.len() - i,
    {
        ids.push(ws[i].id);
        proof {
            assert(ids@ =~= window_ids(wv).take(i + 1));
        }
        i = i + 1;
    }
    proof {
        assert(window_ids(wv).take(ws@.len() as int) =~= window_ids(wv));
    }
    ids
}

// ── Taking a snapshot ──

/// The key of the first window with id `wid`, if any.
pub open spec fn key_of_id(ws: Seq<WindowModel>, wid: u32) -> Option<Seq<char>> {
    let p = first_match(ws, has_wid(wid));
    if p >= 0 {
        Some(window_key(ws[p]))
    } else {
        None
    }
}

/// The keys of those member ids that name a tracked window, in member order.
pub open spec fn member_keys(ws: Seq<WindowModel>, members: Seq<u32>) -> Seq<Seq<char>>
    decreases members.len(),
{
    if members.len() == 0 {
        seq![]
    } else {
        let prev = member_keys(ws, members.drop_last());
        match key_of_id(ws, members.last()) {
            Some(k) => prev.push(k),
            None => prev,
        }
    }
}

pub open spec fn saved_group(ws: Seq<WindowModel>, g: GroupModel) -> SavedGroupModel {
    SavedGroupModel { id: g.id, name: g.name, collapsed: g.collapsed, members: member_keys(ws, g.members) }
}

/// A window slot is saved by its window's key (the empty text for an
/// unknown window), a group slot by its id.
pub open spec fn saved_slot(ws: Seq<WindowModel>, s: DisplaySlot) -> SavedSlotModel {
    match s {
        DisplaySlot::Window(w) => SavedSlotModel::Window(
            match key_of_id(ws, w) {
                Some(k) => k,
                None => seq![],
            },
        ),
        DisplaySlot::Group(g) => SavedSlotModel::Group(g),
    }
}

fn key_of_window_id(ws: &Vec<WindowEntry>, wid: u32) -> (k: Option<String>)
    ensures
        match k {
            Some(s) => key_of_id(window_views(ws@), wid) == Some(s@),
            None => key_of_id(window_views(ws@), wid) is None,
        },
{
    match find_window(ws, wid) {
        Some(p) => Some(key_of(&ws[p])),
        None => None,
    }
}

fn saved_group_of(ws: &Vec<WindowEntry>, g: &Group) -> (s: SavedGroup)
    ensures
        s@ == saved_group(window_views(ws@), g@),
{
    let ghost wv = window_views(ws@);
    let mut members: Vec<String> = Vec::new();
    let mut i: usize = 0;
    while i < g.members.len()
        invariant
            i <= g.members@.len(),
            wv == window_views(ws@),
            texts(members@) == member_keys(wv, g.members@.take(i as int)),
        decreases g.members@.len() - i,
    {
        let ghost pre = g.members@.take(i + 1);
        proof {
            assert(pre.drop_last() =~= g.members@.take(i as int));
            assert(pre.last() == g.members@[i as int]);
        }
        let found = key_of_window_id(ws, g.members[i]);
        match found {
            Some(k) => {
                let ghost before = members@;
                members.push(k);
                proof {
                    lemma_map_values_push(before, k, |s: String| s@);
                    assert(member_keys(wv, pre) == member_keys(wv, pre.drop_last()).push(k@));
                }
            },
            None => {
                proof {
                    assert(member_keys(wv, pre) == member_keys(wv, pre.drop_last()));
                }
            },
        }
        i = i + 1;
    }
    proof {
        assert(g.members@.take(g.members@.len() as int) =~= g.members@);
    }
    SavedGroup { id: g.id, name: g.name.clone(), collapsed: g.collapsed, members }
}

/// The snapshot of a state: window keys and ids in window order, the
/// renames, no sidebar position, each group with its members' keys, each
/// display slot, and the group id counter.
pub open spec fn snapshot_of(
    ws: Seq<WindowModel>,
    renames: Map<u32, Seq<char>>,
    gs: Seq<GroupModel>,
    order: Seq<DisplaySlot>,
    next_group_id: u32,
) -> SavedModel {
    SavedModel {
        window_order: window_keys(ws),
        window_ids: window_ids(ws),
        renames: renames,
        window_x: None,
        window_y: None,
        groups: gs.map_values(|g: GroupModel| saved_group(ws, g)),
        display_order: order.map_values(|s: DisplaySlot| saved_slot(ws, s)),
        next_group_id: next_group_id,
    }
}

pub(crate) fn take_snapshot(
    ws: &Vec<WindowEntry>,
    renames: &HashMap<u32, String>,
    gs: &Vec<Group>,
    order: &Vec<DisplaySlot>,
    next_group_id: u32,
) -> (s: SavedState)
    ensures
        s@ == snapshot_of(
            window_views(ws@),
            text_map(renames@),
            gs@.map_values(|g: Group| g@),
            order@,
            next_group_id,
        ),
{
    let ghost wv = window_views(ws@);
    let ghost gv = gs@.map_values(|g: Group| g@);
    let mut groups: Vec<SavedGroup> = Vec::new();
    let mut i: usize = 0;
    while i < gs.len()
        invariant
            i <= gs@.len(),
            wv == window_views(ws@),
            gv == gs@.map_values(|g: Group| g@),
            groups@.map_values(|g: SavedGroup| g@) == gv.map_values(|g: GroupModel| saved_group(wv, g)).take(i as int),
        decreases gs@.len() - i,
    {
        let sg = saved_group_of(ws, &gs[i]);
        let ghost before = groups@;
        groups.push(sg);
        proof {
            lemma_map_values_push(before, sg, |g: SavedGroup| g@);
            lemma_take_push(gv.map_values(|g: GroupModel| saved_group(wv, g)), i as int);
        }
        i = i + 1;
    }
    let mut slots: Vec<SavedDisplaySlot> = Vec::new();
    let mut j: usize = 0;
    while j < order.len()
        invariant
            j <= order@.len(),
            wv == window_views(ws@),
            slots@.map_values(|s: SavedDisplaySlot| s@) == order@.map_values(|s: DisplaySlot| saved_slot(wv, s)).take(j as int),
        decreases order@.len() - j,
    {
        let slot = match order[j] {
            DisplaySlot::Window(w) => {
                match key_of_window_id(ws, w) {
                    Some(k) => SavedDisplaySlot::Window(k),
                    None => SavedDisplaySlot::Window(String::new()),
                }
            },
            DisplaySlot::Group(g) => SavedDisplaySlot::Group(g),
        };
        let ghost before = slots@;
        slots.push(slot);
        proof {
            lemma_map_values_push(before, slot, |s: SavedDisplaySlot| s@);
            lemma_take_push(order@.map_values(|s: DisplaySlot| saved_slot(wv, s)), j as int);
        }
        j = j + 1;
    }
    proof {
        assert(gv.map_values(|g: GroupModel| saved_group(wv, g)).take(gs@.len() as int) =~= gv.map_values(|g: GroupModel| saved_group(wv, g)));
        assert(order@.map_values(|s: DisplaySlot| saved_slot(wv, s)).take(order@.len() as int) =~= order@.map_values(|s: DisplaySlot| saved_slot(wv, s)));
    }
    SavedState {
        window_order: keys_of(ws),
        window_ids: ids_of(ws),
        renames: renames.clone(),
        window_x: None,
        window_y: None,
        groups,
        display_order: slots,
        next_group_id,
    }
}

// ── Matching a snapshot back to live windows ──

pub open spec fn as_ints(s: Seq<usize>) -> Seq<int> {
    s.map_values(|c: usize| c as int)
}

pub open spec fn equals_int(j: int) -> spec_fn(int) -> bool {
    |x: int| x == j
}

pub open spec fn equals_id(id: u32) -> spec_fn(u32) -> bool {
    |x: u32| x == id
}

/// Whether position `j` of `keys` holds `key` and is not yet taken.
pub open spec fn free_position(keys: Seq<Seq<char>>, taken: Seq<int>, key: Seq<char>) -> spec_fn(int) -> bool {
    |j: int| keys[j] == key && !taken.contains(j)
}

/// The sort key of each window, in window order: the first saved position
/// holding the window's key that no earlier window took, or, when there is
/// none, the number of saved positions plus the window's own index.
pub open spec fn claims(order: Seq<Seq<char>>, keys: Seq<Seq<char>>) -> Seq<int>
    decreases keys.len(),
{
    if keys.len() == 0 {
        seq![]
    } else {
        let prev = claims(order, keys.drop_last());
        let j = first_index(order.len() as int, free_position(order, prev, keys.last()));
        prev.push(
            if j >= 0 {
                j
            } else {
                order.len() + keys.len() - 1
            },
        )
    }
}

pub proof fn lemma_claims_len(order: Seq<Seq<char>>, keys: Seq<Seq<char>>)
    ensures
        claims(order, keys).len() == keys.len(),
    decreases keys.len(),
{
    if keys.len() > 0 {
        lemma_claims_len(order, keys.drop_last());
    }
}

/// The first position of `keys` holding `key` whose flag in `taken` is off.
fn first_free(keys: &Vec<String>, taken: &Vec<bool>, key: &String) -> (r: Option<usize>)
    requires
        taken@.len() == keys@.len(),
    ensures
        match r {
            Some(j) => {
                &&& j < keys@.len()
                &&& keys@[j as int]@ == key@
                &&& !taken@[j as int]
                &&& forall|k: int| 0 <= k < j ==> !(keys@[k]@ == key@ && !taken@[k])
            },
            None => forall|k: int| 0 <= k < keys@.len() ==> !(keys@[k]@ == key@ && !taken@[k]),
        },
{
    let mut j: usize = 0;
    while j < keys.len()
        invariant
            j <= keys@.len(),
            taken@.len() == keys@.len(),
            forall|k: int| 0 <= k < j ==> !(keys@[k]@ == key@ && !taken@[k]),
        decreases keys@.len() - j,
    {
        if !taken[j] && keys[j] == *key {
            return Some(j);
        }
        j = j + 1;
    }
    None
}

fn flags(n: usize) -> (v: Vec<bool>)
    ensures
        v@.len() == n,
        forall|j: int| 0 <= j < n ==> !v@[j],
{
    let mut v: Vec<bool> = Vec::new();
    let mut z: usize = 0;
    while z < n
        invariant
            z <= n,
            v@.len() == z,
            forall|j: int| 0 <= j < z ==> !v@[j],
        decreases n - z,
    {
        v.push(false);
        z = z + 1;
    }
    v
}

fn claim_positions(order: &Vec<String>, keys: &Vec<String>) -> (cl: Vec<usize>)
    requires
        order@.len() + keys@.len() <= usize::MAX,
    ensures
        as_ints(cl@) == claims(texts(order@), texts(keys@)),
{
    let ghost ord = texts(order@);
    let ghost ks = texts(keys@);
    let n_order = order.len();
    let mut claimed = flags(n_order);
    let mut cl: Vec<usize> = Vec::new();
    let mut i: usize = 0;
    while i < keys.len()
        invariant
            i <= keys@.len(),
            n_order == order@.len(),
            ord == texts(order@),
            ks == texts(keys@),
            order@.len() + keys@.len() <= usize::MAX,
            claimed@.len() == n_order,
            as_ints(cl@) == claims(ord, ks.take(i as int)),
            forall|j: int| 0 <= j < n_order ==> claimed@[j] == claims(ord, ks.take(i as int)).contains(j),
        decreases keys@.len() - i,
    {
        let ghost prev = claims(ord, ks.take(i as int));
        let ghost pre = ks.take(i + 1);
        let ghost p = free_position(ord, prev, ks[i as int]);
        proof {
            assert(pre.drop_last() =~= ks.take(i as int));
            assert(pre.last() == ks[i as int]);
        }
        let ghost before = cl@;
        match first_free(order, &claimed, &keys[i]) {
            Some(j) => {
                proof {
                    assert forall|k: int| 0 <= k < j implies !#[trigger] p(k) by {
                        assert(claimed@[k] == prev.contains(k));
                    }
                    assert(p(j as int)) by {
                        assert(claimed@[j as int] == prev.contains(j as int));
                    }
                    lemma_first_index_is(n_order as int, p, j as int);
                }
                cl.push(j);
                claimed.set(j, true);
                proof {
                    lemma_map_values_push(before, j, |c: usize| c as int);
                    assert(claims(ord, pre) == prev.push(j as int));
                    assert forall|jj: int| 0 <= jj < n_order implies claimed@[jj] == prev.push(j as int).contains(jj) by {
                        lemma_contains_push(prev, j as int, jj);
                    }
                }
            },
            None => {
                proof {
                    assert forall|k: int| 0 <= k < n_order implies !#[trigger] p(k) by {
                        assert(claimed@[k] == prev.contains(k));
                    }
                    lemma_first_index_none(n_order as int, p);
                }
                let c = n_order + i;
                cl.push(c);
                proof {
                    lemma_map_values_push(before, c, |c: usize| c as int);
                    assert(claims(ord, pre) == prev.push(c as int));
                    assert forall|jj: int| 0 <= jj < n_order implies claimed@[jj] == prev.push(c as int).contains(jj) by {
                        lemma_contains_push(prev, c as int, jj);
                    }
                }
            },
        }
        i = i + 1;
    }
    proof {
        assert(ks.take(keys@.len() as int) =~= ks);
    }
    cl
}

/// The window (by index) that took saved position `j`, or `-1`.
pub open spec fn taker(cl: Seq<int>, j: int) -> int {
    first_match(cl, equals_int(j))
}

/// The windows that took a saved position below `j`, by position.
pub open spec fn takers_before(cl: Seq<int>, j: int) -> Seq<int>
    decreases j,
{
    if j <= 0 {
        seq![]
    } else {
        let prev = takers_before(cl, j - 1);
        let t = taker(cl, j - 1);
        if t >= 0 {
            prev.push(t)
        } else {
            prev
        }
    }
}

/// The windows below index `i` that took no saved position, in order.
pub open spec fn untaken_before(cl: Seq<int>, limit: int, i: int) -> Seq<int>
    decreases i,
{
    if i <= 0 {
        seq![]
    } else {
        let prev = untaken_before(cl, limit, i - 1);
        if cl[i - 1] >= limit {
            prev.push(i - 1)
        } else {
            prev
        }
    }
}

/// Window indices sorted by the sort keys `cl`: those that took a saved
/// position, in saved order, then the others in their current order.
pub open spec fn restored_order(cl: Seq<int>, limit: int) -> Seq<int> {
    takers_before(cl, limit) + untaken_before(cl, limit, cl.len() as int)
}

pub open spec fn pick(ws: Seq<WindowModel>, idx: Seq<int>) -> Seq<WindowModel> {
    idx.map_values(|i: int| ws[i])
}

fn position_of(cl: &Vec<usize>, j: usize) -> (r: Option<usize>)
    ensures
        match r {
            Some(o) => o as int == first_match(as_ints(cl@), equals_int(j as int)) && o < cl@.len(),
            None => first_match(as_ints(cl@), equals_int(j as int)) == -1,
        },
{
    let ghost c = as_ints(cl@);
    let mut o: usize = 0;
    while o < cl.len()
        invariant
            o <= cl@.len(),
            c == as_ints(cl@),
            forall|k: int| 0 <= k < o ==> c[k] != j,
        decreases cl@.len() - o,
    {
        if cl[o] == j {
            proof {
                lemma_first_match_is(c, equals_int(j as int), o as int);
            }
            return Some(o);
        }
        o = o + 1;
    }
    proof {
        lemma_first_match_none(c, equals_int(j as int));
    }
    None
}

proof fn lemma_pick_push(ws: Seq<WindowModel>, idx: Seq<int>, i: int)
    ensures
        pick(ws, idx.push(i)) == pick(ws, idx).push(ws[i]),
{
    lemma_map_values_push(idx, i, |k: int| ws[k]);
}

fn restored_windows(ws: &Vec<WindowEntry>, cl: &Vec<usize>, limit: usize) -> (r: Vec<WindowEntry>)
    requires
        cl@.len() == ws@.len(),
    ensures
        window_views(r@) == pick(window_views(ws@), restored_order(as_ints(cl@), limit as int)),
{
    let ghost wv = window_views(ws@);
    let ghost c = as_ints(cl@);
    let mut r: Vec<WindowEntry> = Vec::new();
    let mut j: usize = 0;
    while j < limit
        invariant
            j <= limit,
            wv == window_views(ws@),
            c == as_ints(cl@),
            cl@.len() == ws@.len(),
            window_views(r@) == pick(wv, takers_before(c, j as int)),
        decreases limit - j,
    {
        let ghost before = r@;
        match position_of(cl, j) {
            Some(o) => {
                let e = copy_entry(&ws[o]);
                r.push(e);
                proof {
                    lemma_map_values_push(before, e, |w: WindowEntry| w@);
                    lemma_pick_push(wv, takers_before(c, j as int), o as int);
                    assert(takers_before(c, j + 1) == takers_before(c, j as int).push(o as int));
                }
            },
            None => {
                proof {
                    assert(takers_before(c, j + 1) == takers_before(c, j as int));
                }
            },
        }
        j = j + 1;
    }
    let ghost head = takers_before(c, limit as int);
    let mut i: usize = 0;
    while i < cl.len()
        invariant
            i <= cl@.len(),
            wv == window_views(ws@),
            c == as_ints(cl@),
            cl@.len() == ws@.len(),
            head == takers_before(c, limit as int),
            window_views(r@) == pick(wv, head + untaken_before(c, limit as int, i as int)),
        decreases cl@.len() - i,
    {
        let ghost before = r@;
        if cl[i] >= limit {
            let e = copy_entry(&ws[i]);
            r.push(e);
            proof {
                lemma_map_values_push(before, e, |w: WindowEntry| w@);
                assert(untaken_before(c, limit as int, i + 1) == untaken_before(c, limit as int, i as int).push(i as int));
                assert(head + untaken_before(c, limit as int, i + 1) =~= (head + untaken_before(c, limit as int, i as int)).push(i as int));
                lemma_pick_push(wv, head + untaken_before(c, limit as int, i as int), i as int);
            }
        } else {
            proof {
                assert(untaken_before(c, limit as int, i + 1) == untaken_before(c, limit as int, i as int));
            }
        }
        i = i + 1;
    }
    r
}

/// The saved window whose rename goes to the window holding sort key `c`:
/// the id saved at position `c`, when `c` is the first position holding that
/// id and that id has a saved rename.
pub open spec fn rename_source(s: SavedModel, c: int) -> Option<u32> {
    if 0 <= c < s.window_ids.len() && first_match(s.window_ids, equals_id(s.window_ids[c])) == c
        && s.renames.contains_key(s.window_ids[c]) {
        Some(s.window_ids[c])
    } else {
        None
    }
}

/// Window `i` of `ws`, which has id `k`, receives a saved rename.
pub open spec fn renamed_from(ws: Seq<WindowModel>, cl: Seq<int>, s: SavedModel, k: u32, i: int) -> bool {
    0 <= i < ws.len() && ws[i].id == k && rename_source(s, cl[i]) is Some
}

/// The renames `r` are those restored from `s` by the first `upto` windows:
/// a window id is renamed exactly when one of those windows with that id
/// receives a saved rename, and its name is the rename one of them receives.
pub open spec fn renames_restored(
    r: Map<u32, Seq<char>>,
    ws: Seq<WindowModel>,
    cl: Seq<int>,
    s: SavedModel,
    upto: int,
) -> bool {
    &&& forall|k: u32| #[trigger] r.contains_key(k) <==> exists|i: int| 0 <= i < upto && renamed_from(ws, cl, s, k, i)
    &&& forall|k: u32| #[trigger] r.contains_key(k) ==> exists|i: int|
        0 <= i < upto && renamed_from(ws, cl, s, k, i) && r[k] == s.renames[rename_source(s, cl[i])->0]
}

fn position_of_id(v: &Vec<u32>, id: u32) -> (r: Option<usize>)
    ensures
        match r {
            Some(o) => o as int == first_match(v@, equals_id(id)) && o < v@.len(),
            None => first_match(v@, equals_id(id)) == -1,
        },
{
    let mut o: usize = 0;
    while o < v.len()
        invariant
            o <= v@.len(),
            forall|k: int| 0 <= k < o ==> v@[k] != id,
        decreases v@.len() - o,
    {
        if v[o] == id {
            proof {
                lemma_first_match_is(v@, equals_id(id), o as int);
            }
            return Some(o);
        }
        o = o + 1;
    }
    proof {
        lemma_first_match_none(v@, equals_id(id));
    }
    None
}

fn source_name(saved: &SavedState, c: usize) -> (r: Option<String>)
    ensures
        match r {
            Some(name) => rename_source(saved@, c as int) is Some && name@ == saved@.renames[rename_source(saved@, c as int)->0],
            None => rename_source(saved@, c as int) is None,
        },
{
    if c >= saved.window_ids.len() {
        return None;
    }
    let wid = saved.window_ids[c];
    match position_of_id(&saved.window_ids, wid) {
        Some(p) => {
            if p != c {
                return None;
            }
        },
        None => {
            return None;
        },
    }
    match saved.renames.get(&wid) {
        Some(name) => Some(name.clone()),
        None => None,
    }
}

proof fn lemma_renames_skip(r: Map<u32, Seq<char>>, ws: Seq<WindowModel>, cl: Seq<int>, s: SavedModel, i: int)
    requires
        0 <= i < ws.len(),
        renames_restored(r, ws, cl, s, i),
        rename_source(s, cl[i]) is None,
    ensures
        renames_restored(r, ws, cl, s, i + 1),
{
    assert forall|k: u32| #[trigger] r.contains_key(k) <==> exists|ii: int| 0 <= ii < i + 1 && renamed_from(ws, cl, s, k, ii) by {
        if exists|ii: int| 0 <= ii < i + 1 && renamed_from(ws, cl, s, k, ii) {
            let ii = choose|ii: int| 0 <= ii < i + 1 && renamed_from(ws, cl, s, k, ii);
            assert(ii < i);
        }
    }
    assert forall|k: u32| #[trigger] r.contains_key(k) implies exists|ii: int|
        0 <= ii < i + 1 && renamed_from(ws, cl, s, k, ii) && r[k] == s.renames[rename_source(s, cl[ii])->0] by {
        let ii = choose|ii: int| 0 <= ii < i && renamed_from(ws, cl, s, k, ii) && r[k] == s.renames[rename_source(s, cl[ii])->0];
    }
}

proof fn lemma_renames_insert_keys(
    r: Map<u32, Seq<char>>,
    ws: Seq<WindowModel>,
    cl: Seq<int>,
    s: SavedModel,
    i: int,
    name: Seq<char>,
)
    requires
        0 <= i < ws.len(),
        forall|k: u32| #[trigger] r.contains_key(k) <==> exists|ii: int| 0 <= ii < i && renamed_from(ws, cl, s, k, ii),
        renamed_from(ws, cl, s, ws[i].id, i),
    ensures
        forall|k: u32| #[trigger] r.insert(ws[i].id, name).contains_key(k) <==> exists|ii: int| 0 <= ii < i + 1 && renamed_from(ws, cl, s, k, ii),
{
    let id = ws[i].id;
    let after = r.insert(id, name);
    assert forall|k: u32| #[trigger] after.contains_key(k) <==> exists|ii: int| 0 <= ii < i + 1 && renamed_from(ws, cl, s, k, ii) by {
        if k != id {
            if exists|ii: int| 0 <= ii < i + 1 && renamed_from(ws, cl, s, k, ii) {
                let ii = choose|ii: int| 0 <= ii < i + 1 && renamed_from(ws, cl, s, k, ii);
                assert(ii != i);
                assert(r.contains_key(k));
            }
            if after.contains_key(k) {
                assert(r.contains_key(k));
            }
        }
    }
}

proof fn lemma_renames_insert_values(
    r: Map<u32, Seq<char>>,
    ws: Seq<WindowModel>,
    cl: Seq<int>,
    s: SavedModel,
    i: int,
    name: Seq<char>,
)
    requires
        0 <= i < ws.len(),
        forall|k: u32| #[trigger] r.contains_key(k) ==> exists|ii: int|
            0 <= ii < i && renamed_from(ws, cl, s, k, ii) && r[k] == s.renames[rename_source(s, cl[ii])->0],
        renamed_from(ws, cl, s, ws[i].id, i),
        name == s.renames[rename_source(s, cl[i])->0],
    ensures
        forall|k: u32| #[trigger] r.insert(ws[i].id, name).contains_key(k) ==> exists|ii: int|
            0 <= ii < i + 1 && renamed_from(ws, cl, s, k, ii) && r.insert(ws[i].id, name)[k] == s.renames[rename_source(s, cl[ii])->0],
{
    let id = ws[i].id;
    let after = r.insert(id, name);
    assert forall|k: u32| #[trigger] after.contains_key(k) implies exists|ii: int|
        0 <= ii < i + 1 && renamed_from(ws, cl, s, k, ii) && after[k] == s.renames[rename_source(s, cl[ii])->0] by {
        if k != id {
            assert(r.contains_key(k));
            let ii = choose|ii: int| 0 <= ii < i && renamed_from(ws, cl, s, k, ii) && r[k] == s.renames[rename_source(s, cl[ii])->0];
            assert(after[k] == r[k]);
        } else {
            assert(after[k] == name);
        }
    }
}

proof fn lemma_renames_insert(
    r: Map<u32, Seq<char>>,
    ws: Seq<WindowModel>,
    cl: Seq<int>,
    s: SavedModel,
    i: int,
    name: Seq<char>,
)
    requires
        0 <= i < ws.len(),
        renames_restored(r, ws, cl, s, i),
        rename_source(s, cl[i]) is Some,
        name == s.renames[rename_source(s, cl[i])->0],
    ensures
        renames_restored(r.insert(ws[i].id, name), ws, cl, s, i + 1),
{
    assert(renamed_from(ws, cl, s, ws[i].id, i));
    lemma_renames_insert_keys(r, ws, cl, s, i, name);
    lemma_renames_insert_values(r, ws, cl, s, i, name);
}

fn restored_renames(ws: &Vec<WindowEntry>, cl: &Vec<usize>, saved: &SavedState) -> (r: HashMap<u32, String>)
    requires
        cl@.len() == ws@.len(),
    ensures
        renames_restored(text_map(r@), window_views(ws@), as_ints(cl@), saved@, ws@.len() as int),
{
    let ghost wv = window_views(ws@);
    let ghost c = as_ints(cl@);
    let ghost s = saved@;
    let mut r: HashMap<u32, String> = HashMap::new();
    let mut i: usize = 0;
    proof {
        assert(text_map(r@) =~= Map::<u32, Seq<char>>::empty());
    }
    while i < ws.len()
        invariant
            i <= ws@.len(),
            cl@.len() == ws@.len(),
            wv == window_views(ws@),
            c == as_ints(cl@),
            s == saved@,
            renames_restored(text_map(r@), wv, c, s, i as int),
        decreases ws@.len() - i,
    {
        let ghost before = text_map(r@);
        match source_name(saved, cl[i]) {
            Some(name) => {
                let id = ws[i].id;
                r.insert(id, name);
                proof {
                    assert(text_map(r@) =~= before.insert(id, name@));
                    lemma_renames_insert(before, wv, c, s, i as int, name@);
                }
            },
            None => {
                proof {
                    lemma_renames_skip(before, wv, c, s, i as int);
                }
            },
        }
        i = i + 1;
    }
    r
}

// ── Rebuilding groups and the display order ──

/// The positions whose flag is on.
pub open spec fn used_set(used: Seq<bool>) -> Set<int> {
    Set::new(|j: int| 0 <= j < used.len() && used[j])
}

/// Whether window `j` has key `key` and is not yet taken.
pub open spec fn free_window(nk: Seq<Seq<char>>, used: Set<int>, key: Seq<char>) -> spec_fn(int) -> bool {
    |j: int| nk[j] == key && !used.contains(j)
}

/// The first window with key `key` not yet taken, or `-1`.
pub open spec fn take_window(nk: Seq<Seq<char>>, used: Set<int>, key: Seq<char>) -> int {
    first_index(nk.len() as int, free_window(nk, used, key))
}

/// Windows taken in turn for the keys `keys` (a key with no free window
/// takes nothing), and the taken set afterwards.
pub open spec fn take_members(nk: Seq<Seq<char>>, used: Set<int>, keys: Seq<Seq<char>>) -> (Seq<int>, Set<int>)
    decreases keys.len(),
{
    if keys.len() == 0 {
        (seq![], used)
    } else {
        let prev = take_members(nk, used, keys.drop_last());
        let j = take_window(nk, prev.1, keys.last());
        if j >= 0 {
            (prev.0.push(j), prev.1.insert(j))
        } else {
            prev
        }
    }
}

pub open spec fn ids_at(nid: Seq<u32>, idx: Seq<int>) -> Seq<u32> {
    idx.map_values(|i: int| nid[i])
}

/// Saved groups rebuilt in order, each member key taking the first window
/// with that key not taken by an earlier member; and the taken set afterwards.
pub open spec fn rebuild_groups(nk: Seq<Seq<char>>, nid: Seq<u32>, used: Set<int>, sgs: Seq<SavedGroupModel>) -> (Seq<GroupModel>, Set<int>)
    decreases sgs.len(),
{
    if sgs.len() == 0 {
        (seq![], used)
    } else {
        let prev = rebuild_groups(nk, nid, used, sgs.drop_last());
        let sg = sgs.last();
        let t = take_members(nk, prev.1, sg.members);
        (
            prev.0.push(
                GroupModel { id: sg.id, name: sg.name, collapsed: sg.collapsed, members: ids_at(nid, t.0) },
            ),
            t.1,
        )
    }
}

/// The positions of windows whose id is a member of some group.
pub open spec fn grouped_positions(nid: Seq<u32>, gs: Seq<GroupModel>) -> Set<int> {
    Set::new(|i: int| 0 <= i < nid.len() && any_match(gs, has_member(nid[i])))
}

/// Saved slots rebuilt in order: a window slot takes the first window with its
/// key not yet taken, a group slot is kept when a group has its id, and
/// anything else is dropped; and the taken set afterwards.
pub open spec fn rebuild_slots(
    nk: Seq<Seq<char>>,
    nid: Seq<u32>,
    gs: Seq<GroupModel>,
    used: Set<int>,
    slots: Seq<SavedSlotModel>,
) -> (Seq<DisplaySlot>, Set<int>)
    decreases slots.len(),
{
    if slots.len() == 0 {
        (seq![], used)
    } else {
        let prev = rebuild_slots(nk, nid, gs, used, slots.drop_last());
        match slots.last() {
            SavedSlotModel::Window(key) => {
                let j = take_window(nk, prev.1, key);
                if j >= 0 {
                    (prev.0.push(DisplaySlot::Window(nid[j])), prev.1.insert(j))
                } else {
                    prev
                }
            },
            SavedSlotModel::Group(g) => {
                if any_match(gs, has_gid(g)) {
                    (prev.0.push(DisplaySlot::Group(g)), prev.1)
                } else {
                    prev
                }
            },
        }
    }
}

fn take_free(nk: &Vec<String>, used: &mut Vec<bool>, key: &String) -> (r: Option<usize>)
    requires
        old(used)@.len() == nk@.len(),
    ensures
        final(used)@.len() == nk@.len(),
        match r {
            Some(j) => {
                &&& j < nk@.len()
                &&& j as int == take_window(texts(nk@), used_set(old(used)@), key@)
                &&& used_set(final(used)@) == used_set(old(used)@).insert(j as int)
            },
            None => {
                &&& take_window(texts(nk@), used_set(old(used)@), key@) == -1
                &&& final(used)@ == old(used)@
            },
        },
{
    let ghost ks = texts(nk@);
    let ghost u0 = used_set(used@);
    let ghost p = free_window(ks, u0, key@);
    let found = first_free(nk, used, key);
    match found {
        Some(j) => {
            proof {
                assert forall|k: int| 0 <= k < j implies !#[trigger] p(k) by {
                    assert(used@[k] == u0.contains(k));
                }
                assert(p(j as int));
                lemma_first_index_is(nk@.len() as int, p, j as int);
            }
            used.set(j, true);
            proof {
                assert(used_set(used@) =~= u0.insert(j as int));
            }
            Some(j)
        },
        None => {
            proof {
                assert forall|k: int| 0 <= k < nk@.len() implies !#[trigger] p(k) by {
                    assert(used@[k] == u0.contains(k));
                }
                lemma_first_index_none(nk@.len() as int, p);
            }
            None
        },
    }
}

fn take_members_exec(nk: &Vec<String>, nid: &Vec<u32>, used: &mut Vec<bool>, keys: &Vec<String>) -> (m: Vec<u32>)
    requires
        old(used)@.len() == nk@.len(),
        nid@.len() == nk@.len(),
    ensures
        final(used)@.len() == nk@.len(),
        m@ == ids_at(nid@, take_members(texts(nk@), used_set(old(used)@), texts(keys@)).0),
        used_set(final(used)@) == take_members(texts(nk@), used_set(old(used)@), texts(keys@)).1,
{
    let ghost ks = texts(nk@);
    let ghost mk = texts(keys@);
    let ghost u0 = used_set(used@);
    let mut m: Vec<u32> = Vec::new();
    let mut i: usize = 0;
    while i < keys.len()
        invariant
            i <= keys@.len(),
            ks == texts(nk@),
            mk == texts(keys@),
            used@.len() == nk@.len(),
            nid@.len() == nk@.len(),
            m@ == ids_at(nid@, take_members(ks, u0, mk.take(i as int)).0),
            used_set(used@) == take_members(ks, u0, mk.take(i as int)).1,
        decreases keys@.len() - i,
    {
        let ghost pre = mk.take(i + 1);
        let ghost prev = take_members(ks, u0, mk.take(i as int));
        proof {
            assert(pre.drop_last() =~= mk.take(i as int));
            assert(pre.last() == mk[i as int]);
        }
        let ghost before = m@;
        match take_free(nk, used, &keys[i]) {
            Some(j) => {
                m.push(nid[j]);
                proof {
                    assert(take_members(ks, u0, pre) == (prev.0.push(j as int), prev.1.insert(j as int)));
                    lemma_map_values_push(prev.0, j as int, |k: int| nid@[k]);
                }
            },
            None => {
                proof {
                    assert(take_members(ks, u0, pre) == prev);
                }
            },
        }
        i = i + 1;
    }
    proof {
        assert(mk.take(keys@.len() as int) =~= mk);
    }
    m
}

pub open spec fn saved_groups(sgs: Seq<SavedGroup>) -> Seq<SavedGroupModel> {
    sgs.map_values(|g: SavedGroup| g@)
}

fn rebuild_groups_exec(nk: &Vec<String>, nid: &Vec<u32>, sgs: &Vec<SavedGroup>) -> (gs: Vec<Group>)
    requires
        nid@.len() == nk@.len(),
    ensures
        group_views(gs@) == rebuild_groups(texts(nk@), nid@, Set::empty(), saved_groups(sgs@)).0,
{
    let ghost ks = texts(nk@);
    let ghost sv = saved_groups(sgs@);
    let mut used = flags(nk.len());
    proof {
        assert(used_set(used@) =~= Set::<int>::empty());
    }
    let mut gs: Vec<Group> = Vec::new();
    let mut i: usize = 0;
    while i < sgs.len()
        invariant
            i <= sgs@.len(),
            ks == texts(nk@),
            sv == saved_groups(sgs@),
            used@.len() == nk@.len(),
            nid@.len() == nk@.len(),
            group_views(gs@) == rebuild_groups(ks, nid@, Set::empty(), sv.take(i as int)).0,
            used_set(used@) == rebuild_groups(ks, nid@, Set::empty(), sv.take(i as int)).1,
        decreases sgs@.len() - i,
    {
        let ghost pre = sv.take(i + 1);
        proof {
            assert(pre.drop_last() =~= sv.take(i as int));
            assert(pre.last() == sv[i as int]);
        }
        let sg = &sgs[i];
        let members = take_members_exec(nk, nid, &mut used, &sg.members);
        let g = Group { id: sg.id, name: sg.name.clone(), collapsed: sg.collapsed, members };
        let ghost before = gs@;
        gs.push(g);
        proof {
            lemma_map_values_push(before, g, |g: Group| g@);
        }
        i = i + 1;
    }
    proof {
        assert(sv.take(sgs@.len() as int) =~= sv);
    }
    gs
}

pub open spec fn saved_slots(slots: Seq<SavedDisplaySlot>) -> Seq<SavedSlotModel> {
    slots.map_values(|s: SavedDisplaySlot| s@)
}

fn grouped_flags(nid: &Vec<u32>, gs: &Vec<Group>) -> (used: Vec<bool>)
    ensures
        used@.len() == nid@.len(),
        used_set(used@) == grouped_positions(nid@, group_views(gs@)),
{
    let ghost gv = group_views(gs@);
    let mut used: Vec<bool> = Vec::new();
    let mut i: usize = 0;
    while i < nid.len()
        invariant
            i <= nid@.len(),
            gv == group_views(gs@),
            used@.len() == i,
            forall|j: int| 0 <= j < i ==> used@[j] == any_match(gv, has_member(nid@[j])),
        decreases nid@.len() - i,
    {
        let found = find_member_group(gs, nid[i]);
        proof {
            lemma_any_match_first(gv, has_member(nid@[i as int]));
        }
        used.push(found.is_some());
        i = i + 1;
    }
    proof {
        assert(used_set(used@) =~= grouped_positions(nid@, gv));
    }
    used
}

fn rebuild_slots_exec(nk: &Vec<String>, nid: &Vec<u32>, gs: &Vec<Group>, slots: &Vec<SavedDisplaySlot>) -> (d: Vec<DisplaySlot>)
    requires
        nid@.len() == nk@.len(),
    ensures
        d@ == rebuild_slots(
            texts(nk@),
            nid@,
            group_views(gs@),
            grouped_positions(nid@, group_views(gs@)),
            saved_slots(slots@),
        ).0,
{
    let ghost ks = texts(nk@);
    let ghost gv = group_views(gs@);
    let ghost sv = saved_slots(slots@);
    let mut used = grouped_flags(nid, gs);
    let ghost u0 = used_set(used@);
    let mut d: Vec<DisplaySlot> = Vec::new();
    let mut i: usize = 0;
    while i < slots.len()
        invariant
            i <= slots@.len(),
            ks == texts(nk@),
            gv == group_views(gs@),
            sv == saved_slots(slots@),
            u0 == grouped_positions(nid@, gv),
            used@.len() == nk@.len(),
            nid@.len() == nk@.len(),
            d@ == rebuild_slots(ks, nid@, gv, u0, sv.take(i as int)).0,
            used_set(used@) == rebuild_slots(ks, nid@, gv, u0, sv.take(i as int)).1,
        decreases slots@.len() - i,
    {
        let ghost pre = sv.take(i + 1);
        let ghost prev = rebuild_slots(ks, nid@, gv, u0, sv.take(i as int));
        proof {
            assert(pre.drop_last() =~= sv.take(i as int));
            assert(pre.last() == sv[i as int]);
        }
        match &slots[i] {
            SavedDisplaySlot::Window(key) => {
                match take_free(nk, &mut used, key) {
                    Some(j) => {
                        d.push(DisplaySlot::Window(nid[j]));
                        proof {
                            assert(rebuild_slots(ks, nid@, gv, u0, pre) == (prev.0.push(DisplaySlot::Window(nid@[j as int])), prev.1.insert(j as int)));
                        }
                    },
                    None => {
                        proof {
                            assert(rebuild_slots(ks, nid@, gv, u0, pre) == prev);
                        }
                    },
                }
            },
            SavedDisplaySlot::Group(g) => {
                let found = find_group(gs, *g);
                proof {
                    lemma_any_match_first(gv, has_gid(*g));
                }
                if found.is_some() {
                    d.push(DisplaySlot::Group(*g));
                }
            },
        }
        i = i + 1;
    }
    proof {
        assert(sv.take(slots@.len() as int) =~= sv);
    }
    d
}

/// The state `m` restored from snapshot `s`, with renames `renames`:
/// windows sorted by the saved positions they take, groups and display slots
/// rebuilt on the sorted windows, and the group counter at least one.
/// The active window and the hidden set are kept.
pub open spec fn restored(m: StateModel, s: SavedModel, renames: Map<u32, Seq<char>>) -> StateModel {
    let cl = claims(s.window_order, window_keys(m.windows));
    let ws = pick(m.windows, restored_order(cl, s.window_order.len() as int));
    let gs = rebuild_groups(window_keys(ws), window_ids(ws), Set::empty(), s.groups).0;
    StateModel {
        windows: ws,
        renames: renames,
        groups: gs,
        display_order: rebuild_slots(
            window_keys(ws),
            window_ids(ws),
            gs,
            grouped_positions(window_ids(ws), gs),
            s.display_order,
        ).0,
        next_group_id: if s.next_group_id >= 1 {
            s.next_group_id
        } else {
            1
        },
        ..m
    }
}

/// The parts of a restored state, computed from the current windows and a snapshot.
pub(crate) fn restore_parts(ws: &Vec<WindowEntry>, saved: &SavedState) -> (r: (Vec<WindowEntry>, HashMap<u32, String>, Vec<Group>, Vec<DisplaySlot>))
    requires
        saved@.window_order.len() + ws@.len() <= usize::MAX,
    ensures
        ({
            let m = StateModel {
                windows: window_views(ws@),
                active: None,
                renames: Map::empty(),
                hidden: Set::empty(),
                groups: seq![],
                display_order: seq![],
                next_group_id: 0,
            };
            let want = restored(m, saved@, text_map(r.1@));
            &&& window_views(r.0@) == want.windows
            &&& group_views(r.2@) == want.groups
            &&& r.3@ == want.display_order
            &&& renames_restored(
                text_map(r.1@),
                window_views(ws@),
                claims(saved@.window_order, window_keys(window_views(ws@))),
                saved@,
                ws@.len() as int,
            )
        }),
{
    let keys = keys_of(ws);
    let cl = claim_positions(&saved.window_order, &keys);
    proof {
        lemma_claims_len(texts(saved.window_order@), texts(keys@));
        assert(cl@.len() == as_ints(cl@).len());
    }
    let windows = restored_windows(ws, &cl, saved.window_order.len());
    let renames = restored_renames(ws, &cl, saved);
    let nk = keys_of(&windows);
    let nid = ids_of(&windows);
    proof {
        assert(nk@.len() == texts(nk@).len());
    }
    let groups = rebuild_groups_exec(&nk, &nid, &saved.groups);
    let order = rebuild_slots_exec(&nk, &nid, &groups, &saved.display_order);
    (windows, renames, groups, order)
}

} // verus!
