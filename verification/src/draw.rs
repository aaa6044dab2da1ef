//! What the panel paints: the rectangles and texts of one frame, each with the
//! colour role it is drawn in, computed from the panel's state. Turning roles
//! into pixels and the list into X11 requests is left to the caller.
use vstd::prelude::*;

use crate::panel::{
    decimal, digit_char, find_group_index, group_at, group_views, has_wid, row_top, gap_at, App,
    DisplayRow, Group, GroupView, Item, PanelModel, MAX_ROWS,
};
use crate::search::{first_match, lemma_map_values_push};

verus! {

broadcast use vstd::string::group_string_axioms;

/// Number of colours group headers cycle through.
pub const GROUP_COLOR_COUNT: usize = 6;

/// Most characters a full-width row shows: `(ITEM_W - 12) / CHAR_WIDTH`.
pub const HEADER_MAX_CHARS: usize = 27;

/// `s` cut to its first `n` characters (all of it when shorter).
pub open spec fn take_chars(s: Seq<char>, n: int) -> Seq<char> {
    if n < s.len() {
        s.take(n)
    } else {
        s
    }
}

fn digit_text(d: u64) -> (s: &'static str)
    requires
        d < 10,
    ensures
        s@ == seq![digit_char(d as int)],
{
    match d {
        0 => {
            proof {
                reveal_strlit("0");
            }
            "0"
        },
        1 => {
            proof {
                reveal_strlit("1");
            }
            "1"
        },
        2 => {
            proof {
                reveal_strlit("2");
            }
            "2"
        },
        3 => {
            proof {
                reveal_strlit("3");
            }
            "3"
        },
        4 => {
            proof {
                reveal_strlit("4");
            }
            "4"
        },
        5 => {
            proof {
                reveal_strlit("5");
            }
            "5"
        },
        6 => {
            proof {
                reveal_strlit("6");
            }
            "6"
        },
        7 => {
            proof {
                reveal_strlit("7");
            }
            "7"
        },
        8 => {
            proof {
                reveal_strlit("8");
            }
            "8"
        },
        _ => {
            proof {
                reveal_strlit("9");
            }
            "9"
        },
    }
}

/// `n` written in decimal digits, without sign or leading zeros.
pub fn decimal_text(n: u64) -> (s: String)
    ensures
        s@ == decimal(n as nat),
    decreases n,
{
    if n < 10 {
        String::from_str(digit_text(n))
    } else {
        let mut s = decimal_text(n / 10);
        s.append(digit_text(n % 10));
        s
    }
}

/// The first `n` characters of `s` (all of it when shorter).
pub fn take_chars_text(s: &str, n: usize) -> (r: String)
    ensures
        r@ == take_chars(s@, n as int),
{
    let len = s.unicode_len();
    let k = if n < len {
        n
    } else {
        len
    };
    let r = s.substring_char(0, k).to_owned();
    proof {
        if n < len {
            assert(r@ =~= s@.take(n as int));
        } else {
            assert(r@ =~= s@);
        }
    }
    r
}

/// "+ name" for a collapsed group, "- name" for an expanded one.
pub open spec fn header_title(name: Seq<char>, collapsed: bool) -> Seq<char> {
    seq![if collapsed { '+' } else { '-' }, ' '] + name
}

/// "(n)".
pub open spec fn count_text(n: nat) -> Seq<char> {
    seq!['('] + decimal(n) + seq![')']
}

/// A group header's title cut to `max_chars` characters and, for a collapsed
/// group, its member count in brackets.
pub fn group_header_text(name: &str, collapsed: bool, member_count: usize, max_chars: usize) -> (r: (String, Option<String>))
    ensures
        r.0@ == take_chars(header_title(name@, collapsed), max_chars as int),
        match r.1 {
            Some(c) => collapsed && c@ == count_text(member_count as nat),
            None => !collapsed,
        },
{
    let mut title = if collapsed {
        proof {
            reveal_strlit("+ ");
        }
        String::from_str("+ ")
    } else {
        proof {
            reveal_strlit("- ");
        }
        String::from_str("- ")
    };
    title.append(name);
    proof {
        assert(title@ =~= header_title(name@, collapsed));
    }
    let shown = take_chars_text(title.as_str(), max_chars);
    let count = if collapsed {
        proof {
            reveal_strlit("(");
            reveal_strlit(")");
        }
        let mut c = String::from_str("(");
        let digits = decimal_text(member_count as u64);
        c.append(digits.as_str());
        c.append(")");
        proof {
            assert(c@ =~= count_text(member_count as nat));
        }
        Some(c)
    } else {
        None
    };
    (shown, count)
}

/// Which of the `n` group colours group `gid` is drawn in.
pub fn group_color_index(gid: u32, n: usize) -> (i: usize)
    requires
        n > 0,
    ensures
        i == gid as int % n as int,
{
    let r: u64 = (gid as u64) % (n as u64);
    assert(r < n);
    r as usize
}

// ── The frame ──

/// The colour a rectangle or text is drawn in.
#[derive(Clone, Copy, Debug, PartialEq, Eq, Structural)]
pub enum ColorRole {
    Background,
    Item,
    Active,
    Hover,
    Dragged,
    GroupHeader,
    Border,
    Accent(u32),
    ActiveStripe,
    GroupColor(usize),
    Indicator,
    Text,
    TextDim,
}

/// One drawing step: a filled rectangle, or a text whose baseline starts at
/// `(x, y)`.
#[derive(Debug)]
pub enum DrawOp {
    Fill { x: i16, y: i16, width: u16, height: u16, role: ColorRole },
    Text { x: i16, y: i16, text: String, role: ColorRole },
}

pub enum DrawOpView {
    Fill { x: i16, y: i16, width: u16, height: u16, role: ColorRole },
    Text { x: i16, y: i16, text: Seq<char>, role: ColorRole },
}

impl View for DrawOp {
    type V = DrawOpView;

    open spec fn view(&self) -> DrawOpView {
        match self {
            DrawOp::Fill { x, y, width, height, role } => DrawOpView::Fill {
                x: *x,
                y: *y,
                width: *width,
                height: *height,
                role: *role,
            },
            DrawOp::Text { x, y, text, role } => DrawOpView::Text { x: *x, y: *y, text: text@, role: *role },
        }
    }
}

pub open spec fn op_views(ops: Seq<DrawOp>) -> Seq<DrawOpView> {
    ops.map_values(|o: DrawOp| o@)
}

pub open spec fn fill(x: int, y: int, w: int, h: int, role: ColorRole) -> DrawOpView {
    DrawOpView::Fill { x: x as i16, y: y as i16, width: w as u16, height: h as u16, role }
}

pub open spec fn text(x: int, y: int, t: Seq<char>, role: ColorRole) -> DrawOpView {
    DrawOpView::Text { x: x as i16, y: y as i16, text: t, role }
}

/// A window row at `(x, y)`, `w` wide: its background (ghost, active, hovered
/// or plain, in that precedence), its 3-pixel stripe (blue for the active
/// window, else the window's accent) and, when not empty, its label cut to
/// what fits.
#[verifier::opaque]
pub open spec fn item_ops(it: Item, x: int, y: int, w: int, ghost: bool, hovered: bool, active: bool) -> Seq<DrawOpView> {
    let bg = if ghost {
        ColorRole::Dragged
    } else if active {
        ColorRole::Active
    } else if hovered {
        ColorRole::Hover
    } else {
        ColorRole::Item
    };
    let stripe = if active {
        ColorRole::ActiveStripe
    } else {
        ColorRole::Accent(it.accent_pixel)
    };
    let label = take_chars(it.label@, (w - 12) / 8);
    seq![fill(x, y, w, 28, bg), fill(x, y, 3, 28, stripe)] + if label.len() > 0 {
        seq![text(x + 8, y + 18, label, ColorRole::Text)]
    } else {
        seq![]
    }
}

/// A group header at height `y`: background, top border line, the group's
/// colour stripe, its title and, when collapsed, its dimmed member count just
/// after the title.
#[verifier::opaque]
pub open spec fn header_ops(g: GroupView, y: int, hovered: bool) -> Seq<DrawOpView> {
    let title = take_chars(header_title(g.name, g.collapsed), HEADER_MAX_CHARS as int);
    seq![
        fill(8, y, 234, 28, if hovered { ColorRole::Hover } else { ColorRole::GroupHeader }),
        fill(8, y, 234, 1, ColorRole::Border),
        fill(8, y, 3, 28, ColorRole::GroupColor((g.id as int % GROUP_COLOR_COUNT as int) as usize)),
        text(16, y + 18, title, ColorRole::Text),
    ] + if g.collapsed {
        seq![text(
            16 + (vstd::utf8::encode_utf8(title).len() as int + 1) * 8,
            y + 18,
            count_text(g.members.len()),
            ColorRole::TextDim,
        )]
    } else {
        seq![]
    }
}

/// "name (+n)".
pub open spec fn ghost_title(g: GroupView) -> Seq<char> {
    g.name + seq![' ', '(', '+'] + decimal(g.members.len()) + seq![')']
}

/// A dragged group header drawn at height `y`.
#[verifier::opaque]
pub open spec fn ghost_header_ops(gs: Seq<GroupView>, gid: u32, y: int) -> Seq<DrawOpView> {
    let p = group_at(gs, gid);
    seq![fill(8, y, 234, 28, ColorRole::Dragged)] + if p >= 0 {
        seq![text(16, y + 18, ghost_title(gs[p]), ColorRole::Text)]
    } else {
        seq![]
    }
}

/// Left edge of a window row: indented inside a group.
pub open spec fn row_x(group_id: Option<u32>) -> int {
    if group_id is Some { 24 } else { 8 }
}

pub open spec fn row_w(group_id: Option<u32>) -> int {
    if group_id is Some { 218 } else { 234 }
}

pub open spec fn dragging_row(m: PanelModel, i: int) -> bool {
    m.drag matches Some(d) && d.started && d.source_row == i
}

/// What row `i` paints: nothing for the row being dragged, or whose window or
/// group is unknown; else its header or window ops.
#[verifier::opaque]
pub open spec fn row_ops(m: PanelModel, i: int) -> Seq<DrawOpView> {
    if dragging_row(m, i) {
        seq![]
    } else {
        let y = row_top(i);
        let hovered = m.hover_row == Some(i as usize);
        match m.rows[i] {
            DisplayRow::GroupHeader { group_id } => {
                let p = group_at(m.groups, group_id);
                if p >= 0 {
                    header_ops(m.groups[p], y, hovered)
                } else {
                    seq![]
                }
            },
            DisplayRow::Window { wid, group_id } => {
                let k = first_match(m.items, has_wid(wid));
                if k >= 0 {
                    item_ops(m.items[k], row_x(group_id), y, row_w(group_id), false, hovered, m.active_wid == Some(wid))
                } else {
                    seq![]
                }
            },
        }
    }
}

/// The ops of the first `n` rows, in row order.
pub open spec fn rows_plan(m: PanelModel, n: int) -> Seq<DrawOpView>
    decreases n,
{
    if n <= 0 {
        seq![]
    } else {
        rows_plan(m, n - 1) + row_ops(m, n - 1)
    }
}

/// Height of the drop indicator: just above the gap's row, below the last
/// row when the gap is at the end, or at the top of an empty list.
pub open spec fn indicator_y(n: int, gap: int) -> int {
    if gap < n {
        row_top(gap) - 1
    } else if n > 0 {
        row_top(n - 1) + 29
    } else {
        8
    }
}

/// The dragged row redrawn as a ghost at height `y`.
#[verifier::opaque]
pub open spec fn ghost_ops(m: PanelModel, r: int, y: int) -> Seq<DrawOpView> {
    match m.rows[r] {
        DisplayRow::GroupHeader { group_id } => ghost_header_ops(m.groups, group_id, y),
        DisplayRow::Window { wid, group_id } => {
            let k = first_match(m.items, has_wid(wid));
            if k >= 0 {
                item_ops(m.items[k], row_x(group_id), y, row_w(group_id), true, false, false)
            } else {
                seq![]
            }
        },
    }
}

/// While a drag has started: the drop indicator, then the ghost of the
/// dragged row centred on the pointer.
#[verifier::opaque]
pub open spec fn drag_ops(m: PanelModel) -> Seq<DrawOpView> {
    match m.drag {
        Some(d) => if d.started {
            let n = m.rows.len() as int;
            seq![fill(8, indicator_y(n, gap_at(n, d.current_y as int)), 234, 2, ColorRole::Indicator)]
                + if d.source_row < n {
                ghost_ops(m, d.source_row as int, d.current_y - 14)
            } else {
                seq![]
            }
        } else {
            seq![]
        },
        None => seq![],
    }
}

/// One frame: the cleared background, every row, then the drag visuals.
pub open spec fn draw_plan_of(m: PanelModel) -> Seq<DrawOpView> {
    seq![fill(0, 0, m.width as int, m.height as int, ColorRole::Background)] + rows_plan(m, m.rows.len() as int)
        + drag_ops(m)
}

// ── Building the frame ──

proof fn lemma_utf8_len(s: Seq<char>)
    ensures
        vstd::utf8::encode_utf8(s).len() <= 4 * s.len(),
    decreases s.len(),
{
    if s.len() > 0 {
        lemma_utf8_len(s.drop_first());
    }
}

fn push_op(ops: &mut Vec<DrawOp>, op: DrawOp)
    ensures
        op_views(final(ops)@) == op_views(old(ops)@).push(op@),
{
    proof {
        lemma_map_values_push(ops@, op, |o: DrawOp| o@);
    }
    ops.push(op);
}

fn push_item_ops(
    ops: &mut Vec<DrawOp>,
    it: &Item,
    x: i16,
    y: i16,
    w: u16,
    ghost: bool,
    hovered: bool,
    active: bool,
)
    requires
        x == 8 || x == 24,
        w == 234 || w == 218,
        y + 18 <= i16::MAX,
    ensures
        op_views(final(ops)@) == op_views(old(ops)@) + item_ops(*it, x as int, y as int, w as int, ghost, hovered, active),
{
    proof {
        reveal(item_ops);
    }
    let ghost start = op_views(ops@);
    let bg = if ghost {
        ColorRole::Dragged
    } else if active {
        ColorRole::Active
    } else if hovered {
        ColorRole::Hover
    } else {
        ColorRole::Item
    };
    let stripe = if active {
        ColorRole::ActiveStripe
    } else {
        ColorRole::Accent(it.accent_pixel)
    };
    push_op(ops, DrawOp::Fill { x, y, width: w, height: 28, role: bg });
    push_op(ops, DrawOp::Fill { x, y, width: 3, height: 28, role: stripe });
    let max_chars: usize = ((w - 12) / 8) as usize;
    let label = take_chars_text(it.label.as_str(), max_chars);
    if !label.as_str().is_empty() {
        push_op(ops, DrawOp::Text { x: x + 8, y: y + 18, text: label, role: ColorRole::Text });
    }
    proof {
        assert(op_views(ops@) =~= start + item_ops(*it, x as int, y as int, w as int, ghost, hovered, active));
    }
}

fn push_header_ops(ops: &mut Vec<DrawOp>, g: &Group, y: i16, hovered: bool)
    requires
        y + 18 <= i16::MAX,
    ensures
        op_views(final(ops)@) == op_views(old(ops)@) + header_ops(g@, y as int, hovered),
{
    proof {
        reveal(header_ops);
    }
    let ghost start = op_views(ops@);
    let bg = if hovered {
        ColorRole::Hover
    } else {
        ColorRole::GroupHeader
    };
    push_op(ops, DrawOp::Fill { x: 8, y, width: 234, height: 28, role: bg });
    push_op(ops, DrawOp::Fill { x: 8, y, width: 234, height: 1, role: ColorRole::Border });
    let c = group_color_index(g.id, GROUP_COLOR_COUNT);
    push_op(ops, DrawOp::Fill { x: 8, y, width: 3, height: 28, role: ColorRole::GroupColor(c) });
    let (title, count) = group_header_text(g.name.as_str(), g.collapsed, g.member_wids.len(), HEADER_MAX_CHARS);
    let b = title.as_str().len();
    proof {
        lemma_utf8_len(title@);
    }
    let ghost title_view = title@;
    push_op(ops, DrawOp::Text { x: 16, y: y + 18, text: title, role: ColorRole::Text });
    match count {
        Some(t) => {
            let bx: i16 = b as i16;
            push_op(ops, DrawOp::Text { x: 16 + (bx + 1) * 8, y: y + 18, text: t, role: ColorRole::TextDim });
        },
        None => {},
    }
    proof {
        assert(title_view == take_chars(header_title(g@.name, g@.collapsed), HEADER_MAX_CHARS as int));
        assert(op_views(ops@) =~= start + header_ops(g@, y as int, hovered));
    }
}

fn push_ghost_header(ops: &mut Vec<DrawOp>, groups: &Vec<Group>, gid: u32, y: i16)
    requires
        y + 18 <= i16::MAX,
    ensures
        op_views(final(ops)@) == op_views(old(ops)@) + ghost_header_ops(group_views(groups@), gid, y as int),
{
    proof {
        reveal(ghost_header_ops);
    }
    let ghost start = op_views(ops@);
    push_op(ops, DrawOp::Fill { x: 8, y, width: 234, height: 28, role: ColorRole::Dragged });
    match find_group_index(groups, gid) {
        Some(p) => {
            let g = &groups[p];
            let mut t = String::from_str(g.name.as_str());
            proof {
                reveal_strlit(" (+");
                reveal_strlit(")");
            }
            t.append(" (+");
            let digits = decimal_text(g.member_wids.len() as u64);
            t.append(digits.as_str());
            t.append(")");
            proof {
                assert(group_views(groups@)[p as int] == g@);
                assert(t@ =~= ghost_title(g@));
            }
            push_op(ops, DrawOp::Text { x: 16, y: y + 18, text: t, role: ColorRole::Text });
        },
        None => {},
    }
    proof {
        assert(op_views(ops@) =~= start + ghost_header_ops(group_views(groups@), gid, y as int));
    }
}

fn push_row_ops(ops: &mut Vec<DrawOp>, app: &App, i: usize)
    requires
        i < app.display_rows@.len() <= MAX_ROWS,
    ensures
        op_views(final(ops)@) == op_views(old(ops)@) + row_ops(app@, i as int),
{
    proof {
        reveal(row_ops);
    }
    let ghost start = op_views(ops@);
    match app.drag {
        Some(d) => {
            if d.started && d.source_row == i {
                assert(op_views(ops@) =~= start + row_ops(app@, i as int));
                return;
            }
        },
        None => {},
    }
    let y = app.row_y(i);
    let hovered = match app.hover_row {
        Some(h) => h == i,
        None => false,
    };
    match app.display_rows[i] {
        DisplayRow::GroupHeader { group_id } => {
            match find_group_index(&app.groups, group_id) {
                Some(p) => {
                    push_header_ops(ops, &app.groups[p], y, hovered);
                },
                None => {},
            }
        },
        DisplayRow::Window { wid, group_id } => {
            match app.find_item(wid) {
                Some(it) => {
                    let x: i16 = if group_id.is_some() { 24 } else { 8 };
                    let w: u16 = if group_id.is_some() { 218 } else { 234 };
                    let active = match app.active_wid {
                        Some(a) => a == wid,
                        None => false,
                    };
                    push_item_ops(ops, it, x, y, w, false, hovered, active);
                },
                None => {},
            }
        },
    }
    proof {
        assert(op_views(ops@) =~= start + row_ops(app@, i as int));
    }
}

fn push_ghost_ops(ops: &mut Vec<DrawOp>, app: &App, r: usize, gy: i16)
    requires
        r < app.display_rows@.len(),
        gy + 18 <= i16::MAX,
    ensures
        op_views(final(ops)@) == op_views(old(ops)@) + ghost_ops(app@, r as int, gy as int),
{
    proof {
        reveal(ghost_ops);
    }
    let ghost start = op_views(ops@);
    match app.display_rows[r] {
        DisplayRow::GroupHeader { group_id } => {
            push_ghost_header(ops, &app.groups, group_id, gy);
        },
        DisplayRow::Window { wid, group_id } => {
            match app.find_item(wid) {
                Some(it) => {
                    let x: i16 = if group_id.is_some() { 24 } else { 8 };
                    let w: u16 = if group_id.is_some() { 218 } else { 234 };
                    push_item_ops(ops, it, x, gy, w, true, false, false);
                },
                None => {},
            }
        },
    }
    proof {
        assert(op_views(ops@) =~= start + ghost_ops(app@, r as int, gy as int));
    }
}

fn indicator_at(app: &App, y: i16) -> (iy: i16)
    requires
        app.display_rows@.len() <= MAX_ROWS,
    ensures
        iy as int == indicator_y(app.display_rows@.len() as int, gap_at(app.display_rows@.len() as int, y as int)),
{
    let n = app.display_rows.len();
    let gap = app.drop_index_from_y(y);
    if gap < n {
        app.row_y(gap) - 1
    } else if n > 0 {
        app.row_y(n - 1) + 29
    } else {
        8
    }
}

#[verifier::spinoff_prover]
#[verifier::rlimit(40)]
fn push_drag_ops(ops: &mut Vec<DrawOp>, app: &App)
    requires
        app.display_rows@.len() <= MAX_ROWS,
        app.drag matches Some(d) ==> (d.started ==> i16::MIN + 14 <= d.current_y <= i16::MAX - 4),
    ensures
        op_views(final(ops)@) == op_views(old(ops)@) + drag_ops(app@),
{
    proof {
        reveal(drag_ops);
    }
    let n = app.display_rows.len();
    let ghost before = op_views(ops@);
    match app.drag {
        Some(d) => {
            if d.started {
                let iy = indicator_at(app, d.current_y);
                push_op(ops, DrawOp::Fill { x: 8, y: iy, width: 234, height: 2, role: ColorRole::Indicator });
                let ghost mid = op_views(ops@);
                assert(mid =~= before + seq![fill(8, iy as int, 234, 2, ColorRole::Indicator)]);
                if d.source_row < n {
                    let gy = d.current_y - 14;
                    push_ghost_ops(ops, app, d.source_row, gy);
                    assert(op_views(ops@) =~= before + drag_ops(app@));
                } else {
                    assert(op_views(ops@) =~= before + drag_ops(app@));
                }
            } else {
                assert(op_views(ops@) =~= before + drag_ops(app@));
            }
        },
        None => {
            assert(op_views(ops@) =~= before + drag_ops(app@));
        },
    }
}

proof fn lemma_rows_plan_step(m: PanelModel, i: int)
    requires
        i >= 0,
    ensures
        rows_plan(m, i + 1) == rows_plan(m, i) + row_ops(m, i),
{
}

/// The frame to paint for the panel's current state.
pub fn draw_plan(app: &App) -> (ops: Vec<DrawOp>)
    requires
        app.display_rows@.len() <= MAX_ROWS,
        app.drag matches Some(d) ==> (d.started ==> i16::MIN + 14 <= d.current_y <= i16::MAX - 4),
    ensures
        op_views(ops@) == draw_plan_of(app@),
{
    let mut ops: Vec<DrawOp> = Vec::new();
    push_op(&mut ops, DrawOp::Fill { x: 0, y: 0, width: app.width, height: app.height, role: ColorRole::Background });
    let n = app.display_rows.len();
    let ghost bg = fill(0, 0, app.width as int, app.height as int, ColorRole::Background);
    assert(op_views(ops@) =~= seq![bg] + rows_plan(app@, 0));
    let mut i: usize = 0;
    while i < n
        invariant
            i <= n,
            n == app.display_rows@.len(),
            n <= MAX_ROWS,
            op_views(ops@) == seq![bg] + rows_plan(app@, i as int),
        decreases n - i,
    {
        push_row_ops(&mut ops, app, i);
        proof {
            lemma_rows_plan_step(app@, i as int);
            assert(seq![bg] + rows_plan(app@, i + 1) =~= seq![bg] + rows_plan(app@, i as int) + row_ops(app@, i as int));
        }
        i = i + 1;
    }
    push_drag_ops(&mut ops, app);
    ops
}

} // verus!
