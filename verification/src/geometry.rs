use vstd::prelude::*;

verus! {

/// A rectangle (position + size).
#[derive(Debug, Clone, Copy)]
pub struct Rect {
    pub x: i32,
    pub y: i32,
    pub width: u32,
    pub height: u32,
}

/// The position to move a window to when snapping it to the sidebar.
#[derive(Debug, Clone, Copy, PartialEq, Eq, Structural)]
pub struct SnapPosition {
    pub x: i32,
    pub y: i32,
}

/// Window manager frame extents (decoration borders around the client area).
#[derive(Debug, Clone, Copy, Default)]
pub struct FrameExtents {
    pub left: u32,
    pub right: u32,
    pub top: u32,
    pub bottom: u32,
}

/// The value a `u32` takes when reinterpreted as an `i32` (two's complement).
pub open spec fn as_signed(w: u32) -> int {
    if w <= i32::MAX { w as int } else { w as int - 0x1_0000_0000 }
}

/// `v` clamped into `[lo, hi]` (meaningful when `lo <= hi`).
pub open spec fn clamp_int(v: int, lo: int, hi: int) -> int {
    if v < lo { lo } else if v > hi { hi } else { v }
}

/// The snapped x: `v` clamped into `[lo, hi]`; when the workarea's right
/// edge `hi` lies left of its left edge `lo` (a width past `i32::MAX`), only
/// capped at `hi`.
pub open spec fn clamp_x(v: int, lo: int, hi: int) -> int {
    if lo <= hi {
        clamp_int(v, lo, hi)
    } else if v <= hi {
        v
    } else {
        hi
    }
}

pub open spec fn fits_i32(v: int) -> bool {
    i32::MIN <= v <= i32::MAX
}

/// Right edge of a rectangle, `x + width`, with the width reinterpreted as signed.
pub open spec fn right_edge(r: Rect) -> int {
    r.x + as_signed(r.width)
}

/// Bottom edge of a rectangle, `y + height`, with the height reinterpreted as signed.
pub open spec fn bottom_edge(r: Rect) -> int {
    r.y + as_signed(r.height)
}

/// A workarea whose edges are representable and whose height is
/// non-negative as a signed value, so clamping y into it is defined.
pub open spec fn workarea_ok(workarea: Rect) -> bool {
    &&& fits_i32(right_edge(workarea))
    &&& fits_i32(bottom_edge(workarea))
    &&& workarea.height <= i32::MAX
}

pub(crate) fn signed(w: u32) -> (r: i32)
    ensures
        r as int == as_signed(w),
{
    proof {
        assert(w <= 0x7fff_ffffu32 ==> (w as i32) as int == w as int) by (bit_vector);
        assert(w > 0x7fff_ffffu32 ==> (w as i32) as int == w as int - 0x1_0000_0000int)
            by (bit_vector);
    }
    w as i32
}

fn clamp_i32(v: i32, lo: i32, hi: i32) -> (r: i32)
    requires
        lo <= hi,
    ensures
        r as int == clamp_int(v as int, lo as int, hi as int),
{
    if v < lo {
        lo
    } else if v > hi {
        hi
    } else {
        v
    }
}

fn clamp_x_i32(v: i32, lo: i32, hi: i32) -> (r: i32)
    ensures
        r as int == clamp_x(v as int, lo as int, hi as int),
{
    if lo <= hi {
        clamp_i32(v, lo, hi)
    } else if v <= hi {
        v
    } else {
        hi
    }
}

/// Calculate where to place a window so it snaps to the right edge of the sidebar.
/// Clamps to keep within the workarea bounds.
pub fn snap_position(sidebar: &Rect, workarea: &Rect) -> (pos: SnapPosition)
    requires
        fits_i32(right_edge(*sidebar)),
        workarea_ok(*workarea),
    ensures
        pos.x == clamp_x(right_edge(*sidebar), workarea.x as int, right_edge(*workarea)),
        pos.y == clamp_int(sidebar.y as int, workarea.y as int, bottom_edge(*workarea)),
{
    let x = sidebar.x + signed(sidebar.width);
    let y = sidebar.y;
    let max_x = workarea.x + signed(workarea.width);
    let x = clamp_x_i32(x, workarea.x, max_x);
    let max_y = workarea.y + signed(workarea.height);
    let y = clamp_i32(y, workarea.y, max_y);
    SnapPosition { x, y }
}

/// Client x of a target window whose frame's left edge touches the sidebar frame's right edge.
pub open spec fn framed_x(sidebar: Rect, sidebar_frame: FrameExtents, target_frame: FrameExtents) -> int {
    right_edge(sidebar) + as_signed(sidebar_frame.right) + as_signed(target_frame.left)
}

/// Client y of a target window whose title bar lines up with the sidebar's.
pub open spec fn framed_y(sidebar: Rect, sidebar_frame: FrameExtents, target_frame: FrameExtents) -> int {
    sidebar.y - as_signed(sidebar_frame.top) + as_signed(target_frame.top)
}

/// Calculate snap position accounting for window manager frame extents.
/// Aligns frame edges: target frame left touches sidebar frame right, title bars aligned.
/// Falls back to `snap_position` behavior when frames are zero.
pub fn snap_position_with_frames(
    sidebar: &Rect,
    sidebar_frame: &FrameExtents,
    target_frame: &FrameExtents,
    workarea: &Rect,
) -> (pos: SnapPosition)
    requires
        fits_i32(right_edge(*sidebar)),
        fits_i32(right_edge(*sidebar) + as_signed(sidebar_frame.right)),
        fits_i32(framed_x(*sidebar, *sidebar_frame, *target_frame)),
        fits_i32(sidebar.y - as_signed(sidebar_frame.top)),
        fits_i32(framed_y(*sidebar, *sidebar_frame, *target_frame)),
        fits_i32(right_edge(*workarea)),
        fits_i32(bottom_edge(*workarea)),
        fits_i32(workarea.y + as_signed(target_frame.top)),
        workarea.y + as_signed(target_frame.top) <= bottom_edge(*workarea),
    ensures
        pos.x == clamp_x(
            framed_x(*sidebar, *sidebar_frame, *target_frame),
            workarea.x as int,
            right_edge(*workarea),
        ),
        pos.y == clamp_int(
            framed_y(*sidebar, *sidebar_frame, *target_frame),
            workarea.y + as_signed(target_frame.top),
            bottom_edge(*workarea),
        ),
{
    let ptm_frame_right = sidebar.x + signed(sidebar.width) + signed(sidebar_frame.right);
    let x = ptm_frame_right + signed(target_frame.left);
    let ptm_frame_top = sidebar.y - signed(sidebar_frame.top);
    let y = ptm_frame_top + signed(target_frame.top);
    let max_x = workarea.x + signed(workarea.width);
    let x = clamp_x_i32(x, workarea.x, max_x);
    let max_y = workarea.y + signed(workarea.height);
    let y = clamp_i32(y, workarea.y + signed(target_frame.top), max_y);
    SnapPosition { x, y }
}

/// With zero frame extents on both windows, the frame-aware snap position is
/// exactly the plain snap position.
pub proof fn zero_frames_match_plain_snap(
    sidebar: Rect,
    sidebar_frame: FrameExtents,
    target_frame: FrameExtents,
    workarea: Rect,
)
    requires
        sidebar_frame.left == 0 && sidebar_frame.right == 0 && sidebar_frame.top == 0
            && sidebar_frame.bottom == 0,
        target_frame.left == 0 && target_frame.right == 0 && target_frame.top == 0
            && target_frame.bottom == 0,
    ensures
        clamp_x(framed_x(sidebar, sidebar_frame, target_frame), workarea.x as int, right_edge(workarea))
            == clamp_x(right_edge(sidebar), workarea.x as int, right_edge(workarea)),
        clamp_int(
            framed_y(sidebar, sidebar_frame, target_frame),
            workarea.y + as_signed(target_frame.top),
            bottom_edge(workarea),
        ) == clamp_int(sidebar.y as int, workarea.y as int, bottom_edge(workarea)),
{
}

/// The snapped x never passes the workarea's right edge, and stays right of
/// its left edge when the width is at most `i32::MAX`; the snapped y lies
/// within the workarea's vertical span.
pub proof fn snap_stays_in_workarea(sidebar: Rect, workarea: Rect)
    requires
        workarea_ok(workarea),
    ensures
        clamp_x(right_edge(sidebar), workarea.x as int, right_edge(workarea)) <= right_edge(workarea),
        workarea.width <= i32::MAX ==> workarea.x <= clamp_x(right_edge(sidebar), workarea.x as int, right_edge(workarea)),
        workarea.y <= clamp_int(sidebar.y as int, workarea.y as int, bottom_edge(workarea))
            <= bottom_edge(workarea),
{
}

/// Snapping with frames lines the frames up. Whenever the target position
/// at which its frame touches the sidebar's lies within the workarea's range,
/// the snapped target's frame top (its y less its top extent) is the
/// sidebar's frame top (its y less its own top extent), and the target's
/// frame left edge (its x less its left extent) is the sidebar frame's right
/// edge; for any frame extents. Otherwise the target's frame top stays at or
/// below the workarea's top, and its x at or left of the workarea's right edge.
pub proof fn snapped_frames_line_up(sidebar: Rect, sidebar_frame: FrameExtents, target_frame: FrameExtents, workarea: Rect)
    requires
        workarea.y + as_signed(target_frame.top) <= bottom_edge(workarea),
    ensures
        ({
            let x = clamp_x(framed_x(sidebar, sidebar_frame, target_frame), workarea.x as int, right_edge(workarea));
            let y = clamp_int(
                framed_y(sidebar, sidebar_frame, target_frame),
                workarea.y + as_signed(target_frame.top),
                bottom_edge(workarea),
            );
            let frame_top = sidebar.y - as_signed(sidebar_frame.top);
            let frame_right = right_edge(sidebar) + as_signed(sidebar_frame.right);
            &&& workarea.y <= frame_top && frame_top + as_signed(target_frame.top) <= bottom_edge(workarea)
                ==> y - as_signed(target_frame.top) == frame_top
            &&& workarea.x <= frame_right + as_signed(target_frame.left) <= right_edge(workarea)
                ==> x - as_signed(target_frame.left) == frame_right
            &&& y - as_signed(target_frame.top) >= workarea.y
            &&& y <= bottom_edge(workarea)
            &&& x <= right_edge(workarea)
        }),
{
}

/// Frame extents from a (left, right, top, bottom) tuple.
pub fn tuple_to_frame(t: (u32, u32, u32, u32)) -> (f: FrameExtents)
    ensures
        f.left == t.0,
        f.right == t.1,
        f.top == t.2,
        f.bottom == t.3,
{
    FrameExtents { left: t.0, right: t.1, top: t.2, bottom: t.3 }
}

} // verus!
