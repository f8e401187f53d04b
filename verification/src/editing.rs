//! Hand editing of a grid: the pointer gestures that move its origin,
//! draw its tile and set its stride, and the normalisation that keeps the
//! edited grid consistent with the image.
use vstd::prelude::*;
use crate::grid::min_int;
use crate::tiles::GridGeometry;

verus! {

/// `a - b`, or zero where `b` is larger.
pub open spec fn sat_sub(a: int, b: int) -> int {
    if a >= b { a - b } else { 0 }
}

/// The larger of two integers.
pub open spec fn max_int(a: int, b: int) -> int {
    if a >= b { a } else { b }
}

/// `|a - b|`.
pub open spec fn dist(a: int, b: int) -> int {
    if a >= b { a - b } else { b - a }
}

/// An edited grid brought back to a consistent state for an image of
/// `img_w` by `img_h`: strides of at least one, tiles between one pixel and
/// the stride, the origin inside the image, the margins as what the tile
/// leaves of the stride, and the cell counts that fit after the origin.
pub open spec fn normalized(g: GridGeometry, img_w: u32, img_h: u32) -> GridGeometry {
    let sx = max_int(g.stride_x as int, 1);
    let sy = max_int(g.stride_y as int, 1);
    let tw = min_int(max_int(g.tile_width as int, 1), sx);
    let th = min_int(max_int(g.tile_height as int, 1), sy);
    let ox = min_int(g.offset_x as int, sat_sub(img_w as int, 1));
    let oy = min_int(g.offset_y as int, sat_sub(img_h as int, 1));
    GridGeometry {
        tile_width: tw as u32,
        tile_height: th as u32,
        stride_x: sx as u32,
        stride_y: sy as u32,
        offset_x: ox as u32,
        offset_y: oy as u32,
        margin_x: (sx - tw) as u32,
        margin_y: (sy - th) as u32,
        columns: (sat_sub(img_w as int, ox) / sx) as u32,
        rows: (sat_sub(img_h as int, oy) / sy) as u32,
    }
}

/// Brings an edited grid back to a consistent state for an image of
/// `img_w` by `img_h`.
pub fn normalize_edited(g: &mut GridGeometry, img_w: u32, img_h: u32)
    ensures
        *final(g) == normalized(*old(g), img_w, img_h),
{
    let sx = if g.stride_x >= 1 { g.stride_x } else { 1 };
    let sy = if g.stride_y >= 1 { g.stride_y } else { 1 };
    let tw = if g.tile_width < 1 { 1 } else if g.tile_width > sx { sx } else { g.tile_width };
    let th = if g.tile_height < 1 { 1 } else if g.tile_height > sy { sy } else { g.tile_height };
    let ox = if g.offset_x <= img_w.saturating_sub(1) { g.offset_x } else { img_w.saturating_sub(1) };
    let oy = if g.offset_y <= img_h.saturating_sub(1) { g.offset_y } else { img_h.saturating_sub(1) };
    g.stride_x = sx;
    g.stride_y = sy;
    g.tile_width = tw;
    g.tile_height = th;
    g.offset_x = ox;
    g.offset_y = oy;
    g.margin_x = sx - tw;
    g.margin_y = sy - th;
    g.columns = img_w.saturating_sub(ox) / sx;
    g.rows = img_h.saturating_sub(oy) / sy;
}

/// A normalised grid is consistent: positive strides, tiles that fit in
/// them with the margins making up the rest, an origin inside a non-empty
/// image, and cells that fit after the origin; normalising it again
/// changes nothing.
pub proof fn lemma_normalized_consistent(g: GridGeometry, img_w: u32, img_h: u32)
    ensures
        ({
            let n = normalized(g, img_w, img_h);
            &&& n.stride_x >= 1 && n.stride_y >= 1
            &&& 1 <= n.tile_width <= n.stride_x && 1 <= n.tile_height <= n.stride_y
            &&& n.tile_width + n.margin_x == n.stride_x && n.tile_height + n.margin_y == n.stride_y
            &&& (img_w > 0 ==> n.offset_x < img_w) && (img_h > 0 ==> n.offset_y < img_h)
            &&& n.offset_x + n.columns * n.stride_x <= max_int(img_w as int, n.offset_x as int)
            &&& n.offset_y + n.rows * n.stride_y <= max_int(img_h as int, n.offset_y as int)
            &&& normalized(n, img_w, img_h) == n
        }),
{
    let n = normalized(g, img_w, img_h);
    let sx = n.stride_x as int;
    let sy = n.stride_y as int;
    let qx = sat_sub(img_w as int, n.offset_x as int);
    let qy = sat_sub(img_h as int, n.offset_y as int);
    assert((qx / sx) * sx <= qx) by (nonlinear_arith) requires sx >= 1, qx >= 0;
    assert((qy / sy) * sy <= qy) by (nonlinear_arith) requires sy >= 1, qy >= 0;
    assert(qx / sx <= qx) by (nonlinear_arith) requires sx >= 1, qx >= 0;
    assert(qy / sy <= qy) by (nonlinear_arith) requires sy >= 1, qy >= 0;
}

/// The mouse button held during a gesture on the overlay.
#[derive(Debug, Clone, Copy, PartialEq, Eq, Structural)]
pub enum DragButton {
    /// Click to set the origin, or drag to draw the tile.
    Left,
    /// Drag to set the stride.
    Right,
}

/// A gesture in progress: its button and the pixel where it started.
#[derive(Debug, Clone, Copy, PartialEq, Eq, Structural)]
pub struct DragOp {
    pub button: DragButton,
    pub start_x: u32,
    pub start_y: u32,
}

/// The grid after a gesture that started at `(sx, sy)` reaches `(cx, cy)`,
/// before normalisation: a left gesture that moved at most two pixels each
/// way sets the origin to its start; a longer one draws the tile from
/// corner to corner and widens the stride to hold it; a right gesture sets
/// the stride to its extent.
pub open spec fn dragged(g: GridGeometry, d: DragOp, cx: u32, cy: u32) -> GridGeometry {
    let w = dist(cx as int, d.start_x as int);
    let h = dist(cy as int, d.start_y as int);
    match d.button {
        DragButton::Left => if w <= 2 && h <= 2 {
            GridGeometry { offset_x: d.start_x, offset_y: d.start_y, ..g }
        } else {
            let tw = max_int(w, 1);
            let th = max_int(h, 1);
            GridGeometry {
                offset_x: min_int(d.start_x as int, cx as int) as u32,
                offset_y: min_int(d.start_y as int, cy as int) as u32,
                tile_width: tw as u32,
                tile_height: th as u32,
                stride_x: max_int(g.stride_x as int, tw) as u32,
                stride_y: max_int(g.stride_y as int, th) as u32,
                ..g
            }
        },
        DragButton::Right => GridGeometry {
            stride_x: max_int(w, 1) as u32,
            stride_y: max_int(h, 1) as u32,
            ..g
        },
    }
}

/// What a gesture from `(sx, sy)` to `(cx, cy)` does to the grid, once it
/// is normalised for an image of `img_w` by `img_h`: a left gesture that
/// moved more than two pixels draws the tile from corner to corner and only
/// widens the stride (never narrows it) to hold the tile, with the margin
/// what the tile leaves of the stride; a shorter left gesture moves the
/// origin to where it started and keeps stride and tile; a right gesture
/// sets the stride to its extent, shrinking the tile to fit.
pub proof fn lemma_drag_effect(g: GridGeometry, d: DragOp, cx: u32, cy: u32, img_w: u32, img_h: u32)
    ensures
        ({
            let n = normalized(dragged(g, d, cx, cy), img_w, img_h);
            let dx: int = if cx >= d.start_x { cx - d.start_x } else { d.start_x - cx };
            let dy: int = if cy >= d.start_y { cy - d.start_y } else { d.start_y - cy };
            let tw: int = if dx >= 1 { dx } else { 1 };
            let th: int = if dy >= 1 { dy } else { 1 };
            let last_x: int = if img_w >= 1 { img_w - 1 } else { 0 };
            let last_y: int = if img_h >= 1 { img_h - 1 } else { 0 };
            &&& (d.button == DragButton::Left && (dx > 2 || dy > 2)) ==> {
                &&& n.tile_width == tw && n.tile_height == th
                &&& n.stride_x == (if g.stride_x >= tw { g.stride_x as int } else { tw })
                &&& n.stride_y == (if g.stride_y >= th { g.stride_y as int } else { th })
                &&& n.stride_x >= g.stride_x && n.stride_y >= g.stride_y
                &&& n.margin_x == n.stride_x - tw && n.margin_y == n.stride_y - th
                &&& n.offset_x == (if d.start_x <= cx && d.start_x <= last_x { d.start_x as int }
                    else if cx <= last_x && cx < d.start_x { cx as int } else { last_x })
                &&& n.offset_y == (if d.start_y <= cy && d.start_y <= last_y { d.start_y as int }
                    else if cy <= last_y && cy < d.start_y { cy as int } else { last_y })
            }
            &&& (d.button == DragButton::Left && dx <= 2 && dy <= 2) ==> {
                &&& n.offset_x == (if d.start_x <= last_x { d.start_x as int } else { last_x })
                &&& n.offset_y == (if d.start_y <= last_y { d.start_y as int } else { last_y })
                &&& n.stride_x == (if g.stride_x >= 1 { g.stride_x } else { 1 })
                &&& n.stride_y == (if g.stride_y >= 1 { g.stride_y } else { 1 })
            }
            &&& d.button == DragButton::Right ==> {
                &&& n.stride_x == tw && n.stride_y == th
                &&& 1 <= n.tile_width <= tw && 1 <= n.tile_height <= th
                &&& (g.tile_width >= 1 && g.tile_width <= tw ==> n.tile_width == g.tile_width)
                &&& (g.tile_height >= 1 && g.tile_height <= th ==> n.tile_height == g.tile_height)
            }
        }),
{
}

/// Applies a gesture that started at the pixel of `d` and now reaches
/// `(cx, cy)` to the edited grid, then normalises it.
pub fn apply_drag(g: &mut GridGeometry, d: DragOp, cx: u32, cy: u32, img_w: u32, img_h: u32)
    ensures
        *final(g) == normalized(dragged(*old(g), d, cx, cy), img_w, img_h),
{
    let sx = d.start_x;
    let sy = d.start_y;
    let w = if cx >= sx { cx - sx } else { sx - cx };
    let h = if cy >= sy { cy - sy } else { sy - cy };
    match d.button {
        DragButton::Left => {
            if w <= 2 && h <= 2 {
                g.offset_x = sx;
                g.offset_y = sy;
            } else {
                g.offset_x = if sx <= cx { sx } else { cx };
                g.offset_y = if sy <= cy { sy } else { cy };
                g.tile_width = if w >= 1 { w } else { 1 };
                g.tile_height = if h >= 1 { h } else { 1 };
                if g.stride_x < g.tile_width {
                    g.stride_x = g.tile_width;
                }
                if g.stride_y < g.tile_height {
                    g.stride_y = g.tile_height;
                }
            }
        },
        DragButton::Right => {
            g.stride_x = if w >= 1 { w } else { 1 };
            g.stride_y = if h >= 1 { h } else { 1 };
        },
    }
    normalize_edited(g, img_w, img_h);
}

/// The pointer events of one frame over the overlay: the pixel under the
/// pointer (if it is over the image view), whether the view is hovered,
/// and which buttons were pressed or released.
#[derive(Debug, Clone, Copy)]
pub struct PointerInput {
    pub cursor: Option<(u32, u32)>,
    pub hovered: bool,
    pub primary_pressed: bool,
    pub secondary_pressed: bool,
    pub primary_released: bool,
    pub secondary_released: bool,
}

/// The column of the pixel under the pointer (zero when there is none).
pub open spec fn cursor_x(input: PointerInput) -> u32 {
    match input.cursor {
        Some((x, _)) => x,
        None => 0,
    }
}

/// The row of the pixel under the pointer (zero when there is none).
pub open spec fn cursor_y(input: PointerInput) -> u32 {
    match input.cursor {
        Some((_, y)) => y,
        None => 0,
    }
}

/// The gesture in progress after the presses of a frame: a press over the
/// view with the pointer on a pixel starts a gesture there (the secondary
/// button winning when both are pressed).
pub open spec fn drag_after_press(drag: Option<DragOp>, input: PointerInput) -> Option<DragOp> {
    let d1 = if input.hovered && input.primary_pressed && input.cursor is Some {
        Some(DragOp { button: DragButton::Left, start_x: cursor_x(input), start_y: cursor_y(input) })
    } else {
        drag
    };
    if input.hovered && input.secondary_pressed && input.cursor is Some {
        Some(DragOp { button: DragButton::Right, start_x: cursor_x(input), start_y: cursor_y(input) })
    } else {
        d1
    }
}

/// Handles the pointer events of one frame: starts a gesture on a press,
/// applies the gesture in progress to the grid while the pointer is on a
/// pixel, and ends the gesture on a release.
pub fn handle_overlay_input(g: &mut GridGeometry, drag: &mut Option<DragOp>, input: PointerInput, img_w: u32, img_h: u32)
    ensures
        ({
            let d = drag_after_press(*old(drag), input);
            &&& *final(g) == if d is Some && input.cursor is Some {
                normalized(dragged(*old(g), d->0, cursor_x(input), cursor_y(input)), img_w, img_h)
            } else {
                *old(g)
            }
            &&& *final(drag) == if d is None || input.primary_released || input.secondary_released {
                None
            } else {
                d
            }
        }),
{
    if input.hovered && input.primary_pressed {
        if let Some((x, y)) = input.cursor {
            *drag = Some(DragOp { button: DragButton::Left, start_x: x, start_y: y });
        }
    }
    if input.hovered && input.secondary_pressed {
        if let Some((x, y)) = input.cursor {
            *drag = Some(DragOp { button: DragButton::Right, start_x: x, start_y: y });
        }
    }
    let current = *drag;
    match current {
        None => {
            return;
        },
        Some(d) => {
            if let Some((cx, cy)) = input.cursor {
                apply_drag(g, d, cx, cy, img_w, img_h);
            }
        },
    }
    if input.primary_released || input.secondary_released {
        *drag = None;
    }
}

/// What the viewer shows.
#[derive(Debug, Clone, Copy, PartialEq, Eq, Structural)]
pub enum ViewMode {
    /// The image with the grid drawn over it.
    Overlay,
    /// The recovered tileset.
    Atlas,
    /// The base and detail layers.
    Layers,
}

/// The keys pressed in one frame of the viewer.
#[derive(Debug, Clone, Copy, PartialEq, Eq, Structural)]
pub struct KeyPresses {
    pub f1: bool,
    pub f2: bool,
    pub f3: bool,
    pub num1: bool,
    pub num2: bool,
    pub num3: bool,
    pub arrow_right: bool,
    pub arrow_left: bool,
}

/// The view after the keys of a frame: F1, F2, F3 always switch to the
/// overlay, the atlas and the layers (the later key winning); the digit
/// keys 1, 2, 3 do the same unless a field is being edited.
pub open spec fn view_after_keys(view: ViewMode, keys: KeyPresses, editing: bool) -> ViewMode {
    let v1 = if keys.f1 { ViewMode::Overlay } else { view };
    let v2 = if keys.f2 { ViewMode::Atlas } else { v1 };
    let v3 = if keys.f3 { ViewMode::Layers } else { v2 };
    if editing {
        v3
    } else {
        let v4 = if keys.num1 { ViewMode::Overlay } else { v3 };
        let v5 = if keys.num2 { ViewMode::Atlas } else { v4 };
        if keys.num3 { ViewMode::Layers } else { v5 }
    }
}

/// The selected configuration after the keys of a frame, among `n`: unless
/// a field is being edited, the right arrow moves to the next one and the
/// left arrow to the previous one, both wrapping around.
pub open spec fn selected_after_keys(selected: int, n: int, keys: KeyPresses, editing: bool) -> int {
    if editing {
        selected
    } else {
        let s1 = if keys.arrow_right { (selected + 1) % n } else { selected };
        if keys.arrow_left { (s1 + n - 1) % n } else { s1 }
    }
}

/// Applies the keys of a frame to the view and to the selected
/// configuration among `n`.
pub fn apply_view_keys(view: &mut ViewMode, selected: &mut usize, n: usize, keys: KeyPresses, editing: bool)
    requires
        0 < n,
        *old(selected) < n,
        n + n - 1 <= usize::MAX,
    ensures
        *final(view) == view_after_keys(*old(view), keys, editing),
        *final(selected) == selected_after_keys(*old(selected) as int, n as int, keys, editing),
        *final(selected) < n,
{
    if keys.f1 {
        *view = ViewMode::Overlay;
    }
    if keys.f2 {
        *view = ViewMode::Atlas;
    }
    if keys.f3 {
        *view = ViewMode::Layers;
    }
    if !editing {
        if keys.num1 {
            *view = ViewMode::Overlay;
        }
        if keys.num2 {
            *view = ViewMode::Atlas;
        }
        if keys.num3 {
            *view = ViewMode::Layers;
        }
        if keys.arrow_right {
            *selected = (*selected + 1) % n;
        }
        if keys.arrow_left {
            *selected = (*selected + n - 1) % n;
        }
    }
}

/// Switching to another configuration resets the edited grid to it.
pub fn sync_selection(selected: usize, last_selected: &mut usize, edited: &mut GridGeometry, levels: &Vec<GridGeometry>)
    requires
        selected < levels@.len(),
    ensures
        selected != *old(last_selected) ==> *final(edited) == levels@[selected as int] && *final(last_selected) == selected,
        selected == *old(last_selected) ==> *final(edited) == *old(edited) && *final(last_selected) == *old(last_selected),
{
    if selected != *last_selected {
        *edited = levels[selected];
        *last_selected = selected;
    }
}

} // verus!
