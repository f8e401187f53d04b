use detile::{
    apply_drag, apply_view_keys, handle_overlay_input, normalize_edited, sync_selection, DragButton, DragOp,
    GridGeometry, PointerInput, ViewMode,
};

fn grid() -> GridGeometry {
    GridGeometry {
        tile_width: 16,
        tile_height: 16,
        stride_x: 16,
        stride_y: 16,
        offset_x: 0,
        offset_y: 0,
        margin_x: 0,
        margin_y: 0,
        columns: 4,
        rows: 4,
    }
}

#[test]
fn normalize_clamps_and_recounts() {
    let mut g = GridGeometry {
        tile_width: 0,
        tile_height: 30,
        stride_x: 0,
        stride_y: 20,
        offset_x: 500,
        offset_y: 7,
        margin_x: 9,
        margin_y: 9,
        columns: 0,
        rows: 0,
    };
    normalize_edited(&mut g, 64, 48);
    assert_eq!(
        g,
        GridGeometry {
            tile_width: 1,
            tile_height: 20,
            stride_x: 1,
            stride_y: 20,
            offset_x: 63,
            offset_y: 7,
            margin_x: 0,
            margin_y: 0,
            columns: 1,
            rows: 2,
        }
    );
    // Normalising twice changes nothing.
    let once = g;
    normalize_edited(&mut g, 64, 48);
    assert_eq!(g, once);
}

#[test]
fn normalize_on_empty_image() {
    let mut g = grid();
    g.offset_x = 5;
    normalize_edited(&mut g, 0, 0);
    assert_eq!(g.offset_x, 0);
    assert_eq!(g.columns, 0);
    assert_eq!(g.rows, 0);
}

#[test]
fn left_click_sets_origin() {
    let mut g = grid();
    let d = DragOp { button: DragButton::Left, start_x: 10, start_y: 12 };
    apply_drag(&mut g, d, 12, 10, 64, 64);
    assert_eq!(g.offset_x, 10);
    assert_eq!(g.offset_y, 12);
    assert_eq!(g.tile_width, 16);
    assert_eq!(g.columns, 3);
}

#[test]
fn left_drag_draws_tile_and_widens_stride() {
    let mut g = grid();
    let d = DragOp { button: DragButton::Left, start_x: 30, start_y: 5 };
    apply_drag(&mut g, d, 10, 25, 64, 64);
    assert_eq!((g.offset_x, g.offset_y), (10, 5));
    assert_eq!((g.tile_width, g.tile_height), (20, 20));
    assert_eq!((g.stride_x, g.stride_y), (20, 20));
    assert_eq!((g.margin_x, g.margin_y), (0, 0));
    assert_eq!((g.columns, g.rows), (2, 2));
}

#[test]
fn right_drag_sets_stride_and_shrinks_tile() {
    let mut g = grid();
    let d = DragOp { button: DragButton::Right, start_x: 3, start_y: 3 };
    apply_drag(&mut g, d, 13, 3, 64, 64);
    assert_eq!((g.stride_x, g.stride_y), (10, 1));
    assert_eq!((g.tile_width, g.tile_height), (10, 1));
    assert_eq!((g.columns, g.rows), (6, 64));
}

fn input(cursor: Option<(u32, u32)>, pp: bool, sp: bool, pr: bool, sr: bool) -> PointerInput {
    PointerInput {
        cursor,
        hovered: true,
        primary_pressed: pp,
        secondary_pressed: sp,
        primary_released: pr,
        secondary_released: sr,
    }
}

#[test]
fn gesture_lifecycle() {
    let mut g = grid();
    let mut drag: Option<DragOp> = None;
    // Moving without a gesture changes nothing.
    handle_overlay_input(&mut g, &mut drag, input(Some((5, 5)), false, false, false, false), 64, 64);
    assert_eq!(g, grid());
    assert_eq!(drag, None);
    // Press starts a gesture at the pointer.
    handle_overlay_input(&mut g, &mut drag, input(Some((8, 9)), true, false, false, false), 64, 64);
    assert_eq!(drag, Some(DragOp { button: DragButton::Left, start_x: 8, start_y: 9 }));
    assert_eq!((g.offset_x, g.offset_y), (8, 9));
    // Dragging draws the tile.
    handle_overlay_input(&mut g, &mut drag, input(Some((20, 30)), false, false, false, false), 64, 64);
    assert_eq!((g.tile_width, g.tile_height), (12, 21));
    // Release applies the last position and ends the gesture.
    handle_overlay_input(&mut g, &mut drag, input(Some((24, 30)), false, false, true, false), 64, 64);
    assert_eq!(g.tile_width, 16);
    assert_eq!(drag, None);
}

#[test]
fn press_outside_the_view_starts_nothing() {
    let mut g = grid();
    let mut drag: Option<DragOp> = None;
    let mut i = input(Some((8, 9)), true, true, false, false);
    i.hovered = false;
    handle_overlay_input(&mut g, &mut drag, i, 64, 64);
    assert_eq!(drag, None);
    assert_eq!(g, grid());
    // Both buttons at once: the secondary wins.
    handle_overlay_input(&mut g, &mut drag, input(Some((8, 9)), true, true, false, false), 64, 64);
    assert_eq!(drag, Some(DragOp { button: DragButton::Right, start_x: 8, start_y: 9 }));
}

fn no_keys() -> detile::KeyPresses {
    detile::KeyPresses {
        f1: false,
        f2: false,
        f3: false,
        num1: false,
        num2: false,
        num3: false,
        arrow_right: false,
        arrow_left: false,
    }
}

#[test]
fn view_keys_switch_and_cycle() {
    let mut view = ViewMode::Overlay;
    let mut sel = 0usize;
    let mut k = no_keys();
    k.f2 = true;
    apply_view_keys(&mut view, &mut sel, 3, k, false);
    assert_eq!(view, ViewMode::Atlas);
    // The later function key wins.
    let mut k = no_keys();
    k.f1 = true;
    k.f3 = true;
    apply_view_keys(&mut view, &mut sel, 3, k, false);
    assert_eq!(view, ViewMode::Layers);
    // Arrows wrap around.
    let mut k = no_keys();
    k.arrow_left = true;
    apply_view_keys(&mut view, &mut sel, 3, k, false);
    assert_eq!(sel, 2);
    let mut k = no_keys();
    k.arrow_right = true;
    apply_view_keys(&mut view, &mut sel, 3, k, false);
    assert_eq!(sel, 0);
    // Both arrows cancel out.
    let mut k = no_keys();
    k.arrow_right = true;
    k.arrow_left = true;
    apply_view_keys(&mut view, &mut sel, 3, k, false);
    assert_eq!(sel, 0);
}

#[test]
fn view_keys_while_editing() {
    let mut view = ViewMode::Overlay;
    let mut sel = 1usize;
    let mut k = no_keys();
    k.num2 = true;
    k.arrow_right = true;
    apply_view_keys(&mut view, &mut sel, 3, k, true);
    assert_eq!(view, ViewMode::Overlay);
    assert_eq!(sel, 1);
    k.f3 = true;
    apply_view_keys(&mut view, &mut sel, 3, k, true);
    assert_eq!(view, ViewMode::Layers);
    apply_view_keys(&mut view, &mut sel, 3, k, false);
    // Digit keys come after the function keys.
    assert_eq!(view, ViewMode::Atlas);
    assert_eq!(sel, 2);
}

#[test]
fn selection_change_resets_edit() {
    let mut other = grid();
    other.stride_x = 20;
    let levels = vec![grid(), other];
    let mut last = 0usize;
    let mut edited = grid();
    edited.offset_x = 9;
    sync_selection(0, &mut last, &mut edited, &levels);
    assert_eq!(edited.offset_x, 9);
    sync_selection(1, &mut last, &mut edited, &levels);
    assert_eq!(edited, other);
    assert_eq!(last, 1);
}
