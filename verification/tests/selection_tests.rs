use life_core::board::Board;
use life_core::selection::{Rotation, Selection};
use life_core::subgrid::SubGrid;

fn live_cells(b: &Board) -> Vec<(usize, usize)> {
    let mut out = Vec::new();
    for y in 0..b.height() {
        for x in 0..b.width() {
            if b.get(x, y) == Some(true) {
                out.push((x, y));
            }
        }
    }
    out
}

#[test]
fn selection_dimensions_ignore_corner_order() {
    let mut s = Selection::new(4, 1);
    s.end.x = 1;
    s.end.y = 3;
    assert_eq!(s.width(), 3);
    assert_eq!(s.height(), 2);
    assert_eq!(s.wh(), (3, 2));
}

#[test]
fn get_inner_tiles_extracts_row_major() {
    let mut b = Board::new(5, 5);
    b.set(1, 1, true);
    b.set(2, 2, true);
    let mut s = Selection::new(1, 1);
    s.end.x = 2;
    s.end.y = 2;
    let g = s.get_inner_tiles(&b);
    assert_eq!(g.width(), 2);
    assert_eq!(g.height(), 2);
    assert_eq!(g.get(0, 0), true);
    assert_eq!(g.get(1, 0), false);
    assert_eq!(g.get(0, 1), false);
    assert_eq!(g.get(1, 1), true);
}

#[test]
fn get_inner_tiles_reads_beyond_the_edge_as_dead() {
    let mut b = Board::new(2, 2);
    b.set(1, 1, true);
    let mut s = Selection::new(1, 1);
    s.end.x = 3;
    s.end.y = 3;
    let g = s.get_inner_tiles(&b);
    assert_eq!(g.width(), 3);
    assert_eq!(g.height(), 3);
    assert_eq!(g.get(0, 0), true);
    for y in 0..3 {
        for x in 0..3 {
            if (x, y) != (0, 0) {
                assert_eq!(g.get(x, y), false);
            }
        }
    }
}

#[test]
fn copy_fills_the_clipboard() {
    let mut b = Board::new(3, 3);
    b.set(0, 0, true);
    let s = Selection::new(0, 0);
    let mut clipboard: Option<SubGrid> = None;
    s.copy(&b, &mut clipboard);
    let g = clipboard.unwrap();
    assert_eq!(g.width(), 1);
    assert_eq!(g.height(), 1);
    assert_eq!(g.get(0, 0), true);
}

#[test]
fn clear_kills_only_the_box() {
    let mut b = Board::new(4, 4);
    b.set(0, 0, true);
    b.set(1, 1, true);
    b.set(2, 2, true);
    b.set(3, 3, true);
    let mut s = Selection::new(1, 1);
    s.end.x = 2;
    s.end.y = 2;
    s.clear(&mut b);
    assert_eq!(live_cells(&b), vec![(0, 0), (3, 3)]);
}

#[test]
fn translate_moves_content_and_corners() {
    let mut b = Board::new(6, 6);
    b.set(1, 1, true);
    b.set(2, 2, true);
    let mut s = Selection::new(1, 1);
    s.end.x = 2;
    s.end.y = 2;
    let moved = s.translate(&mut b, 2, 1);
    assert_eq!(live_cells(&b), vec![(3, 2), (4, 3)]);
    assert_eq!((moved.start.x, moved.start.y), (3, 2));
    assert_eq!((moved.end.x, moved.end.y), (4, 3));
}

#[test]
fn translate_negative_delta_moves_back() {
    let mut b = Board::new(6, 6);
    b.set(3, 3, true);
    let s = Selection::new(3, 3);
    let moved = s.translate(&mut b, -2, -1);
    assert_eq!(live_cells(&b), vec![(1, 2)]);
    assert_eq!((moved.start.x, moved.start.y), (1, 2));
}

#[test]
fn translate_drops_cells_pushed_off_the_board() {
    let mut b = Board::new(3, 3);
    b.set(1, 1, true);
    b.set(2, 1, true);
    let mut s = Selection::new(1, 1);
    s.end.x = 2;
    let moved = s.translate(&mut b, 1, 0);
    // (2,1) moves to (3,1), which is off the 3x3 board
    assert_eq!(live_cells(&b), vec![(2, 1)]);
    assert_eq!((moved.end.x, moved.end.y), (3, 1));
}

#[test]
fn rotate_cw_turns_a_bar_into_a_column() {
    let mut b = Board::new(3, 3);
    b.set(0, 1, true);
    b.set(1, 1, true);
    b.set(2, 1, true);
    let mut s = Selection::new(0, 0);
    s.end.x = 2;
    s.end.y = 2;
    let out = s.rotate(&mut b, Rotation::CW).unwrap();
    assert_eq!(live_cells(&b), vec![(1, 0), (1, 1), (1, 2)]);
    assert_eq!((out.start.x, out.start.y), (1, 0));
    assert_eq!((out.end.x, out.end.y), (1, 2));
}

#[test]
fn rotate_ccw_turns_the_bar_the_other_way() {
    let mut b = Board::new(5, 5);
    b.set(1, 1, true);
    b.set(1, 2, true);
    let mut s = Selection::new(1, 1);
    s.end.x = 1;
    s.end.y = 2;
    let out = s.rotate(&mut b, Rotation::CCW).unwrap();
    // center (1, 1): (1,1) stays, (1,2) -> (0,1)
    assert_eq!(live_cells(&b), vec![(0, 1), (1, 1)]);
    assert_eq!((out.start.x, out.start.y), (0, 1));
    assert_eq!((out.end.x, out.end.y), (1, 1));
}

#[test]
fn rotate_of_empty_box_returns_none() {
    let mut b = Board::new(3, 3);
    b.set(2, 2, true);
    let s = Selection::new(0, 0);
    assert!(s.rotate(&mut b, Rotation::CW).is_none());
    assert_eq!(live_cells(&b), vec![(2, 2)]);
}

#[test]
fn four_cw_rotations_restore_an_odd_box_pattern() {
    let mut b = Board::new(5, 5);
    // a pattern spanning the whole 3x3 box at (1,1)..(3,3)
    b.set(1, 1, true);
    b.set(2, 1, true);
    b.set(1, 2, true);
    b.set(3, 3, true);
    let original = live_cells(&b);

    let mut s = Selection::new(1, 1);
    s.end.x = 3;
    s.end.y = 3;
    for _ in 0..4 {
        s = s.rotate(&mut b, Rotation::CW).unwrap();
    }
    assert_eq!(live_cells(&b), original);
    assert_eq!((s.start.x, s.start.y), (1, 1));
    assert_eq!((s.end.x, s.end.y), (3, 3));
}

#[test]
fn cw_then_ccw_restores_an_odd_box_pattern() {
    let mut b = Board::new(7, 7);
    b.set(2, 2, true);
    b.set(3, 2, true);
    b.set(4, 4, true);
    b.set(2, 4, true);
    let original = live_cells(&b);
    let mut s = Selection::new(2, 2);
    s.end.x = 4;
    s.end.y = 4;
    let s2 = s.rotate(&mut b, Rotation::CW).unwrap();
    s2.rotate(&mut b, Rotation::CCW).unwrap();
    assert_eq!(live_cells(&b), original);
}

#[test]
fn rotate_drops_cells_leaving_the_board() {
    let mut b = Board::new(3, 2);
    // a horizontal bar in a wide, flat box at the top edge
    b.set(0, 0, true);
    b.set(1, 0, true);
    b.set(2, 0, true);
    let mut s = Selection::new(0, 0);
    s.end.x = 2;
    // center (1, 0): CW sends (0,0) -> (1,1), (1,0) -> (1,0),
    // (2,0) -> (1,-1), which is off the board and dropped
    let out = s.rotate(&mut b, Rotation::CW).unwrap();
    assert_eq!(live_cells(&b), vec![(1, 0), (1, 1)]);
    assert_eq!((out.start.x, out.start.y), (1, 0));
    assert_eq!((out.end.x, out.end.y), (1, 1));
}

#[test]
fn paste_writes_the_clipboard_at_the_target() {
    let mut b = Board::new(5, 5);
    b.set(0, 0, true);
    b.set(1, 1, true);
    let mut s = Selection::new(0, 0);
    s.end.x = 1;
    s.end.y = 1;
    let mut clipboard: Option<SubGrid> = None;
    s.copy(&b, &mut clipboard);

    let mut target = Board::new(5, 5);
    target.set(4, 4, true);
    let out = Selection::paste(&mut target, &clipboard, 2, 2).unwrap();
    assert_eq!(live_cells(&target), vec![(2, 2), (3, 3), (4, 4)]);
    assert_eq!((out.start.x, out.start.y), (2, 2));
    assert_eq!((out.end.x, out.end.y), (3, 3));
}

#[test]
fn paste_with_empty_clipboard_changes_nothing() {
    let mut b = Board::new(3, 3);
    b.set(1, 1, true);
    let clipboard: Option<SubGrid> = None;
    assert!(Selection::paste(&mut b, &clipboard, 0, 0).is_none());
    assert_eq!(live_cells(&b), vec![(1, 1)]);
}

#[test]
fn paste_overwrites_with_dead_patch_cells() {
    let mut src = Board::new(2, 2);
    src.set(0, 0, true);
    let mut s = Selection::new(0, 0);
    s.end.x = 1;
    s.end.y = 1;
    let mut clipboard: Option<SubGrid> = None;
    s.copy(&src, &mut clipboard);

    let mut target = Board::new(2, 2);
    target.set(1, 1, true);
    Selection::paste(&mut target, &clipboard, 0, 0).unwrap();
    // the dead patch cell at (1,1) overwrites the live target cell
    assert_eq!(live_cells(&target), vec![(0, 0)]);
}

#[test]
fn bounding_box_orders_the_corners() {
    let mut s = Selection::new(4, 1);
    s.end.x = 1;
    s.end.y = 3;
    assert_eq!(s.bounding_box(), (1, 1, 4, 3));
}
