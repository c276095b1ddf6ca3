use life_core::board::Board;
use life_core::rule::Rule;
use life_core::selection::Selection;
use life_core::util::VecU2;

fn live_cells(b: &Board) -> Vec<(usize, usize)> {
    let mut out = Vec::new();
    for y in 0..b.height() {
        for x in 0..b.width() {
            if b.get(x, y) == Some(true) {
                out.push((x, y));
            }
        }
    }
    out
}

#[test]
fn new_board_is_dead_and_counts_zero() {
    let b = Board::new(4, 3);
    assert_eq!(b.wh(), (4, 3));
    assert_eq!(b.run_count, 0);
    assert!(live_cells(&b).is_empty());
}

#[test]
fn get_is_bounds_checked() {
    let mut b = Board::new(3, 3);
    b.set(1, 2, true);
    assert_eq!(b.get(1, 2), Some(true));
    assert_eq!(b.get(0, 0), Some(false));
    assert_eq!(b.get(3, 0), None);
    assert_eq!(b.get(0, 3), None);
}

#[test]
fn get_or_empty_treats_outside_as_dead() {
    let mut b = Board::new(2, 2);
    b.set(1, 1, true);
    assert!(b.get_or_empty(1, 1));
    assert!(!b.get_or_empty(-1, 0));
    assert!(!b.get_or_empty(0, -1));
    assert!(!b.get_or_empty(2, 0));
    assert!(!b.get_or_empty(0, 2));
}

#[test]
fn set_outside_bounds_is_a_noop() {
    let mut b = Board::new(3, 3);
    b.set(1, 1, true);
    let before = live_cells(&b);
    b.set(3, 1, true);
    b.set(1, 3, true);
    b.set(usize::MAX, usize::MAX, true);
    assert_eq!(live_cells(&b), before);
    assert_eq!(b.wh(), (3, 3));
}

#[test]
fn try_set_reports_whether_it_wrote() {
    let mut b = Board::new(2, 2);
    assert_eq!(b.try_set(1, 0, true), Some(()));
    assert_eq!(b.try_set(2, 0, true), None);
    assert_eq!(live_cells(&b), vec![(1, 0)]);
}

#[test]
fn blinker_returns_after_two_generations() {
    let rule = Rule::parse("23/3").unwrap();
    let mut b = Board::new(5, 5);
    b.set(1, 2, true);
    b.set(2, 2, true);
    b.set(3, 2, true);
    let horizontal = live_cells(&b);

    b.advance(&rule);
    assert_eq!(live_cells(&b), vec![(2, 1), (2, 2), (2, 3)]);

    b.advance(&rule);
    assert_eq!(live_cells(&b), horizontal);
    assert_eq!(b.run_count, 2);
}

#[test]
fn block_is_a_still_life() {
    let rule = Rule::parse("23/3").unwrap();
    let mut b = Board::new(4, 4);
    b.set(1, 1, true);
    b.set(2, 1, true);
    b.set(1, 2, true);
    b.set(2, 2, true);
    let block = live_cells(&b);
    for _ in 0..5 {
        b.advance(&rule);
        assert_eq!(live_cells(&b), block);
    }
    assert_eq!(b.run_count, 5);
}

#[test]
fn block_in_the_corner_is_still_a_still_life() {
    let rule = Rule::parse("23/3").unwrap();
    let mut b = Board::new(3, 3);
    b.set(0, 0, true);
    b.set(1, 0, true);
    b.set(0, 1, true);
    b.set(1, 1, true);
    let block = live_cells(&b);
    b.advance(&rule);
    assert_eq!(live_cells(&b), block);
}

#[test]
fn empty_board_stays_empty_under_conway() {
    let rule = Rule::parse("23/3").unwrap();
    let mut b = Board::new(4, 4);
    b.advance(&rule);
    assert!(live_cells(&b).is_empty());
}

#[test]
fn advance_uses_the_given_rule() {
    // under "/0" every dead cell with zero neighbors is born
    let rule = Rule::parse("/0").unwrap();
    let mut b = Board::new(2, 2);
    b.advance(&rule);
    assert_eq!(live_cells(&b).len(), 4);
}

#[test]
fn clear_resets_cells_and_counter() {
    let rule = Rule::parse("23/3").unwrap();
    let mut b = Board::new(3, 3);
    b.set(1, 1, true);
    b.advance(&rule);
    b.clear();
    assert_eq!(b.wh(), (3, 3));
    assert_eq!(b.run_count, 0);
    assert!(live_cells(&b).is_empty());
}

#[test]
fn set_wh_recenters_content_when_growing() {
    let mut b = Board::new(1, 1);
    b.set(0, 0, true);
    b.set_wh(3, 3);
    assert_eq!(b.wh(), (3, 3));
    assert_eq!(live_cells(&b), vec![(1, 1)]);
    assert_eq!(b.run_count, 0);
}

#[test]
fn set_wh_drops_content_pushed_off_when_shrinking() {
    let mut b = Board::new(5, 5);
    b.set(0, 0, true);
    b.set(2, 2, true);
    b.set_wh(1, 1);
    assert_eq!(b.wh(), (1, 1));
    // the offset is (1-5)/2 = -2 in each axis: (2,2) lands on (0,0)
    assert_eq!(live_cells(&b), vec![(0, 0)]);
}

#[test]
fn draw_line_single_point_sets_exactly_that_cell() {
    let mut b = Board::new(3, 3);
    b.draw_line(0, 0, 0, 0, true);
    assert_eq!(live_cells(&b), vec![(0, 0)]);
}

#[test]
fn draw_line_horizontal_covers_the_span() {
    let mut b = Board::new(5, 5);
    b.draw_line(1, 2, 3, 2, true);
    assert_eq!(live_cells(&b), vec![(1, 2), (2, 2), (3, 2)]);
}

#[test]
fn draw_line_diagonal_covers_the_diagonal() {
    let mut b = Board::new(4, 4);
    b.draw_line(0, 0, 3, 3, true);
    assert_eq!(live_cells(&b), vec![(0, 0), (1, 1), (2, 2), (3, 3)]);
}

#[test]
fn draw_line_reversed_endpoints_covers_the_same_cells() {
    let mut a = Board::new(6, 6);
    a.draw_line(1, 1, 4, 3, true);
    let mut b = Board::new(6, 6);
    b.draw_line(4, 3, 1, 1, true);
    assert_eq!(live_cells(&a), live_cells(&b));
}

#[test]
fn draw_line_can_erase() {
    let mut b = Board::new(3, 3);
    b.draw_line(0, 1, 2, 1, true);
    b.draw_line(0, 1, 2, 1, false);
    assert!(live_cells(&b).is_empty());
}

#[test]
fn i_to_xy_decomposes_row_major_indices() {
    let b = Board::new(4, 3);
    assert_eq!(b.i_to_xy(0), (0, 0));
    assert_eq!(b.i_to_xy(5), (1, 1));
    assert_eq!(b.i_to_xy(11), (3, 2));
}

#[test]
fn zero_sized_boards_are_degenerate_but_legal() {
    let rule = Rule::parse("23/3").unwrap();
    let mut b = Board::new(0, 7);
    assert_eq!(b.get(0, 0), None);
    b.set(0, 0, true);
    b.advance(&rule);
    assert_eq!(b.wh(), (0, 7));
    assert!(live_cells(&b).is_empty());
}

#[test]
fn set_area_writes_a_patch_and_drops_overhang() {
    let mut src = Board::new(2, 2);
    src.set(0, 0, true);
    src.set(1, 1, true);
    let mut s = Selection::new(0, 0);
    s.end.x = 1;
    s.end.y = 1;
    let patch = s.get_inner_tiles(&src);

    let mut b = Board::new(3, 3);
    b.set_area(VecU2::new(1, 1), &patch);
    assert_eq!(live_cells(&b), vec![(1, 1), (2, 2)]);

    // pasting at the edge drops the overhanging column and row
    let mut c = Board::new(3, 3);
    c.set_area(VecU2::new(2, 2), &patch);
    assert_eq!(live_cells(&c), vec![(2, 2)]);
}
