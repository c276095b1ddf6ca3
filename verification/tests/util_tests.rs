use life_core::util::{fmt_num, i_to_xy, VecU2};

#[test]
fn vecu2_holds_its_coordinates() {
    let v = VecU2::new(3, 9);
    assert_eq!(v.x, 3);
    assert_eq!(v.y, 9);
    assert_eq!(v.as_tuple(), (3, 9));
}

#[test]
fn i_to_xy_walks_row_major() {
    assert_eq!(i_to_xy(4, 0), (0, 0));
    assert_eq!(i_to_xy(4, 3), (3, 0));
    assert_eq!(i_to_xy(4, 4), (0, 1));
    assert_eq!(i_to_xy(4, 10), (2, 2));
}

#[test]
fn fmt_num_small_numbers_have_no_separator() {
    assert_eq!(fmt_num(0), "0");
    assert_eq!(fmt_num(7), "7");
    assert_eq!(fmt_num(999), "999");
}

#[test]
fn fmt_num_groups_by_thousands() {
    assert_eq!(fmt_num(1000), "1,000");
    assert_eq!(fmt_num(1234567), "1,234,567");
    assert_eq!(fmt_num(100000), "100,000");
    assert_eq!(fmt_num(1000000000), "1,000,000,000");
}
