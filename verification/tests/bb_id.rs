use ph::math::bb_id::{parent_id, tl_id};

#[test]
fn tl_of_root_is_one() {
    assert_eq!(tl_id(0), 1);
    assert_eq!(parent_id(1), 0);
}

#[test]
fn tl_prepends_a_one_digit() {
    // 1 -> 1*5 + 1 = 6 ("11" in base 5)
    assert_eq!(tl_id(1), 6);
    // 6 = "11" -> "111" = 31
    assert_eq!(tl_id(6), 31);
    // 3 = "3" -> "13" = 8
    assert_eq!(tl_id(3), 8);
}

#[test]
fn parent_drops_the_leading_digit() {
    // "4" -> root
    assert_eq!(parent_id(4), 0);
    // "23" = 13 -> "3"
    assert_eq!(parent_id(13), 3);
    // "412" = 4*25 + 5 + 2 = 107 -> "12" = 7
    assert_eq!(parent_id(107), 7);
}

#[test]
fn parent_of_tl_is_the_cell() {
    for id in [0u32, 1, 2, 3, 4, 5, 17, 124, 125, 9999, 48828124] {
        assert_eq!(parent_id(tl_id(id)), id);
    }
}
