use battle_royale::scoring::{points_for_elims, points_for_placement};

#[test]
fn placement_table_boundaries() {
    assert_eq!(points_for_placement(1), 5);
    assert_eq!(points_for_placement(2), 2);
    assert_eq!(points_for_placement(3), 2);
    assert_eq!(points_for_placement(4), 1);
    assert_eq!(points_for_placement(10), 1);
    assert_eq!(points_for_placement(11), 0);
    assert_eq!(points_for_placement(0), 0);
    assert_eq!(points_for_placement(u32::MAX), 0);
}

#[test]
fn elims_table_boundaries() {
    assert_eq!(points_for_elims(0), 0);
    assert_eq!(points_for_elims(2), 0);
    assert_eq!(points_for_elims(3), 1);
    assert_eq!(points_for_elims(4), 1);
    assert_eq!(points_for_elims(5), 2);
    assert_eq!(points_for_elims(6), 2);
    assert_eq!(points_for_elims(7), 3);
    assert_eq!(points_for_elims(100), 3);
    assert_eq!(points_for_elims(u32::MAX), 3);
}
