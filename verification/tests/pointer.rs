use lumixbackup::pointer::bounce;

#[test]
fn the_pointer_turns_back_at_the_far_edge() {
    assert_eq!(bounce(1, 1079, 1079), -1);
    assert_eq!(bounce(1, 2000, 1079), -1);
    assert_eq!(bounce(-1, 1079, 1079), -1);
}

#[test]
fn the_pointer_turns_forward_at_the_near_edge() {
    assert_eq!(bounce(-1, 1, 1079), 1);
    assert_eq!(bounce(-1, 0, 1079), 1);
    assert_eq!(bounce(-1, -5, 1079), 1);
    assert_eq!(bounce(1, 1, 1079), 1);
}

#[test]
fn the_pointer_keeps_its_direction_in_between() {
    assert_eq!(bounce(1, 500, 1079), 1);
    assert_eq!(bounce(-1, 500, 1079), -1);
    assert_eq!(bounce(-1, 2, 1079), -1);
    assert_eq!(bounce(1, 1078, 1079), 1);
}

#[test]
fn the_near_edge_decides_where_the_edges_meet() {
    assert_eq!(bounce(-1, 1, 1), 1);
    assert_eq!(bounce(-1, 0, 0), 1);
    assert_eq!(bounce(1, 1, -3), 1);
}
