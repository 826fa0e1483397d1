use percolation::union_find::QuickFind;
use percolation::union_find::QuickUnion;
use percolation::union_find::WeightedQuickUnion;

#[test]
fn union_find_is_unconnected_at_initialisaton() {
    let mut qf = WeightedQuickUnion::new(2);
    assert_eq!(qf.is_connected(0, 1), false)
}

#[test]
fn union_find_is_reflexive() {
    let mut qf = WeightedQuickUnion::new(2);
    assert_eq!(qf.is_connected(0, 0), true);
    assert_eq!(qf.is_connected(1, 1), true);
}

#[test]
fn union_find_can_connect_single_node() {
    let mut qf = WeightedQuickUnion::new(2);
    qf.connect(0, 1);
    assert_eq!(qf.is_connected(0, 1), true);
}

#[test]
fn union_find_doesnt_connect_everything() {
    let mut qf = WeightedQuickUnion::new(3);
    qf.connect(0, 1);
    assert_eq!(qf.is_connected(0, 1), true);
    assert_eq!(qf.is_connected(0, 2), false);
    assert_eq!(qf.is_connected(1, 2), false);
}

#[test]
fn union_find_connects_transitively() {
    let mut qf = WeightedQuickUnion::new(2);
    qf.connect(0, 1);
    assert_eq!(qf.is_connected(0, 1), true);
    assert_eq!(qf.is_connected(1, 0), true);
}

#[test]
fn union_find_connects_across_unions() {
    let mut qf = WeightedQuickUnion::new(3);
    qf.connect(0, 1);
    qf.connect(1, 2);
    assert_eq!(qf.is_connected(0, 2), true);
}

#[test]
fn union_find_can_count_unconnected_groups() {
    let qf = QuickFind::new(3);
    assert_eq!(qf.number_of_groups(), 3);
}

#[test]
fn union_find_can_count_connected_groups() {
    let mut qf = QuickFind::new(3);
    assert_eq!(qf.number_of_groups(), 3);
    qf.connect(0, 1);
    assert_eq!(qf.number_of_groups(), 2);
    qf.connect(0, 2);
    assert_eq!(qf.number_of_groups(), 1);
}

#[test]
fn union_find_long_test() {
    let mut qf = WeightedQuickUnion::new(10);
    qf.connect(4, 3);
    qf.connect(3, 8);
    qf.connect(6, 5);
    qf.connect(9, 4);
    qf.connect(2, 1);
    assert_eq!(qf.is_connected(0, 7), false);
    assert_eq!(qf.is_connected(8, 9), true);
    qf.connect(5, 0);
    qf.connect(7, 2);
    qf.connect(6, 1);
    qf.connect(1, 0);
    assert_eq!(qf.is_connected(0, 7), true);
}

#[test]
fn quick_union_follows_the_same_story() {
    let mut qu = QuickUnion::new(10);
    qu.connect(4, 3);
    qu.connect(3, 8);
    qu.connect(6, 5);
    qu.connect(9, 4);
    qu.connect(2, 1);
    assert_eq!(qu.is_connected(0, 7), false);
    assert_eq!(qu.is_connected(8, 9), true);
    qu.connect(5, 0);
    qu.connect(7, 2);
    qu.connect(6, 1);
    qu.connect(1, 0);
    assert_eq!(qu.is_connected(0, 7), true);
}

#[test]
fn quick_union_is_reflexive_and_separating() {
    let mut qu = QuickUnion::new(3);
    assert_eq!(qu.is_connected(2, 2), true);
    assert_eq!(qu.is_connected(0, 2), false);
    qu.connect(0, 1);
    assert_eq!(qu.is_connected(0, 1), true);
    assert_eq!(qu.is_connected(1, 2), false);
}

#[test]
fn weighted_union_is_idempotent() {
    let mut qf = WeightedQuickUnion::new(5);
    qf.connect(1, 2);
    qf.connect(1, 2);
    qf.connect(2, 1);
    assert_eq!(qf.is_connected(1, 2), true);
    assert_eq!(qf.is_connected(0, 1), false);
    assert_eq!(qf.is_connected(3, 4), false);
}

#[test]
fn weighted_union_keeps_connections() {
    let mut qf = WeightedQuickUnion::new(6);
    qf.connect(0, 1);
    assert_eq!(qf.is_connected(0, 1), true);
    qf.connect(2, 3);
    qf.connect(4, 5);
    qf.connect(3, 4);
    assert_eq!(qf.is_connected(0, 1), true);
    assert_eq!(qf.is_connected(2, 5), true);
    assert_eq!(qf.is_connected(0, 5), false);
}
