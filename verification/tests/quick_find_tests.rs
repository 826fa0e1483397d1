use percolation::union_find::QuickFind;

#[test]
fn lib_is_unconnected_at_initialisaton() {
    let qf = QuickFind::new(2);
    assert_eq!(qf.is_connected(0, 1), false)
}

#[test]
fn lib_is_reflexive() {
    let qf = QuickFind::new(2);
    assert_eq!(qf.is_connected(0, 0), true);
    assert_eq!(qf.is_connected(1, 1), true);
}

#[test]
fn lib_can_connect_single_node() {
    let mut qf = QuickFind::new(2);
    qf.connect(0, 1);
    assert_eq!(qf.is_connected(0, 1), true);
}

#[test]
fn lib_doesnt_connect_everything() {
    let mut qf = QuickFind::new(3);
    qf.connect(0, 1);
    assert_eq!(qf.is_connected(0, 1), true);
    assert_eq!(qf.is_connected(0, 2), false);
    assert_eq!(qf.is_connected(1, 2), false);
}

#[test]
fn lib_connects_transitively() {
    let mut qf = QuickFind::new(2);
    qf.connect(0, 1);
    assert_eq!(qf.is_connected(0, 1), true);
    assert_eq!(qf.is_connected(1, 0), true);
}

#[test]
fn lib_connects_across_unions() {
    let mut qf = QuickFind::new(3);
    qf.connect(0, 1);
    qf.connect(1, 2);
    assert_eq!(qf.is_connected(0, 2), true);
}

#[test]
fn lib_can_count_unconnected_groups() {
    let qf = QuickFind::new(3);
    assert_eq!(qf.number_of_groups(), 3);
}

#[test]
fn lib_can_count_connected_groups() {
    let mut qf = QuickFind::new(3);
    assert_eq!(qf.number_of_groups(), 3);
    qf.connect(0, 1);
    assert_eq!(qf.number_of_groups(), 2);
    qf.connect(0, 2);
    assert_eq!(qf.number_of_groups(), 1);
}

#[test]
fn lib_long_test() {
    let mut qf = QuickFind::new(10);
    qf.connect(4, 3);
    qf.connect(3, 8);
    qf.connect(6, 5);
    qf.connect(9, 4);
    qf.connect(2, 1);
    assert_eq!(qf.is_connected(0, 7), false);
    assert_eq!(qf.is_connected(8, 9), true);
    qf.connect(5, 0);
    qf.connect(7, 2);
    qf.connect(6, 1);
    qf.connect(1, 0);
    assert_eq!(qf.is_connected(0, 7), true);
}

#[test]
fn counting_ignores_redundant_connects() {
    let mut qf = QuickFind::new(4);
    qf.connect(0, 1);
    qf.connect(0, 1);
    qf.connect(1, 0);
    assert_eq!(qf.number_of_groups(), 3);
    assert_eq!(qf.is_connected(2, 3), false);
}
