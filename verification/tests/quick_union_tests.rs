use percolation::union_find::QuickUnion;

#[test]
fn is_unconnected_at_initialisaton() {
    let qf = QuickUnion::new(2);
    assert_eq!(qf.is_connected(0, 1), false)
}

#[test]
fn is_reflexive() {
    let qf = QuickUnion::new(2);
    assert_eq!(qf.is_connected(0, 0), true);
    assert_eq!(qf.is_connected(1, 1), true);
}

#[test]
fn can_connect_single_node() {
    let mut qf = QuickUnion::new(2);
    qf.connect(0, 1);
    assert_eq!(qf.is_connected(0, 1), true);
}

#[test]
fn doesnt_connect_everything() {
    let mut qf = QuickUnion::new(3);
    qf.connect(0, 1);
    assert_eq!(qf.is_connected(0, 1), true);
    assert_eq!(qf.is_connected(0, 2), false);
    assert_eq!(qf.is_connected(1, 2), false);
}

#[test]
fn connects_transitively() {
    let mut qf = QuickUnion::new(2);
    qf.connect(0, 1);
    assert_eq!(qf.is_connected(0, 1), true);
    assert_eq!(qf.is_connected(1, 0), true);
}

#[test]
fn connects_across_unions() {
    let mut qf = QuickUnion::new(3);
    qf.connect(0, 1);
    qf.connect(1, 2);
    assert_eq!(qf.is_connected(0, 2), true);
}

#[test]
fn long_test() {
    let mut qf = QuickUnion::new(10);
    qf.connect(4, 3);
    qf.connect(3, 8);
    qf.connect(6, 5);
    qf.connect(9, 4);
    qf.connect(2, 1);
    assert_eq!(qf.is_connected(0, 7), false);
    assert_eq!(qf.is_connected(8, 9), true);
    qf.connect(5, 0);
    qf.connect(7, 2);
    qf.connect(6, 1);
    qf.connect(1, 0);
    assert_eq!(qf.is_connected(0, 7), true);
}
