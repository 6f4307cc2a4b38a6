use symboreg::index::{check_related, depth_from_idx, length_from_depth};

#[test]
fn depth_of_the_first_positions() {
    assert_eq!(depth_from_idx(0), 1);
    assert_eq!(depth_from_idx(1), 2);
    assert_eq!(depth_from_idx(2), 2);
    assert_eq!(depth_from_idx(3), 3);
    assert_eq!(depth_from_idx(6), 3);
    assert_eq!(depth_from_idx(62), 6);
    assert_eq!(depth_from_idx(63), 7);
}

#[test]
fn length_of_full_trees() {
    assert_eq!(length_from_depth(0), 0);
    assert_eq!(length_from_depth(1), 1);
    assert_eq!(length_from_depth(6), 63);
}

#[test]
fn related_positions() {
    assert!(check_related(0, 17));
    assert!(check_related(1, 3));
    assert!(check_related(3, 1));
    assert!(check_related(5, 5));
    assert!(!check_related(1, 2));
    assert!(!check_related(3, 4));
    assert!(!check_related(4, 13));
    assert!(check_related(6, 13));
}
