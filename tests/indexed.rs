use hmwiz::indexed::{key_position, GridError, IndexedGrid};

#[test]
fn create_igrid() {
    let igrid: IndexedGrid<i32> =
        IndexedGrid::from(vec![(0, 4, 275), (3, 4, 121), (10, 7, 446)], 0).unwrap();
    assert_eq!(igrid.get(0, 4), Ok(275));
    assert_eq!(igrid.get(3, 4), Ok(121));
    assert_eq!(igrid.get(10, 7), Ok(446));
    assert_eq!(igrid.get(0, 7), Ok(0));
    assert_eq!(igrid.rows(), 3);
    assert_eq!(igrid.cols(), 2);
}

#[test]
fn igrid_rejects_unknown_keys() {
    let igrid: IndexedGrid<i32> = IndexedGrid::from(vec![(0, 4, 1), (3, 4, 2)], 0).unwrap();
    assert_eq!(igrid.get(1, 4), Err(GridError::InvalidIndex));
    assert_eq!(igrid.get(0, 5), Err(GridError::InvalidIndex));
    assert_eq!(igrid.get_index(3, 4), Ok(1));
}

#[test]
fn igrid_rejects_duplicate_points() {
    let r: Result<IndexedGrid<i32>, GridError> = IndexedGrid::from(vec![(2, 2, 1), (5, 1, 0), (2, 2, 3)], 0);
    assert_eq!(r.unwrap_err(), GridError::DuplicatePoint);
}

#[test]
fn igrid_set_known_and_unknown() {
    let mut igrid: IndexedGrid<i32> = IndexedGrid::from(vec![(1, 1, 5), (4, 9, 6)], -1).unwrap();
    assert_eq!(igrid.get(1, 9), Ok(-1));
    assert_eq!(igrid.set(1, 9, 8), Ok(()));
    assert_eq!(igrid.get(1, 9), Ok(8));
    assert_eq!(igrid.get(4, 9), Ok(6));
    assert_eq!(igrid.set(2, 9, 8), Err(GridError::InvalidIndex));
}

#[test]
fn key_positions_by_binary_search() {
    let keys = vec![1usize, 4, 9, 16, 25];
    assert_eq!(key_position(&keys, 16), Some(3));
    assert_eq!(key_position(&keys, 1), Some(0));
    assert_eq!(key_position(&keys, 5), None);
    assert_eq!(key_position(&Vec::new(), 5), None);
}
