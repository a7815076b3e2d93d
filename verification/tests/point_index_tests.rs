//! The list of compressed points and the map from compressed points.

use ristretto255_dlog::point_index::PointIndex;
use ristretto255_dlog::point_map::PointMap;

fn key(first: u8, last: u8) -> [u8; 32] {
    let mut bytes = [0u8; 32];
    bytes[0] = first;
    bytes[31] = last;
    bytes
}

#[test]
fn point_index_finds_the_last_position_of_a_point() {
    let mut index = PointIndex::new();
    assert_eq!(index.len(), 0);
    assert_eq!(index.find(&key(1, 1)), None);
    index.push(key(1, 1));
    index.push(key(2, 1));
    index.push(key(1, 1));
    index.push(key(3, 7));
    assert_eq!(index.len(), 4);
    assert_eq!(index.find(&key(1, 1)), Some(2));
    assert_eq!(index.find(&key(2, 1)), Some(1));
    assert_eq!(index.find(&key(3, 7)), Some(3));
    assert_eq!(index.find(&key(3, 8)), None);
    assert_eq!(index.find(&key(4, 1)), None);
    assert_eq!(*index.key(0), key(1, 1));
    assert_eq!(*index.key(3), key(3, 7));
}

#[test]
fn point_index_tells_points_apart_that_share_their_first_bytes() {
    // All these points have the same first eight bytes.
    let mut index = PointIndex::new();
    for last in 0..50u8 {
        index.push(key(9, last));
    }
    for last in 0..50u8 {
        assert_eq!(index.find(&key(9, last)), Some(last as usize));
    }
    assert_eq!(index.find(&key(9, 50)), None);
    // One of them once more: the later position wins.
    index.push(key(9, 20));
    assert_eq!(index.find(&key(9, 20)), Some(50));
    assert_eq!(index.find(&key(9, 21)), Some(21));
}

#[test]
fn point_index_holds_many_points() {
    let mut index = PointIndex::new();
    for n in 0..5000u32 {
        let mut bytes = [0u8; 32];
        bytes[..4].copy_from_slice(&n.to_le_bytes());
        bytes[28..].copy_from_slice(&n.to_be_bytes());
        index.push(bytes);
    }
    assert_eq!(index.len(), 5000);
    for n in (0..5000u32).step_by(17) {
        let mut bytes = [0u8; 32];
        bytes[..4].copy_from_slice(&n.to_le_bytes());
        bytes[28..].copy_from_slice(&n.to_be_bytes());
        assert_eq!(index.find(&bytes), Some(n as usize));
        bytes[16] = 1;
        assert_eq!(index.find(&bytes), None);
    }
}

#[test]
fn point_map_keeps_one_entry_for_each_point() {
    let mut map: PointMap<u64> = PointMap::new();
    assert_eq!(map.len(), 0);
    assert_eq!(map.position(&key(1, 1)), None);
    map.insert(key(1, 1), 10);
    map.insert(key(2, 2), 20);
    assert_eq!(map.len(), 2);
    // A point that is inserted again keeps its place and takes the new value.
    map.insert(key(1, 1), 30);
    assert_eq!(map.len(), 2);
    assert_eq!(map.position(&key(1, 1)), Some(0));
    assert_eq!(map.position(&key(2, 2)), Some(1));
    assert_eq!(map.position(&key(2, 3)), None);
    assert_eq!(*map.value_at(0), 30);
    assert_eq!(*map.value_at(1), 20);
    assert_eq!(*map.key_at(0), key(1, 1));
    assert_eq!(*map.key_at(1), key(2, 2));
    map.insert(key(2, 3), 40);
    assert_eq!(map.len(), 3);
    assert_eq!(map.position(&key(2, 3)), Some(2));
    assert_eq!(*map.value_at(2), 40);
}
