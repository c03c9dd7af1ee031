use voxel_engine::point_map::PointMap;
use voxel_engine::pos_map::PosMap;

#[test]
fn pos_map_keeps_positions_apart() {
    let mut m: PosMap<u32> = PosMap::new();
    assert_eq!(m.insert((0, 0, 0), 1), None);
    assert_eq!(m.insert((-1, 0, 0), 2), None);
    assert_eq!(m.insert((0, -1, 0), 3), None);
    assert_eq!(m.insert((0, 0, -1), 4), None);
    assert_eq!(m.insert((i32::MIN, i32::MAX, -7), 5), None);
    assert_eq!(m.get(&(0, 0, 0)), Some(&1));
    assert_eq!(m.get(&(-1, 0, 0)), Some(&2));
    assert_eq!(m.get(&(0, -1, 0)), Some(&3));
    assert_eq!(m.get(&(0, 0, -1)), Some(&4));
    assert_eq!(m.get(&(i32::MIN, i32::MAX, -7)), Some(&5));
    assert_eq!(m.get(&(1, 0, 0)), None);
    assert_eq!(m.insert((0, -1, 0), 30), Some(3));
    assert_eq!(m.remove(&(-1, 0, 0)), Some(2));
    assert!(!m.contains_key(&(-1, 0, 0)));
    assert_eq!(m.remove(&(-1, 0, 0)), None);
    let mut keys = m.keys();
    keys.sort();
    assert_eq!(keys, vec![(i32::MIN, i32::MAX, -7), (0, -1, 0), (0, 0, -1), (0, 0, 0)]);
}

#[test]
fn point_map_keeps_keys_apart() {
    let mut m = PointMap::new();
    m.insert((0, 0, 0, 0), 1);
    m.insert((0, 0, 0, 1), 2);
    m.insert((0, 0, -1, 0), 3);
    m.insert((-1, 0, 0, 0), 4);
    m.insert((isize::MIN, isize::MAX, -16, 2), 5);
    assert_eq!(m.get(&(0, 0, 0, 0)), Some(1));
    assert_eq!(m.get(&(0, 0, 0, 1)), Some(2));
    assert_eq!(m.get(&(0, 0, -1, 0)), Some(3));
    assert_eq!(m.get(&(-1, 0, 0, 0)), Some(4));
    assert_eq!(m.get(&(isize::MIN, isize::MAX, -16, 2)), Some(5));
    assert_eq!(m.get(&(0, 1, 0, 0)), None);
    m.insert((0, 0, 0, 1), 20);
    assert_eq!(m.get(&(0, 0, 0, 1)), Some(20));
    assert_eq!(m.get(&(0, 0, 0, 0)), Some(1));
}
