use std::collections::HashMap;
use voxel_engine::collision::{calculate_collisions, try_calculate_collisions, MESH_GAMEOBJECT_ID};
use voxel_engine::octree::Octree;

fn always(_a: u8, _b: u8) -> bool {
    true
}

fn never(_a: u8, _b: u8) -> bool {
    false
}

fn dir(a: u8, b: u8) -> (u8, u8) {
    (a, b)
}

#[test]
fn elements_only_at_the_root_are_never_tested() {
    let octree = Octree::new();
    let mut elements: HashMap<u64, Vec<(u32, u8)>> = HashMap::new();
    elements.insert(0, vec![(1, 10), (2, 20)]);
    let r = calculate_collisions(&octree, &elements, &always, &dir);
    assert!(r.is_empty());
}

#[test]
fn child_element_collides_with_root_element_on_both_sides() {
    let mut octree = Octree::new();
    octree.insert_node(1);
    let mut elements: HashMap<u64, Vec<(u32, u8)>> = HashMap::new();
    elements.insert(0, vec![(1, 10)]);
    elements.insert(1, vec![(2, 20)]);
    let r = calculate_collisions(&octree, &elements, &always, &dir);
    assert_eq!(r.len(), 2);
    assert_eq!(r[&2].objects, vec![1]);
    assert_eq!(r[&2].directions, vec![(10, 20)]);
    assert_eq!(r[&1].objects, vec![2]);
    assert_eq!(r[&1].directions, vec![(20, 10)]);
}

#[test]
fn no_collision_when_the_test_says_none() {
    let mut octree = Octree::new();
    octree.insert_node(1);
    let mut elements: HashMap<u64, Vec<(u32, u8)>> = HashMap::new();
    elements.insert(0, vec![(1, 10)]);
    elements.insert(1, vec![(2, 20)]);
    let r = calculate_collisions(&octree, &elements, &never, &dir);
    assert!(r.is_empty());
}

#[test]
fn meshes_get_no_record() {
    let mut octree = Octree::new();
    octree.insert_node(1);
    let mut elements: HashMap<u64, Vec<(u32, u8)>> = HashMap::new();
    elements.insert(0, vec![(MESH_GAMEOBJECT_ID, 10)]);
    elements.insert(1, vec![(5, 20)]);
    let r = calculate_collisions(&octree, &elements, &always, &dir);
    assert_eq!(r.len(), 1);
    assert_eq!(r[&5].objects, vec![MESH_GAMEOBJECT_ID]);
    assert_eq!(r[&5].directions, vec![(10, 20)]);
}

#[test]
fn same_object_is_not_tested_against_itself() {
    let mut octree = Octree::new();
    octree.insert_node(1);
    let mut elements: HashMap<u64, Vec<(u32, u8)>> = HashMap::new();
    elements.insert(0, vec![(7, 10)]);
    elements.insert(1, vec![(7, 20)]);
    let r = calculate_collisions(&octree, &elements, &always, &dir);
    assert!(r.is_empty());
}

#[test]
fn entering_a_node_with_an_empty_stack_is_refused() {
    let mut octree = Octree::new();
    octree.insert_node(1);
    let elements: HashMap<u64, Vec<(u32, u8)>> = HashMap::new();
    assert!(try_calculate_collisions(&octree, &elements, &always, &dir).is_none());
    let mut with_child_element: HashMap<u64, Vec<(u32, u8)>> = HashMap::new();
    with_child_element.insert(1, vec![(3, 30)]);
    let r = try_calculate_collisions(&octree, &with_child_element, &always, &dir);
    assert!(r.unwrap().is_empty());
}

#[test]
fn entries_below_the_entered_node_are_tested_against_all_others() {
    // stack on entering node 1: [root 1, a 2, b 3]; entries 1 and 0 are
    // tested against all others, entry 2 is not
    let mut octree = Octree::new();
    octree.insert_node(1);
    let mut elements: HashMap<u64, Vec<(u32, u8)>> = HashMap::new();
    elements.insert(0, vec![(1, 10)]);
    elements.insert(1, vec![(2, 20), (3, 30)]);
    let r = calculate_collisions(&octree, &elements, &always, &dir);
    // entry 1 (object 2): with 1 and 3; entry 0 (object 1): with 2 and 3
    assert_eq!(r[&1].objects, vec![2, 2, 3]);
    assert_eq!(r[&2].objects, vec![1, 3, 1]);
    assert_eq!(r[&3].objects, vec![2, 1]);
    assert_eq!(r[&3].directions, vec![(20, 30), (10, 30)]);
}

#[test]
fn sibling_subtrees_do_not_see_each_other() {
    let mut octree = Octree::new();
    octree.insert_node(1);
    octree.insert_node(2);
    let mut elements: HashMap<u64, Vec<(u32, u8)>> = HashMap::new();
    elements.insert(0, vec![(9, 90)]);
    elements.insert(1, vec![(1, 10)]);
    elements.insert(2, vec![(2, 20)]);
    let r = calculate_collisions(&octree, &elements, &always, &dir);
    assert_eq!(r[&9].objects, vec![1, 2]);
    assert_eq!(r[&1].objects, vec![9]);
    assert_eq!(r[&2].objects, vec![9]);
}

#[test]
fn collisions_are_mutual() {
    let mut octree = Octree::new();
    octree.insert_node(1);
    octree.insert_node(10);
    let mut elements: HashMap<u64, Vec<(u32, u8)>> = HashMap::new();
    elements.insert(0, vec![(1, 10), (MESH_GAMEOBJECT_ID, 11)]);
    elements.insert(1, vec![(2, 20), (3, 30)]);
    elements.insert(10, vec![(4, 40), (2, 41)]);
    let r = calculate_collisions(&octree, &elements, &always, &dir);
    let count = |a: u32, b: u32| r.get(&a).map_or(0, |c| c.objects.iter().filter(|&&o| o == b).count());
    for a in 1..5 {
        assert_eq!(count(a, a), 0);
        for b in 1..5 {
            assert_eq!(count(a, b), count(b, a));
        }
    }
    assert!(!r.contains_key(&MESH_GAMEOBJECT_ID));
    assert!(count(4, MESH_GAMEOBJECT_ID) > 0);
}

fn first_below(a: u8, b: u8) -> bool {
    a < b
}

#[test]
fn elements_of_one_node_are_tested_against_each_other() {
    // node 9 holds three objects; the test only says yes when the box of
    // the element tested is smaller than the other's
    let mut octree = Octree::new();
    octree.insert_node(1);
    octree.insert_node(9);
    let mut elements: HashMap<u64, Vec<(u32, u8)>> = HashMap::new();
    elements.insert(0, vec![(MESH_GAMEOBJECT_ID, 0)]);
    elements.insert(9, vec![(1, 10), (2, 20), (3, 30)]);
    let r = calculate_collisions(&octree, &elements, &first_below, &dir);
    let lists = |a: u32, b: u32| r.get(&a).map_or(false, |c| c.objects.contains(&b));
    for (a, b) in [(1, 2), (1, 3), (2, 3)] {
        assert!(lists(a, b));
        assert!(lists(b, a));
    }
}
