use voxel_engine::octree::{AxisFit, NodeFit, Octree, OctreeIterator, OctreeNode, PosInParent};

#[test]
fn idx_mapping_test() {
    for i in 0..10000 {
        let children = OctreeNode::get_idx_children(i);
        for child in children {
            assert_eq!(i, OctreeNode::get_idx_parent(child).unwrap());
        }
    }
    assert_eq!(OctreeNode::get_idx_parent(0), None);
    assert!(OctreeNode::get_idx_children(u64::MAX).len() == 0);
}

#[test]
fn pos_in_parent_mapping() {
    for i in 0..10000 {
        let children = OctreeNode::get_idx_children(i);
        assert_eq!(children.len(), 8);
        assert_eq!(
            OctreeNode::get_idx_pos_in_parent(children[0]).unwrap(),
            PosInParent::X0Y0Z0
        );
        assert_eq!(
            OctreeNode::get_idx_pos_in_parent(children[1]).unwrap(),
            PosInParent::X1Y0Z0
        );
        assert_eq!(
            OctreeNode::get_idx_pos_in_parent(children[2]).unwrap(),
            PosInParent::X0Y1Z0
        );
        assert_eq!(
            OctreeNode::get_idx_pos_in_parent(children[3]).unwrap(),
            PosInParent::X1Y1Z0
        );
        assert_eq!(
            OctreeNode::get_idx_pos_in_parent(children[4]).unwrap(),
            PosInParent::X0Y0Z1
        );
        assert_eq!(
            OctreeNode::get_idx_pos_in_parent(children[5]).unwrap(),
            PosInParent::X1Y0Z1
        );
        assert_eq!(
            OctreeNode::get_idx_pos_in_parent(children[6]).unwrap(),
            PosInParent::X0Y1Z1
        );
        assert_eq!(
            OctreeNode::get_idx_pos_in_parent(children[7]).unwrap(),
            PosInParent::X1Y1Z1
        );
    }
    assert_eq!(OctreeNode::get_idx_pos_in_parent(0), None);
}

#[test]
fn u32_positions_as_expected() {
    assert_eq!(PosInParent::from_u32(0).unwrap(), PosInParent::X0Y0Z0);
    assert_eq!(PosInParent::from_u32(1).unwrap(), PosInParent::X1Y0Z0);
    assert_eq!(PosInParent::from_u32(2).unwrap(), PosInParent::X0Y1Z0);
    assert_eq!(PosInParent::from_u32(3).unwrap(), PosInParent::X1Y1Z0);
    assert_eq!(PosInParent::from_u32(4).unwrap(), PosInParent::X0Y0Z1);
    assert_eq!(PosInParent::from_u32(5).unwrap(), PosInParent::X1Y0Z1);
    assert_eq!(PosInParent::from_u32(6).unwrap(), PosInParent::X0Y1Z1);
    assert_eq!(PosInParent::from_u32(7).unwrap(), PosInParent::X1Y1Z1);
    assert_eq!(PosInParent::from_u32(8), None);
}

#[test]
fn from_bools_test() {
    assert_eq!(PosInParent::from_bools(true, true, true), PosInParent::X0Y0Z0);
    assert_eq!(PosInParent::from_bools(false, true, true), PosInParent::X1Y0Z0);
    assert_eq!(PosInParent::from_bools(true, false, true), PosInParent::X0Y1Z0);
    assert_eq!(PosInParent::from_bools(false, false, true), PosInParent::X1Y1Z0);
    assert_eq!(PosInParent::from_bools(true, true, false), PosInParent::X0Y0Z1);
    assert_eq!(PosInParent::from_bools(false, true, false), PosInParent::X1Y0Z1);
    assert_eq!(PosInParent::from_bools(true, false, false), PosInParent::X0Y1Z1);
    assert_eq!(PosInParent::from_bools(false, false, false), PosInParent::X1Y1Z1);
}

fn pos_in_parent_consistency(pos_in_parent: PosInParent) -> bool {
    pos_in_parent
        == PosInParent::from_bools(
            pos_in_parent.in_lower_x_half(),
            pos_in_parent.in_lower_y_half(),
            pos_in_parent.in_lower_z_half(),
        )
}

#[test]
fn consistency_bools() {
    assert!(pos_in_parent_consistency(PosInParent::X0Y0Z0));
    assert!(pos_in_parent_consistency(PosInParent::X1Y0Z0));
    assert!(pos_in_parent_consistency(PosInParent::X0Y1Z0));
    assert!(pos_in_parent_consistency(PosInParent::X1Y1Z0));
    assert!(pos_in_parent_consistency(PosInParent::X0Y0Z1));
    assert!(pos_in_parent_consistency(PosInParent::X1Y0Z1));
    assert!(pos_in_parent_consistency(PosInParent::X0Y1Z1));
    assert!(pos_in_parent_consistency(PosInParent::X1Y1Z1));
}

#[test]
fn get_idx_correctness() {
    for i in 0..10000 {
        let children = OctreeNode::get_idx_children(i);
        for child in children {
            assert_eq!(
                OctreeNode::get_idx_pos_in_parent(child).unwrap().get_idx(i),
                child
            );
        }
    }
}

#[test]
fn children_of_last_parent_and_edge_positions() {
    let cutoff = u64::MAX / 8 - 1;
    assert!(OctreeNode::has_children(cutoff));
    assert!(!OctreeNode::has_children(cutoff + 1));
    assert_eq!(OctreeNode::get_idx_children(cutoff)[7], u64::MAX - 7);
    // the last seven indices have a parent that cannot have children
    assert_eq!(
        OctreeNode::get_idx_pos_in_parent(u64::MAX),
        Some(PosInParent::X0Y0Z0)
    );
    assert_eq!(OctreeNode::get_idx_parent(u64::MAX), Some((u64::MAX - 1) / 8));
}

fn fit(lower: bool, upper: bool) -> AxisFit {
    AxisFit { lower, upper }
}

#[test]
fn fitting_child_cases() {
    let inside = NodeFit {
        within_self: true,
        x: fit(true, false),
        y: fit(true, false),
        z: fit(true, false),
    };
    assert_eq!(OctreeNode::fitting_child(0, inside), Some(1));
    let upper_x = NodeFit { x: fit(false, true), ..inside };
    assert_eq!(OctreeNode::fitting_child(0, upper_x), Some(2));
    let upper_all = NodeFit {
        within_self: true,
        x: fit(false, true),
        y: fit(false, true),
        z: fit(false, true),
    };
    assert_eq!(OctreeNode::fitting_child(3, upper_all), Some(32));
    // a box on the midpoint goes to the lower half
    let both = NodeFit { x: fit(true, true), ..upper_all };
    assert_eq!(OctreeNode::fitting_child(0, both), Some(7));
    let outside = NodeFit { within_self: false, ..inside };
    assert_eq!(OctreeNode::fitting_child(0, outside), None);
    let straddling = NodeFit { y: fit(false, false), ..inside };
    assert_eq!(OctreeNode::fitting_child(0, straddling), None);
    assert_eq!(OctreeNode::fitting_child(u64::MAX / 8, inside), None);
}

#[test]
fn insert_node_adds_ancestors() {
    let mut tree = Octree::new();
    assert!(tree.contains(0));
    // 100 -> 12 -> 1 -> 0
    tree.insert_node(100);
    assert!(tree.contains(100));
    assert!(tree.contains(12));
    assert!(tree.contains(1));
    assert!(!tree.contains(2));
    assert!(!tree.contains(99));
}

#[test]
fn add_element_descends_while_it_fits() {
    let mut tree = Octree::new();
    // the element fits the lower-x half down to depth two, then straddles
    let leaf = tree.add_element(|idx: u64| {
        let deep = idx >= 9;
        NodeFit {
            within_self: true,
            x: fit(!deep, false),
            y: fit(true, false),
            z: fit(true, false),
        }
    });
    assert_eq!(leaf, 9);
    assert!(tree.contains(1));
    assert!(tree.contains(9));
    assert!(!tree.contains(73));
}

#[test]
fn walk_visits_nodes_depth_first() {
    let mut tree = Octree::new();
    tree.insert_node(9);
    tree.insert_node(2);
    let mut walk: OctreeIterator = tree.iter();
    let mut seen = Vec::new();
    while let Some(n) = walk.next() {
        seen.push(n);
    }
    assert_eq!(seen, vec![1, 9, 1, 0, 2, 0]);
    let mut from_leaf = OctreeIterator::new(&tree, 9);
    assert_eq!(from_leaf.next(), Some(1));
}

/// Where the borders `[lo, hi]` lie relative to the two halves of the cell
/// `[cell_lo, cell_hi]`.
fn axis(lo: f32, hi: f32, cell_lo: f32, cell_hi: f32) -> AxisFit {
    let mid = (cell_lo + cell_hi) / 2.;
    AxisFit {
        lower: lo >= cell_lo && hi <= mid,
        upper: lo >= mid && hi <= cell_hi,
    }
}

fn fit_box(b: [(f32, f32); 3], cell: (f32, f32)) -> NodeFit {
    NodeFit {
        within_self: b.iter().all(|&(lo, hi)| lo >= cell.0 && hi <= cell.1),
        x: axis(b[0].0, b[0].1, cell.0, cell.1),
        y: axis(b[1].0, b[1].1, cell.0, cell.1),
        z: axis(b[2].0, b[2].1, cell.0, cell.1),
    }
}

#[test]
fn find_fitting_child() {
    let cell = (0., 100.);
    let non_fitting = fit_box([(0., 101.), (0., 101.), (0., 101.)], cell);
    assert_eq!(OctreeNode::fitting_child(0, non_fitting), None);
    let x0y0z0 = fit_box([(0., 49.), (0., 49.), (0., 49.)], cell);
    assert_eq!(OctreeNode::fitting_child(0, x0y0z0), Some(1));
    let x1y0z0 = fit_box([(51., 99.), (0., 49.), (0., 49.)], cell);
    assert_eq!(OctreeNode::fitting_child(0, x1y0z0), Some(2));
}

#[test]
fn walk_ends_on_the_deepest_tree() {
    // the root path of the largest index runs through every level; its
    // parent lies past the children cutoff, so the walk turns back there
    let mut tree = Octree::new();
    tree.insert_node(u64::MAX);
    let parent = (u64::MAX - 1) / 8;
    assert!(!OctreeNode::has_children(parent));
    let mut walk: OctreeIterator = tree.iter();
    let mut seen = Vec::new();
    while let Some(n) = walk.next() {
        seen.push(n);
    }
    assert_eq!(seen.len(), 2 * 21);
    assert_eq!(seen[20], parent);
    assert!(!seen.contains(&u64::MAX));
    assert_eq!(*seen.last().unwrap(), 0);
}
