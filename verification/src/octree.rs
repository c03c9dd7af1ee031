//! Index arithmetic of a linear octree.
//!
//! The root has index 0; the children of node `i` are `8 * i + 1 ..= 8 * i + 8`,
//! ordered by their position in the parent (see [`PosInParent`]).
use vstd::prelude::*;
use std::collections::HashSet;

verus! {

/// Position of a child inside its parent cell.
///
/// `X0`/`X1` is the lower/upper half along x, and likewise for y and z.
/// The variants are listed in the order of their array position
/// `x + 2 * y + 4 * z`.
#[derive(PartialEq, Eq, Structural, Debug, Clone, Copy)]
pub enum PosInParent {
    X0Y0Z0,
    X1Y0Z0,
    X0Y1Z0,
    X1Y1Z0,
    X0Y0Z1,
    X1Y0Z1,
    X0Y1Z1,
    X1Y1Z1,
}

/// The array position (0..8) of a child position.
pub open spec fn pos_index(p: PosInParent) -> int {
    match p {
        PosInParent::X0Y0Z0 => 0,
        PosInParent::X1Y0Z0 => 1,
        PosInParent::X0Y1Z0 => 2,
        PosInParent::X1Y1Z0 => 3,
        PosInParent::X0Y0Z1 => 4,
        PosInParent::X1Y0Z1 => 5,
        PosInParent::X0Y1Z1 => 6,
        PosInParent::X1Y1Z1 => 7,
    }
}

/// The child position stored at array position `n` (meaningful for `n < 8`).
pub open spec fn pos_of_index(n: int) -> PosInParent {
    if n == 0 {
        PosInParent::X0Y0Z0
    } else if n == 1 {
        PosInParent::X1Y0Z0
    } else if n == 2 {
        PosInParent::X0Y1Z0
    } else if n == 3 {
        PosInParent::X1Y1Z0
    } else if n == 4 {
        PosInParent::X0Y0Z1
    } else if n == 5 {
        PosInParent::X1Y0Z1
    } else if n == 6 {
        PosInParent::X0Y1Z1
    } else {
        PosInParent::X1Y1Z1
    }
}

/// Array position of the child that lies in the given halves.
pub open spec fn index_from_halves(lower_x: bool, lower_y: bool, lower_z: bool) -> int {
    (if lower_x { 0int } else { 1int }) + (if lower_y { 0int } else { 2int }) + (if lower_z {
        0int
    } else {
        4int
    })
}

/// Largest node index that still has children whose indices fit in a `u64`.
pub open spec fn lowest_node_cutoff() -> int {
    u64::MAX / 8 - 1
}

/// Index of the parent of a non-root node.
pub open spec fn parent_of(idx: int) -> int {
    (idx - 1) / 8
}

/// Index of the child at array position `k` of node `idx`.
pub open spec fn child_of(idx: int, k: int) -> int {
    8 * idx + k + 1
}

impl PosInParent {
    /// Whether this child lies in the lower half along x.
    pub fn in_lower_x_half(&self) -> (r: bool)
        ensures
            r == (pos_index(*self) % 2 == 0),
    {
        *self == PosInParent::X0Y0Z0 || *self == PosInParent::X0Y1Z0 || *self
            == PosInParent::X0Y0Z1 || *self == PosInParent::X0Y1Z1
    }

    /// Whether this child lies in the lower half along y.
    pub fn in_lower_y_half(&self) -> (r: bool)
        ensures
            r == ((pos_index(*self) / 2) % 2 == 0),
    {
        *self == PosInParent::X0Y0Z0 || *self == PosInParent::X1Y0Z0 || *self
            == PosInParent::X0Y0Z1 || *self == PosInParent::X1Y0Z1
    }

    /// Whether this child lies in the lower half along z.
    pub fn in_lower_z_half(&self) -> (r: bool)
        ensures
            r == (pos_index(*self) < 4),
    {
        *self == PosInParent::X0Y0Z0 || *self == PosInParent::X1Y0Z0 || *self
            == PosInParent::X0Y1Z0 || *self == PosInParent::X1Y1Z0
    }

    /// The child position that lies in the given halves.
    pub fn from_bools(in_lower_x_half: bool, in_lower_y_half: bool, in_lower_z_half: bool) -> (r:
        Self)
        ensures
            pos_index(r) == index_from_halves(in_lower_x_half, in_lower_y_half, in_lower_z_half),
    {
        let mut array_pos: u32 = 0;
        if !in_lower_x_half {
            array_pos += 1;
        }
        if !in_lower_y_half {
            array_pos += 2;
        }
        if !in_lower_z_half {
            array_pos += 4;
        }
        match Self::from_u32(array_pos) {
            Some(p) => p,
            None => PosInParent::X1Y1Z1,
        }
    }

    /// The child position stored at an array position; `None` past the
    /// eighth position.
    pub fn from_u32(array_pos: u32) -> (r: Option<Self>)
        ensures
            array_pos < 8 ==> r == Some(pos_of_index(array_pos as int)),
            array_pos < 8 ==> pos_index(r.unwrap()) == array_pos,
            array_pos >= 8 ==> r is None,
    {
        match array_pos {
            0 => Some(PosInParent::X0Y0Z0),
            1 => Some(PosInParent::X1Y0Z0),
            2 => Some(PosInParent::X0Y1Z0),
            3 => Some(PosInParent::X1Y1Z0),
            4 => Some(PosInParent::X0Y0Z1),
            5 => Some(PosInParent::X1Y0Z1),
            6 => Some(PosInParent::X0Y1Z1),
            7 => Some(PosInParent::X1Y1Z1),
            _ => None,
        }
    }

    /// Index of the child at this position of the node `parent_idx`.
    pub fn get_idx(&self, parent_idx: u64) -> (r: u64)
        requires
            8 * parent_idx + 8 <= u64::MAX,
        ensures
            r == child_of(parent_idx as int, pos_index(*self)),
    {
        match *self {
            PosInParent::X0Y0Z0 => parent_idx * 8 + 1,
            PosInParent::X1Y0Z0 => parent_idx * 8 + 2,
            PosInParent::X0Y1Z0 => parent_idx * 8 + 3,
            PosInParent::X1Y1Z0 => parent_idx * 8 + 4,
            PosInParent::X0Y0Z1 => parent_idx * 8 + 5,
            PosInParent::X1Y0Z1 => parent_idx * 8 + 6,
            PosInParent::X0Y1Z1 => parent_idx * 8 + 7,
            PosInParent::X1Y1Z1 => parent_idx * 8 + 8,
        }
    }
}


/// The integer part of an octree node: its index.
///
/// The node's cell (its borders along x, y and z) follows from the index and
/// the root's cell and is kept by the caller.
#[derive(PartialEq, Eq, Structural, Debug, Clone, Copy)]
pub struct OctreeNode {
    pub index: u64,
}

/// Whether a node can have children (whose indices fit in a `u64`).
pub open spec fn spec_has_children(idx: int) -> bool {
    idx <= lowest_node_cutoff()
}

/// Where a bounding box lies relative to the two halves of a cell along one axis.
#[derive(PartialEq, Eq, Structural, Debug, Clone, Copy)]
pub struct AxisFit {
    /// The box lies within the lower half.
    pub lower: bool,
    /// The box lies within the upper half.
    pub upper: bool,
}

/// Where a bounding box lies relative to the cell of a node.
#[derive(PartialEq, Eq, Structural, Debug, Clone, Copy)]
pub struct NodeFit {
    /// The box lies within the node's cell.
    pub within_self: bool,
    pub x: AxisFit,
    pub y: AxisFit,
    pub z: AxisFit,
}

/// The child of node `index` that a box with the given fit goes into: none
/// when the box leaves the cell, fits neither half along some axis, or the
/// node cannot have children; otherwise the child in the box's halves, where
/// a box that fits both halves of an axis (it lies on the midpoint) goes to
/// the lower one.
pub open spec fn spec_fitting_child(index: u64, fit: NodeFit) -> Option<u64> {
    if fit.within_self && (fit.x.lower || fit.x.upper) && (fit.y.lower || fit.y.upper) && (
    fit.z.lower || fit.z.upper) && spec_has_children(index as int) {
        Some(child_of(index as int, index_from_halves(fit.x.lower, fit.y.lower, fit.z.lower)) as u64)
    } else {
        None
    }
}

/// The child chosen for a box is a child of the node that lies in the box's
/// half along each axis. Children are numbered x first, then y, then z: at
/// array position `k = c - 8 * index - 1`, bit 0 is set for the upper x
/// half, bit 1 for the upper y half and bit 2 for the upper z half; a box
/// on the midpoint of an axis goes to the lower half. No child is chosen
/// exactly when the box leaves the cell, fits no half of some axis, or the
/// node cannot have children.
pub proof fn lemma_fitting_child_halves(index: u64, fit: NodeFit)
    ensures
        spec_fitting_child(index, fit) is None <==> !fit.within_self || !(fit.x.lower || fit.x.upper) || !(
        fit.y.lower || fit.y.upper) || !(fit.z.lower || fit.z.upper) || !spec_has_children(index as int),
        spec_fitting_child(index, fit) matches Some(c) ==> {
            let k = c - 8 * index - 1;
            &&& parent_of(c as int) == index
            &&& 0 <= k < 8
            &&& (k % 2 == 0) == fit.x.lower
            &&& ((k / 2) % 2 == 0) == fit.y.lower
            &&& (k < 4) == fit.z.lower
        },
{
}

impl OctreeNode {
    /// Index of the parent node; `None` for the root.
    pub fn get_idx_parent(idx: u64) -> (r: Option<u64>)
        ensures
            idx == 0 ==> r is None,
            idx != 0 ==> r == Some(parent_of(idx as int) as u64),
    {
        if idx != 0 {
            Some((idx - 1) / 8)
        } else {
            None
        }
    }

    /// Whether the node's children have indices that fit in a `u64`.
    pub fn has_children(idx: u64) -> (r: bool)
        ensures
            r == spec_has_children(idx as int),
    {
        let lowest_node_cutoff = u64::MAX / 8 - 1;
        idx <= lowest_node_cutoff
    }

    /// The indices of all eight children, in array order; empty for nodes
    /// that cannot have children.
    pub fn get_idx_children(idx: u64) -> (r: Vec<u64>)
        ensures
            spec_has_children(idx as int) ==> r@.len() == 8,
            spec_has_children(idx as int) ==> forall|k: int|
                0 <= k < 8 ==> #[trigger] r@[k] == child_of(idx as int, k),
            !spec_has_children(idx as int) ==> r@.len() == 0,
    {
        let mut children: Vec<u64> = Vec::new();
        if OctreeNode::has_children(idx) {
            let first = idx * 8 + 1;
            let mut k: u64 = 0;
            while k < 8
                invariant
                    k <= 8,
                    spec_has_children(idx as int),
                    first == 8 * idx + 1,
                    children@.len() == k,
                    forall|j: int| 0 <= j < k ==> #[trigger] children@[j] == child_of(idx as int, j),
                decreases 8 - k,
            {
                children.push(first + k);
                k += 1;
            }
        }
        children
    }

    /// Position of a node inside its parent; `None` for the root.
    ///
    /// A node whose parent cannot have children (the last seven indices of
    /// the `u64` range) is not found among its siblings and is reported at the
    /// first position.
    pub fn get_idx_pos_in_parent(idx: u64) -> (r: Option<PosInParent>)
        ensures
            idx == 0 ==> r is None,
            idx != 0 && spec_has_children(parent_of(idx as int)) ==> r == Some(
                pos_of_index((idx - 1) % 8),
            ),
            idx != 0 && !spec_has_children(parent_of(idx as int)) ==> r == Some(
                PosInParent::X0Y0Z0,
            ),
    {
        let parent = match OctreeNode::get_idx_parent(idx) {
            Some(p) => p,
            None => {
                return None;
            },
        };
        let sibling_array = OctreeNode::get_idx_children(parent);
        let mut arr_pos: u32 = 0;
        let mut i: usize = 0;
        while i < sibling_array.len()
            invariant
                i <= sibling_array@.len(),
                arr_pos == i,
                sibling_array@.len() <= 8,
                parent == parent_of(idx as int),
                idx != 0,
                spec_has_children(parent as int) ==> sibling_array@.len() == 8,
                spec_has_children(parent as int) ==> forall|k: int|
                    0 <= k < 8 ==> #[trigger] sibling_array@[k] == child_of(parent as int, k),
                spec_has_children(parent as int) ==> i <= (idx - 1) % 8,
                !spec_has_children(parent as int) ==> sibling_array@.len() == 0,
            ensures
                spec_has_children(parent as int) ==> arr_pos == (idx - 1) % 8,
                !spec_has_children(parent as int) ==> arr_pos == 0,
            decreases sibling_array@.len() - i,
        {
            assert(idx - 1 == 8 * parent + (idx - 1) % 8);
            if sibling_array[i] == idx {
                break;
            }
            arr_pos += 1;
            i += 1;
        }
        PosInParent::from_u32(arr_pos)
    }

    /// The child of node `index` that a bounding box fits into, if any
    /// (see [`spec_fitting_child`]).
    pub fn fitting_child(index: u64, fit: NodeFit) -> (r: Option<u64>)
        ensures
            r == spec_fitting_child(index, fit),
    {
        if !fit.within_self {
            return None;
        }
        if (!fit.x.lower && !fit.x.upper) || (!fit.y.lower && !fit.y.upper) || (!fit.z.lower
            && !fit.z.upper) {
            return None;
        }
        if !OctreeNode::has_children(index) {
            return None;
        }
        Some(PosInParent::from_bools(fit.x.lower, fit.y.lower, fit.z.lower).get_idx(index))
    }
}

/// The nodes on the way from `idx` up to the root, both included.
pub open spec fn root_path(idx: int) -> Set<u64>
    decreases idx,
{
    if idx <= 0 {
        set![0u64]
    } else {
        root_path(parent_of(idx)).insert(idx as u64)
    }
}

/// A set of node indices forms a tree: it holds the root and the parent of
/// each of its other nodes.
pub open spec fn tree_closed(nodes: Set<u64>) -> bool {
    &&& nodes.contains(0u64)
    &&& forall|n: u64| #[trigger] nodes.contains(n) && n != 0 ==> nodes.contains(
        parent_of(n as int) as u64,
    )
}

/// A tree that holds a node holds the whole way from it to the root.
pub proof fn lemma_tree_holds_root_path(nodes: Set<u64>, idx: u64)
    requires
        tree_closed(nodes),
        nodes.contains(idx),
    ensures
        root_path(idx as int).subset_of(nodes),
    decreases idx,
{
    if idx != 0 {
        lemma_tree_holds_root_path(nodes, parent_of(idx as int) as u64);
    }
}

/// The nodes on the way to the root form a tree themselves, and every one of
/// them lies on or above `idx`.
pub proof fn lemma_root_path_closed(idx: u64)
    ensures
        tree_closed(root_path(idx as int)),
        root_path(idx as int).contains(idx),
        forall|n: u64| #[trigger] root_path(idx as int).contains(n) ==> n <= idx,
    decreases idx,
{
    if idx != 0 {
        lemma_root_path_closed(parent_of(idx as int) as u64);
    }
}

/// The set of nodes of an octree. Only the indices are kept: the cell of a
/// node follows from its index and the root's cell.
pub struct Octree {
    nodes: HashSet<u64>,
}

impl Octree {
    /// The indices of the nodes present in the tree.
    pub closed spec fn node_set(&self) -> Set<u64> {
        self.nodes@
    }

    /// The node set forms a tree rooted at 0.
    pub open spec fn wf(&self) -> bool {
        tree_closed(self.node_set())
    }

    /// A tree that holds only the root.
    pub fn new() -> (r: Self)
        ensures
            r.wf(),
            r.node_set() == set![0u64],
    {
        let mut nodes: HashSet<u64> = HashSet::new();
        nodes.insert(0);
        let r = Octree { nodes };
        assert(r.node_set() =~= set![0u64]);
        r
    }

    /// Whether a node is present.
    pub fn contains(&self, idx: u64) -> (r: bool)
        ensures
            r == self.node_set().contains(idx),
    {
        self.nodes.contains(&idx)
    }

    /// Inserts a node together with all its missing ancestors.
    pub fn insert_node(&mut self, idx: u64)
        requires
            old(self).wf(),
            idx != 0,
        ensures
            final(self).wf(),
            final(self).node_set() == old(self).node_set() + root_path(idx as int),
        decreases idx,
    {
        if self.nodes.contains(&idx) {
            proof {
                lemma_tree_holds_root_path(self.node_set(), idx);
                assert(self.node_set() =~= old(self).node_set() + root_path(idx as int));
            }
            return;
        }
        let parent = (idx - 1) / 8;
        if !self.nodes.contains(&parent) {
            self.insert_node(parent);
        } else {
            proof {
                lemma_tree_holds_root_path(self.node_set(), parent);
                assert(self.node_set() =~= old(self).node_set() + root_path(parent as int));
            }
        }
        let ghost mid = self.node_set();
        self.nodes.insert(idx);
        proof {
            assert(self.node_set() =~= old(self).node_set() + root_path(idx as int));
            assert forall|n: u64| #[trigger] self.node_set().contains(n) && n != 0 implies self.node_set().contains(
                parent_of(n as int) as u64,
            ) by {
                if n != idx {
                    assert(mid.contains(n));
                }
            }
        }
    }
}

impl Octree {
    /// Places an element in the tree: starting at the root, it descends into
    /// the child that `fit` reports the element to fit into, inserting each
    /// node on the way, and returns the node where it stops.
    pub fn add_element<F: Fn(u64) -> NodeFit>(&mut self, fit: F) -> (r: u64)
        requires
            old(self).wf(),
            forall|i: u64| call_requires(fit, (i,)),
        ensures
            final(self).wf(),
            final(self).node_set() == old(self).node_set() + root_path(r as int),
            exists|o: NodeFit| call_ensures(fit, (r,), o) && spec_fitting_child(r, o) is None,
            forall|n: u64|
                #![trigger root_path(r as int).contains(n)]
                root_path(r as int).contains(n) && n != r ==> exists|c: u64, o: NodeFit|
                    root_path(r as int).contains(c) && parent_of(c as int) == n && call_ensures(
                        fit,
                        (n,),
                        o,
                    ) && spec_fitting_child(n, o) == Some(c),
    {
        let mut cur: u64 = 0;
        let mut next = OctreeNode::fitting_child(cur, fit(cur));
        assert(self.node_set() =~= old(self).node_set() + root_path(0));
        while next.is_some()
            invariant
                self.wf(),
                forall|i: u64| call_requires(fit, (i,)),
                self.node_set() == old(self).node_set() + root_path(cur as int),
                exists|o: NodeFit| call_ensures(fit, (cur,), o) && spec_fitting_child(cur, o) == next,
                forall|n: u64|
                    #![trigger root_path(cur as int).contains(n)]
                    root_path(cur as int).contains(n) && n != cur ==> exists|c: u64, o: NodeFit|
                        root_path(cur as int).contains(c) && parent_of(c as int) == n
                            && call_ensures(fit, (n,), o) && spec_fitting_child(n, o) == Some(c),
            decreases u64::MAX - cur,
        {
            let child = next.unwrap();
            let ghost o0 = choose|o: NodeFit|
                call_ensures(fit, (cur,), o) && spec_fitting_child(cur, o) == next;
            proof {
                let k = index_from_halves(o0.x.lower, o0.y.lower, o0.z.lower);
                lemma_child_parent(cur as int, k);
                lemma_root_path_closed(cur);
            }
            self.insert_node(child);
            let ghost prev = cur;
            cur = child;
            next = OctreeNode::fitting_child(cur, fit(cur));
            proof {
                assert(root_path(cur as int) == root_path(prev as int).insert(cur));
                assert(self.node_set() =~= old(self).node_set() + root_path(cur as int));
                assert forall|n: u64|
                    #![trigger root_path(cur as int).contains(n)]
                    root_path(cur as int).contains(n) && n != cur implies exists|c: u64, o: NodeFit|
                        root_path(cur as int).contains(c) && parent_of(c as int) == n
                            && call_ensures(fit, (n,), o) && spec_fitting_child(n, o) == Some(c) by {
                    if n == prev {
                        assert(root_path(cur as int).contains(cur));
                        assert(call_ensures(fit, (n,), o0) && spec_fitting_child(n, o0) == Some(cur));
                    } else {
                        assert(root_path(prev as int).contains(n));
                        let (c1, o1) = choose|c: u64, o: NodeFit|
                            root_path(prev as int).contains(c) && parent_of(c as int) == n
                                && call_ensures(fit, (n,), o) && spec_fitting_child(n, o) == Some(c);
                        assert(root_path(cur as int).contains(c1));
                    }
                }
            }
        }
        cur
    }
}

/// The first child of `cur`, at array position `k` or later, that is present
/// in `nodes` and has an index above `last_up`.
pub open spec fn first_open_child(nodes: Set<u64>, cur: int, last_up: int, k: int) -> Option<u64>
    decreases 8 - k,
{
    if k >= 8 || !spec_has_children(cur) {
        None
    } else if nodes.contains(child_of(cur, k) as u64) && last_up < child_of(cur, k) {
        Some(child_of(cur, k) as u64)
    } else {
        first_open_child(nodes, cur, last_up, k + 1)
    }
}

/// Depth-first walk over the nodes of an octree.
///
/// Each step descends into the first present child above the node last
/// climbed out of, or else climbs to the parent; the walk ends when it would
/// climb out of the root.
pub struct OctreeIterator<'a> {
    octree: &'a Octree,
    last_up: u64,
    cur: u64,
}

impl<'a> OctreeIterator<'a> {
    /// The tree being walked.
    pub closed spec fn tree(&self) -> Set<u64> {
        self.octree.node_set()
    }

    /// The node the walk stands on.
    pub closed spec fn current(&self) -> u64 {
        self.cur
    }

    /// The node the walk last climbed out of (0 before the first climb).
    pub closed spec fn last_climbed(&self) -> u64 {
        self.last_up
    }

    /// A walk over `octree` that starts at node `start`.
    pub fn new(octree: &'a Octree, start: u64) -> (r: Self)
        ensures
            r.tree() == octree.node_set(),
            r.current() == start,
            r.last_climbed() == 0,
    {
        OctreeIterator { octree, last_up: 0, cur: start }
    }

    /// One step of the walk; `None` when it climbs out of the root.
    pub fn next(&mut self) -> (r: Option<u64>)
        ensures
            final(self).tree() == old(self).tree(),
            ({
                let open = first_open_child(
                    old(self).tree(),
                    old(self).current() as int,
                    old(self).last_climbed() as int,
                    0,
                );
                match open {
                    Some(c) => {
                        &&& r == Some(c)
                        &&& final(self).current() == c
                        &&& final(self).last_climbed() == old(self).last_climbed()
                    },
                    None => {
                        &&& final(self).last_climbed() == old(self).current()
                        &&& old(self).current() == 0 ==> r is None && final(self).current() == 0
                        &&& old(self).current() != 0 ==> r == Some(
                            parent_of(old(self).current() as int) as u64,
                        ) && final(self).current() == parent_of(old(self).current() as int)
                    },
                }
            }),
    {
        let children = OctreeNode::get_idx_children(self.cur);
        let mut i: usize = 0;
        while i < children.len()
            invariant
                self.cur == old(self).cur,
                self.last_up == old(self).last_up,
                self.octree == old(self).octree,
                i <= children@.len(),
                spec_has_children(self.cur as int) ==> children@.len() == 8,
                spec_has_children(self.cur as int) ==> forall|k: int|
                    0 <= k < 8 ==> #[trigger] children@[k] == child_of(self.cur as int, k),
                !spec_has_children(self.cur as int) ==> children@.len() == 0,
                first_open_child(self.tree(), self.cur as int, self.last_up as int, 0)
                    == first_open_child(self.tree(), self.cur as int, self.last_up as int, i as int),
            decreases children@.len() - i,
        {
            let child = children[i];
            if self.octree.contains(child) && self.last_up < child {
                self.cur = child;
                return Some(child);
            }
            i += 1;
        }
        self.last_up = self.cur;
        match OctreeNode::get_idx_parent(self.cur) {
            Some(p) => {
                self.cur = p;
                Some(p)
            },
            None => None,
        }
    }
}

impl Octree {
    /// A depth-first walk over the tree, starting at the root.
    pub fn iter(&self) -> (r: OctreeIterator<'_>)
        ensures
            r.tree() == self.node_set(),
            r.current() == 0,
            r.last_climbed() == 0,
    {
        OctreeIterator::new(self, 0)
    }
}

/// Every child of a node names that node as its parent.
pub proof fn lemma_child_parent(idx: int, k: int)
    requires
        0 <= idx <= lowest_node_cutoff(),
        0 <= k < 8,
    ensures
        child_of(idx, k) != 0,
        parent_of(child_of(idx, k)) == idx,
        (child_of(idx, k) - 1) % 8 == k,
        child_of(idx, k) <= u64::MAX,
{
}

/// The position of the `k`-th child inside its parent is the `k`-th position,
/// and that position leads back to the child.
pub proof fn lemma_child_position_round_trip(idx: int, k: int)
    requires
        0 <= idx <= lowest_node_cutoff(),
        0 <= k < 8,
    ensures
        pos_index(pos_of_index((child_of(idx, k) - 1) % 8)) == k,
        child_of(idx, pos_index(pos_of_index((child_of(idx, k) - 1) % 8))) == child_of(idx, k),
{
}

/// Reading off the three halves of a child position and building the
/// position from them gives the same position back.
pub proof fn lemma_halves_round_trip(p: PosInParent)
    ensures
        index_from_halves(
            pos_index(p) % 2 == 0,
            (pos_index(p) / 2) % 2 == 0,
            pos_index(p) < 4,
        ) == pos_index(p),
        pos_of_index(pos_index(p)) == p,
        0 <= pos_index(p) < 8,
{
}

} // verus!
