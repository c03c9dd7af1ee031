//! The depth-first walk over an octree, as a mathematical object, and why
//! it ends.
//!
//! A state of the walk is the node it stands on and the node it last climbed
//! out of. Its progress is measured by the pre-order position of where it
//! stands: node indices are read as their child digits (1..=8) along the
//! root path, in base 9, padded to the deepest level a `u64` index can
//! reach. Each step moves forward in that order, or climbs to a shallower
//! node without moving.
use vstd::prelude::*;
use crate::octree::{child_of, parent_of, first_open_child, spec_has_children, tree_closed};

verus! {

/// The deepest level on which a node with a `u64` index can lie.
pub open spec fn max_depth() -> nat {
    22
}

/// Depth of a node; the root lies at depth 0.
pub open spec fn depth(idx: int) -> nat
    decreases idx,
{
    if idx <= 0 {
        0
    } else {
        1 + depth(parent_of(idx))
    }
}

/// `9` to the power `e`.
pub open spec fn pow9(e: nat) -> nat
    decreases e,
{
    if e == 0 {
        1
    } else {
        9 * pow9((e - 1) as nat)
    }
}

/// Smallest index of a node at depth `d`.
pub open spec fn first_at_depth(d: nat) -> int
    decreases d,
{
    if d == 0 {
        0
    } else {
        8 * first_at_depth((d - 1) as nat) + 1
    }
}

/// The weight of one child digit of a node at depth `d`.
pub open spec fn digit_weight(d: nat) -> nat {
    pow9((max_depth() - d) as nat)
}

/// The pre-order position of a node: its child digits along the root path,
/// read in base 9 and padded to the deepest level.
pub open spec fn preorder_pos(idx: int) -> int
    decreases idx,
{
    if idx <= 0 {
        0
    } else {
        preorder_pos(parent_of(idx)) + ((idx - 1) % 8 + 1) * digit_weight(depth(idx))
    }
}

/// The last pre-order position inside the subtree of a node.
pub open spec fn subtree_end(idx: int) -> int {
    preorder_pos(idx) + digit_weight(depth(idx)) - 1
}

/// How far the walk has come when it stands on `cur` and last climbed out
/// of `last_up`: past the subtree of `last_up` when that is a child of
/// `cur`, else at `cur` itself.
pub open spec fn walk_progress(cur: int, last_up: int) -> int {
    if last_up != 0 && parent_of(last_up) == cur {
        subtree_end(last_up)
    } else {
        preorder_pos(cur)
    }
}

/// The states the walk passes through: either it has just entered `cur`
/// (it last climbed out of a node below all of `cur`'s children), or it
/// has just climbed out of a child of `cur`.
pub open spec fn walk_state_ok(cur: int, last_up: int) -> bool {
    &&& 0 <= cur <= u64::MAX
    &&& 0 <= last_up <= u64::MAX
    &&& (last_up < child_of(cur, 0) || (last_up != 0 && parent_of(last_up) == cur))
}

/// One step of the walk over the node set `t`: the next state, or `None`
/// when the walk would climb out of the root. The node the walk yields is
/// the first component of the next state.
pub open spec fn walk_step(t: Set<u64>, cur: u64, last_up: u64) -> Option<(u64, u64)> {
    match first_open_child(t, cur as int, last_up as int, 0) {
        Some(c) => Some((c, last_up)),
        None => if cur == 0 {
            None
        } else {
            Some((parent_of(cur as int) as u64, cur))
        },
    }
}

/// The measure that each step of the walk decreases.
pub open spec fn walk_measure(cur: int, last_up: int) -> int {
    pow9(max_depth()) - walk_progress(cur, last_up)
}

/// The nodes the walk yields from a state on, in order.
pub open spec fn walk_nodes(t: Set<u64>, cur: u64, last_up: u64) -> Seq<u64>
    decreases walk_measure(cur as int, last_up as int), depth(cur as int),
    when walk_state_ok(cur as int, last_up as int)
    via walk_nodes_decreases
{
    match walk_step(t, cur, last_up) {
        None => Seq::empty(),
        Some((c, l)) => seq![c] + walk_nodes(t, c, l),
    }
}

#[via_fn]
proof fn walk_nodes_decreases(t: Set<u64>, cur: u64, last_up: u64) {
    lemma_walk_step(t, cur, last_up);
}

/// The nodes the walk steps into (descends to) from a state on, in order.
pub open spec fn walk_descents(t: Set<u64>, cur: u64, last_up: u64) -> Seq<u64>
    decreases walk_measure(cur as int, last_up as int), depth(cur as int),
    when walk_state_ok(cur as int, last_up as int)
    via walk_descents_decreases
{
    match walk_step(t, cur, last_up) {
        None => Seq::empty(),
        Some((c, l)) => (if c > cur {
            seq![c]
        } else {
            Seq::empty()
        }) + walk_descents(t, c, l),
    }
}

#[via_fn]
proof fn walk_descents_decreases(t: Set<u64>, cur: u64, last_up: u64) {
    lemma_walk_step(t, cur, last_up);
}

/// A node with a `u64` index is at least the smallest index of its depth.
proof fn lemma_first_at_depth_below(n: int)
    requires
        0 <= n,
    ensures
        first_at_depth(depth(n)) <= n,
    decreases n,
{
    if n > 0 {
        lemma_first_at_depth_below(parent_of(n));
    }
}

/// The smallest index of a depth grows with the depth.
proof fn lemma_first_at_depth_grows(d1: nat, d2: nat)
    requires
        d1 <= d2,
    ensures
        0 <= first_at_depth(d1) <= first_at_depth(d2),
    decreases d2,
{
    if d1 < d2 {
        lemma_first_at_depth_grows(d1, (d2 - 1) as nat);
    } else if d1 > 0 {
        lemma_first_at_depth_grows((d1 - 1) as nat, (d1 - 1) as nat);
    }
}

/// No node with a `u64` index lies deeper than [`max_depth`].
pub proof fn lemma_depth_bound(n: int)
    requires
        0 <= n <= u64::MAX,
    ensures
        depth(n) <= max_depth(),
{
    lemma_first_at_depth_below(n);
    if depth(n) > max_depth() {
        lemma_first_at_depth_grows(23, depth(n));
        reveal_with_fuel(first_at_depth, 24);
        assert(first_at_depth(23) > u64::MAX);
    }
}

/// A child lies one level below its parent, and its pre-order position
/// adds its digit at that level.
pub proof fn lemma_child_pos(n: int, k: int)
    requires
        0 <= n,
        0 <= k < 8,
    ensures
        parent_of(child_of(n, k)) == n,
        depth(child_of(n, k)) == depth(n) + 1,
        preorder_pos(child_of(n, k)) == preorder_pos(n) + (k + 1) * digit_weight(depth(n) + 1),
{
    let c = child_of(n, k);
    assert(parent_of(c) == n);
    assert((c - 1) % 8 == k);
}

/// One level up, a digit weighs nine times as much.
proof fn lemma_weight_step(d: nat)
    requires
        1 <= d <= max_depth(),
    ensures
        digit_weight((d - 1) as nat) == 9 * digit_weight(d),
        digit_weight(d) >= 1,
{
    assert((max_depth() - (d - 1)) as nat == ((max_depth() - d) as nat + 1) as nat);
    lemma_pow9_positive((max_depth() - d) as nat);
}

proof fn lemma_pow9_positive(e: nat)
    ensures
        pow9(e) >= 1,
    decreases e,
{
    if e > 0 {
        lemma_pow9_positive((e - 1) as nat);
    }
}

/// Every subtree ends before the last position.
pub proof fn lemma_pos_bound(n: int)
    requires
        0 <= n <= u64::MAX,
    ensures
        0 <= preorder_pos(n),
        preorder_pos(n) <= subtree_end(n),
        subtree_end(n) < pow9(max_depth()),
    decreases n,
{
    lemma_depth_bound(n);
    lemma_pow9_positive((max_depth() - depth(n)) as nat);
    if n > 0 {
        let p = parent_of(n);
        lemma_pos_bound(p);
        let d = depth(n);
        lemma_weight_step(d);
        let w = digit_weight(d);
        let digit = (n - 1) % 8 + 1;
        assert(digit * w <= 8 * w && digit * w >= w) by (nonlinear_arith)
            requires
                1 <= digit <= 8,
                w >= 1,
        ;
    }
}

/// What the first open child of a node is: a child present in `t`, at a
/// position from `k` on, above `last_up`.
pub proof fn lemma_first_open_child(t: Set<u64>, cur: int, last_up: int, k: int)
    requires
        0 <= k,
        0 <= cur,
    ensures
        first_open_child(t, cur, last_up, k) matches Some(c) ==> exists|j: int|
            k <= j < 8 && c == child_of(cur, j) && spec_has_children(cur) && t.contains(c)
                && last_up < c,
    decreases 8 - k,
{
    if k < 8 && spec_has_children(cur) {
        let c = child_of(cur, k);
        if t.contains(c as u64) && last_up < c {
            assert(c as u64 == c);
        } else {
            lemma_first_open_child(t, cur, last_up, k + 1);
        }
    }
}

/// One step of the walk keeps it in a well-formed state and decreases its
/// measure: a descent moves forward in pre-order, a climb does not move
/// back and goes up one level.
pub proof fn lemma_walk_step(t: Set<u64>, cur: u64, last_up: u64)
    requires
        walk_state_ok(cur as int, last_up as int),
    ensures
        0 <= walk_measure(cur as int, last_up as int),
        walk_step(t, cur, last_up) matches Some((c, l)) ==> {
            &&& walk_state_ok(c as int, l as int)
            &&& 0 <= walk_measure(c as int, l as int)
            &&& (walk_measure(c as int, l as int) < walk_measure(cur as int, last_up as int)
                || (walk_measure(c as int, l as int) == walk_measure(cur as int, last_up as int)
                && depth(c as int) < depth(cur as int)))
        },
{
    let ci = cur as int;
    let li = last_up as int;
    lemma_pos_bound(ci);
    lemma_depth_bound(ci);
    let climbed = li != 0 && parent_of(li) == ci;
    if climbed {
        assert(li == child_of(ci, (li - 1) % 8));
        lemma_pos_bound(li);
        lemma_child_pos(ci, (li - 1) % 8);
    }
    lemma_first_open_child(t, ci, li, 0);
    match first_open_child(t, ci, li, 0) {
        Some(c) => {
            let j = choose|j: int|
                0 <= j < 8 && c == child_of(ci, j) && spec_has_children(ci) && t.contains(c)
                    && li < c;
            lemma_child_pos(ci, j);
            lemma_pos_bound(c as int);
            lemma_depth_bound(c as int);
            let w = digit_weight(depth(ci) + 1);
            lemma_pow9_positive((max_depth() - (depth(ci) + 1)) as nat);
            assert(!(li != 0 && parent_of(li) == c as int));
            if climbed {
                let j0 = (li - 1) % 8;
                assert(li == child_of(ci, j0));
                assert(j > j0);
                assert((j + 1) * w >= (j0 + 1) * w + w) by (nonlinear_arith)
                    requires
                        j >= j0 + 1,
                        w >= 1,
                ;
            } else {
                assert((j + 1) * w >= w) by (nonlinear_arith)
                    requires
                        j >= 0,
                        w >= 1,
                ;
            }
        },
        None => {
            if cur != 0 {
                let p = parent_of(ci);
                lemma_pos_bound(p);
                assert(child_of(p, (ci - 1) % 8) == ci);
                lemma_child_pos(p, (ci - 1) % 8);
                if climbed {
                    let j0 = (li - 1) % 8;
                    lemma_depth_bound(li);
                    lemma_weight_step(depth(li));
                    let w = digit_weight(depth(li));
                    assert((j0 + 1) * w + w <= 9 * w) by (nonlinear_arith)
                        requires
                            0 <= j0 < 8,
                            w >= 1,
                    ;
                }
            }
        },
    }
}

/// A walk that starts on a node of a tree only ever yields nodes of that
/// tree: it descends into children present in the tree and climbs to
/// parents, which a tree holds.
pub proof fn lemma_walk_stays_in_tree(t: Set<u64>, cur: u64, last_up: u64)
    requires
        tree_closed(t),
        t.contains(cur),
        walk_state_ok(cur as int, last_up as int),
    ensures
        forall|k: int| 0 <= k < walk_nodes(t, cur, last_up).len() ==> t.contains(
            #[trigger] walk_nodes(t, cur, last_up)[k],
        ),
    decreases walk_measure(cur as int, last_up as int), depth(cur as int),
{
    lemma_walk_step(t, cur, last_up);
    lemma_first_open_child(t, cur as int, last_up as int, 0);
    match walk_step(t, cur, last_up) {
        None => {},
        Some((c, l)) => {
            lemma_walk_stays_in_tree(t, c, l);
            let rest = walk_nodes(t, c, l);
            assert(walk_nodes(t, cur, last_up) == seq![c] + rest);
            assert forall|k: int| 0 <= k < walk_nodes(t, cur, last_up).len() implies t.contains(
                #[trigger] walk_nodes(t, cur, last_up)[k],
            ) by {
                if k > 0 {
                    assert(walk_nodes(t, cur, last_up)[k] == rest[k - 1]);
                }
            }
        },
    }
}

/// Whether `a` lies on the way from node `n` up to the root, `n` included.
pub open spec fn is_ancestor(a: int, n: int) -> bool
    decreases n,
{
    if n == a {
        true
    } else if n <= 0 {
        false
    } else {
        is_ancestor(a, parent_of(n))
    }
}

/// The root lies on the way up from every node.
proof fn lemma_root_is_ancestor(n: int)
    requires
        0 <= n,
    ensures
        is_ancestor(0, n),
    decreases n,
{
    if n > 0 {
        lemma_root_is_ancestor(parent_of(n));
    }
}

/// The nodes on the way up from a node of a tree are in the tree and no
/// larger than the node.
proof fn lemma_ancestor_in_tree(t: Set<u64>, a: int, n: u64)
    requires
        tree_closed(t),
        t.contains(n),
        is_ancestor(a, n as int),
    ensures
        0 <= a <= n,
        t.contains(a as u64),
    decreases n,
{
    if n as int != a {
        lemma_ancestor_in_tree(t, a, parent_of(n as int) as u64);
    }
}

/// Below a proper ancestor, the way up from a node passes through one of
/// the ancestor's children.
proof fn lemma_ancestor_child(a: int, n: int) -> (g: int)
    requires
        0 <= a,
        is_ancestor(a, n),
        a != n,
    ensures
        0 < g <= n,
        parent_of(g) == a,
        is_ancestor(g, n),
    decreases n,
{
    let p = parent_of(n);
    if p == a {
        n
    } else {
        let g = lemma_ancestor_child(a, p);
        g
    }
}

/// The first open child of a node is the smallest one: no child from
/// position `k` on that lies before it, or before the end when there is
/// none, is present in `t` above `last_up`.
proof fn lemma_first_open_child_first(t: Set<u64>, cur: int, last_up: int, k: int)
    requires
        0 <= k,
        0 <= cur,
        spec_has_children(cur),
    ensures
        forall|j: int|
            k <= j < 8 && (first_open_child(t, cur, last_up, k) matches Some(c) ==> child_of(cur, j) < c)
                ==> !(t.contains(#[trigger] child_of(cur, j) as u64) && last_up < child_of(cur, j)),
    decreases 8 - k,
{
    if k < 8 {
        lemma_first_open_child_first(t, cur, last_up, k + 1);
        lemma_first_open_child(t, cur, last_up, k + 1);
    }
}

proof fn lemma_contains_after<A>(a: Seq<A>, b: Seq<A>, x: A)
    requires
        b.contains(x),
    ensures
        (a + b).contains(x),
{
    let i = choose|i: int| 0 <= i < b.len() && b[i] == x;
    assert((a + b)[a.len() + i] == x);
}

/// The nodes the walk steps into after it has gone through the subtree of
/// `cur`: those of the rest of the walk from its parent.
pub open spec fn descent_tail(t: Set<u64>, cur: u64) -> Seq<u64> {
    if cur == 0 {
        Seq::empty()
    } else {
        walk_descents(t, parent_of(cur as int) as u64, cur)
    }
}

/// How many children of `cur` the walk may still descend into.
pub open spec fn children_left(cur: int, last_up: int) -> int {
    if last_up != 0 && parent_of(last_up) == cur {
        7 - (last_up - 1) % 8
    } else {
        8
    }
}

/// From a state on node `cur` of a tree, the walk steps into every node
/// below the children of `cur` above `last_up`, and then goes on as it does
/// after leaving `cur`.
proof fn lemma_walk_covers_subtree(t: Set<u64>, cur: u64, last_up: u64)
    requires
        tree_closed(t),
        forall|m: u64| #[trigger] t.contains(m) && m != 0 ==> spec_has_children(parent_of(m as int)),
        t.contains(cur),
        walk_state_ok(cur as int, last_up as int),
    ensures
        exists|x: Seq<u64>| walk_descents(t, cur, last_up) == x + descent_tail(t, cur),
        forall|g: int, n: u64|
            t.contains(n) && 0 < g && parent_of(g) == cur && last_up < g && #[trigger] is_ancestor(g, n as int)
                ==> walk_descents(t, cur, last_up).contains(n),
    decreases max_depth() - depth(cur as int), children_left(cur as int, last_up as int),
{
    let ci = cur as int;
    let li = last_up as int;
    lemma_depth_bound(ci);
    lemma_walk_step(t, cur, last_up);
    lemma_first_open_child(t, ci, li, 0);
    if spec_has_children(ci) {
        lemma_first_open_child_first(t, ci, li, 0);
    }
    if li != 0 && parent_of(li) == ci {
        assert(li == child_of(ci, (li - 1) % 8));
    }
    match first_open_child(t, ci, li, 0) {
        None => {
            assert(walk_descents(t, cur, last_up) =~= Seq::<u64>::empty() + descent_tail(t, cur));
            assert forall|g: int, n: u64|
                t.contains(n) && 0 < g && parent_of(g) == ci && li < g && #[trigger] is_ancestor(g, n as int)
                    implies walk_descents(t, cur, last_up).contains(n) by {
                lemma_ancestor_in_tree(t, g, n);
                assert(t.contains(g as u64));
                assert(g == child_of(ci, (g - 1) % 8));
                assert(child_of(ci, (g - 1) % 8) as u64 == g as u64);
            }
        },
        Some(c) => {
            let j = choose|j: int|
                0 <= j < 8 && c == child_of(ci, j) && spec_has_children(ci) && t.contains(c) && li < c;
            lemma_child_pos(ci, j);
            lemma_depth_bound(c as int);
            lemma_walk_covers_subtree(t, c, last_up);
            lemma_walk_covers_subtree(t, cur, c);
            let xc = choose|x: Seq<u64>| walk_descents(t, c, last_up) == x + descent_tail(t, c);
            let y = choose|x: Seq<u64>| walk_descents(t, cur, c) == x + descent_tail(t, cur);
            assert(c > cur);
            assert(descent_tail(t, c) == walk_descents(t, cur, c));
            assert(walk_descents(t, cur, last_up) == seq![c] + walk_descents(t, c, last_up));
            assert(walk_descents(t, cur, last_up) =~= (seq![c] + xc + y) + descent_tail(t, cur));
            assert forall|g: int, n: u64|
                t.contains(n) && 0 < g && parent_of(g) == ci && li < g && #[trigger] is_ancestor(g, n as int)
                    implies walk_descents(t, cur, last_up).contains(n) by {
                lemma_ancestor_in_tree(t, g, n);
                if g == c as int {
                    if n == c {
                        assert(walk_descents(t, cur, last_up)[0] == n);
                    } else {
                        let g2 = lemma_ancestor_child(g, n as int);
                        assert(walk_descents(t, c, last_up).contains(n));
                        lemma_contains_after(seq![c], walk_descents(t, c, last_up), n);
                    }
                } else if g > c as int {
                    assert(walk_descents(t, cur, c).contains(n));
                    lemma_contains_after(xc, walk_descents(t, cur, c), n);
                    lemma_contains_after(seq![c], walk_descents(t, c, last_up), n);
                } else {
                    let jg = (g - 1) % 8;
                    assert(g == child_of(ci, jg));
                    assert(child_of(ci, jg) as u64 == g as u64);
                    assert(!(t.contains(child_of(ci, jg) as u64) && li < child_of(ci, jg)));
                }
            }
        },
    }
}

/// Every node the walk steps into is also yielded by it.
proof fn lemma_descents_yielded(t: Set<u64>, cur: u64, last_up: u64)
    requires
        walk_state_ok(cur as int, last_up as int),
    ensures
        forall|i: int|
            0 <= i < walk_descents(t, cur, last_up).len() ==> walk_nodes(t, cur, last_up).contains(
                #[trigger] walk_descents(t, cur, last_up)[i],
            ),
    decreases walk_measure(cur as int, last_up as int), depth(cur as int),
{
    lemma_walk_step(t, cur, last_up);
    match walk_step(t, cur, last_up) {
        None => {},
        Some((c, l)) => {
            lemma_descents_yielded(t, c, l);
            let d = walk_descents(t, cur, last_up);
            let rest = walk_descents(t, c, l);
            let here = if c > cur {
                seq![c]
            } else {
                Seq::<u64>::empty()
            };
            assert(d == here + rest);
            assert(walk_nodes(t, cur, last_up) == seq![c] + walk_nodes(t, c, l));
            assert forall|i: int| 0 <= i < d.len() implies walk_nodes(t, cur, last_up).contains(#[trigger] d[i]) by {
                if i < here.len() {
                    assert(walk_nodes(t, cur, last_up)[0] == c);
                } else {
                    assert(d[i] == rest[i - here.len()]);
                    assert(walk_nodes(t, c, l).contains(rest[i - here.len()]));
                    lemma_contains_after(seq![c], walk_nodes(t, c, l), d[i]);
                }
            }
        },
    }
}

/// The nodes the walk steps into lie past its progress, in strictly
/// increasing pre-order position.
proof fn lemma_descents_ascend(t: Set<u64>, cur: u64, last_up: u64)
    requires
        walk_state_ok(cur as int, last_up as int),
    ensures
        forall|i: int|
            0 <= i < walk_descents(t, cur, last_up).len() ==> walk_progress(cur as int, last_up as int)
                < preorder_pos(#[trigger] walk_descents(t, cur, last_up)[i] as int),
        forall|i: int, j: int|
            0 <= i < j < walk_descents(t, cur, last_up).len() ==> preorder_pos(
                #[trigger] walk_descents(t, cur, last_up)[i] as int,
            ) < preorder_pos(#[trigger] walk_descents(t, cur, last_up)[j] as int),
    decreases walk_measure(cur as int, last_up as int), depth(cur as int),
{
    lemma_walk_step(t, cur, last_up);
    lemma_first_open_child(t, cur as int, last_up as int, 0);
    match walk_step(t, cur, last_up) {
        None => {},
        Some((c, l)) => {
            lemma_descents_ascend(t, c, l);
            let d = walk_descents(t, cur, last_up);
            let rest = walk_descents(t, c, l);
            if c > cur {
                let k = choose|k: int|
                    0 <= k < 8 && c == child_of(cur as int, k) && spec_has_children(cur as int)
                        && t.contains(c) && last_up < c;
                lemma_child_pos(cur as int, k);
                assert(d == seq![c] + rest);
                assert(walk_progress(c as int, l as int) == preorder_pos(c as int));
                assert forall|i: int, j: int| 0 <= i < j < d.len() implies preorder_pos(#[trigger] d[i] as int)
                    < preorder_pos(#[trigger] d[j] as int) by {
                    assert(d[j] == rest[j - 1]);
                    if i > 0 {
                        assert(d[i] == rest[i - 1]);
                    }
                }
                assert forall|i: int| 0 <= i < d.len() implies walk_progress(cur as int, last_up as int)
                    < preorder_pos(#[trigger] d[i] as int) by {
                    if i > 0 {
                        assert(d[i] == rest[i - 1]);
                    }
                }
            } else {
                assert(d =~= rest);
            }
        },
    }
}

/// The walk from the root steps into every node of a tree other than the
/// root, each exactly once, provided the parent of every such node may have
/// children (a node past that cutoff has a parent the walk never descends
/// from). So the root and the nodes the walk yields are exactly the tree's
/// nodes (see also [`lemma_walk_stays_in_tree`]); they are what
/// [`crate::octree::OctreeIterator`] yields, step by step.
pub proof fn lemma_walk_visits_every_node(t: Set<u64>, n: u64)
    requires
        tree_closed(t),
        forall|m: u64| #[trigger] t.contains(m) && m != 0 ==> spec_has_children(parent_of(m as int)),
        t.contains(n),
        n != 0,
    ensures
        walk_descents(t, 0, 0).contains(n),
        walk_nodes(t, 0, 0).contains(n),
        walk_descents(t, 0, 0).no_duplicates(),
{
    lemma_root_is_ancestor(n as int);
    let g = lemma_ancestor_child(0, n as int);
    lemma_walk_covers_subtree(t, 0, 0);
    lemma_descents_yielded(t, 0, 0);
    let d = walk_descents(t, 0, 0);
    let i = choose|i: int| 0 <= i < d.len() && d[i] == n;
    assert(walk_nodes(t, 0, 0).contains(d[i]));
    lemma_descents_ascend(t, 0, 0);
    assert forall|a: int, b: int| 0 <= a < d.len() && 0 <= b < d.len() && a != b implies d[a] != d[b] by {
        if a < b {
            assert(preorder_pos(d[a] as int) < preorder_pos(d[b] as int));
        } else {
            assert(preorder_pos(d[b] as int) < preorder_pos(d[a] as int));
        }
    }
}

} // verus!
