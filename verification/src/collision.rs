//! The broad phase of collision detection over an octree.
//!
//! Each element is placed in the deepest octree node whose cell holds it.
//! The walk over the tree keeps a stack with the elements of the nodes on
//! the way from the root to where it stands; on entering a node, elements
//! on the stack are tested against all others. The tests themselves (on
//! hit boxes of type `H`) and the collision directions (of type `D`) are
//! supplied by the caller.
use vstd::prelude::*;
use std::collections::HashMap;
use crate::octree::{Octree, parent_of, child_of, first_open_child, spec_has_children, tree_closed};
use crate::walk::{
    walk_state_ok, walk_step, walk_measure, depth, lemma_walk_step, lemma_first_open_child,
    is_ancestor, walk_descents, lemma_walk_visits_every_node,
};

verus! {

/// The id under which the world's meshes take part in collision tests;
/// no collisions are recorded for it.
pub const MESH_GAMEOBJECT_ID: u32 = 0xffff_ffff;

/// The collisions of one object: for each one, the other object and the
/// direction of the collision.
pub struct ColData<D> {
    pub directions: Vec<D>,
    pub objects: Vec<u32>,
}

impl<D> ColData<D> {
    /// No collisions.
    pub fn new() -> (r: Self)
        ensures
            r.directions@ == Seq::<D>::empty(),
            r.objects@ == Seq::<u32>::empty(),
    {
        ColData { directions: Vec::new(), objects: Vec::new() }
    }
}

/// The recorded collisions as values: for each object, the other objects
/// and the directions, in the order they were recorded.
pub open spec fn col_model<D>(m: Map<u32, ColData<D>>) -> Map<u32, (Seq<u32>, Seq<D>)> {
    m.map_values(|c: ColData<D>| (c.objects@, c.directions@))
}

/// Records for object `e.0` a collision with object `e.1` in direction `e.2`.
pub open spec fn record_event<D>(m: Map<u32, (Seq<u32>, Seq<D>)>, e: (u32, u32, D)) -> Map<
    u32,
    (Seq<u32>, Seq<D>),
> {
    let prev = if m.contains_key(e.0) {
        m[e.0]
    } else {
        (Seq::<u32>::empty(), Seq::<D>::empty())
    };
    m.insert(e.0, (prev.0.push(e.1), prev.1.push(e.2)))
}

/// Records a sequence of collisions, in order.
pub open spec fn record_events<D>(m: Map<u32, (Seq<u32>, Seq<D>)>, es: Seq<(u32, u32, D)>) -> Map<
    u32,
    (Seq<u32>, Seq<D>),
>
    decreases es.len(),
{
    if es.len() == 0 {
        m
    } else {
        record_events(record_event(m, es[0]), es.drop_first())
    }
}

/// Whether the test `f` reports a collision of `a` with `b`.
pub open spec fn collides<H, F: Fn(H, H) -> bool>(f: F, a: H, b: H) -> bool {
    call_ensures(f, (a, b), true)
}

/// The direction that `g` gives for `a` and `b`.
pub open spec fn direction<H, D, G: Fn(H, H) -> D>(g: G, a: H, b: H) -> D {
    choose|d: D| call_ensures(g, (a, b), d)
}

/// `f` can be called on any two hit boxes and gives one answer for each.
pub open spec fn test_is_function<H, F: Fn(H, H) -> bool>(f: F) -> bool {
    &&& forall|a: H, b: H| call_requires(f, (a, b))
    &&& forall|a: H, b: H, r1: bool, r2: bool|
        call_ensures(f, (a, b), r1) && call_ensures(f, (a, b), r2) ==> r1 == r2
}

/// `g` can be called on any two hit boxes and gives one direction for each.
pub open spec fn direction_is_function<H, D, G: Fn(H, H) -> D>(g: G) -> bool {
    &&& forall|a: H, b: H| call_requires(g, (a, b))
    &&& forall|a: H, b: H, d1: D, d2: D|
        call_ensures(g, (a, b), d1) && call_ensures(g, (a, b), d2) ==> d1 == d2
}

/// The elements placed in each node, as sequences.
pub open spec fn elements_model<H>(m: Map<u64, Vec<(u32, H)>>) -> Map<u64, Seq<(u32, H)>> {
    m.map_values(|v: Vec<(u32, H)>| v@)
}

/// The stack entries of the elements placed in node `n`.
pub open spec fn node_entries<H>(e: Map<u64, Seq<(u32, H)>>, n: int) -> Seq<(u64, (u32, H))> {
    if e.contains_key(n as u64) {
        e[n as u64].map_values(|x: (u32, H)| (n as u64, x))
    } else {
        Seq::empty()
    }
}

/// The stack when the walk stands on node `n`: the entries of the nodes on
/// the way from the root down to `n`.
pub open spec fn path_stack<H>(e: Map<u64, Seq<(u32, H)>>, n: int) -> Seq<(u64, (u32, H))>
    decreases n,
{
    if n <= 0 {
        node_entries(e, 0)
    } else {
        path_stack(e, parent_of(n)) + node_entries(e, n)
    }
}

/// The stack after popping every top entry of a node above `node`.
pub open spec fn pop_above<H>(s: Seq<(u64, (u32, H))>, node: u64) -> Seq<(u64, (u32, H))>
    decreases s.len(),
{
    if s.len() > 0 && s.last().0 > node {
        pop_above(s.drop_last(), node)
    } else {
        s
    }
}

/// The collisions recorded when entry `i` of stack `s` is tested against
/// entry `j`: entries of different objects that `f` finds colliding give a
/// record for each of the two objects that is not the world's meshes.
pub open spec fn pair_events<H, D, F: Fn(H, H) -> bool, G: Fn(H, H) -> D>(
    s: Seq<(u64, (u32, H))>,
    i: int,
    j: int,
    f: F,
    g: G,
) -> Seq<(u32, u32, D)> {
    let (id_i, h_i) = s[i].1;
    let (id_j, h_j) = s[j].1;
    if j == i || id_j == id_i || !collides(f, h_i, h_j) {
        Seq::empty()
    } else {
        (if id_j != MESH_GAMEOBJECT_ID {
            seq![(id_j, id_i, direction(g, h_i, h_j))]
        } else {
            Seq::empty()
        }) + (if id_i != MESH_GAMEOBJECT_ID {
            seq![(id_i, id_j, direction(g, h_j, h_i))]
        } else {
            Seq::empty()
        })
    }
}

/// The collisions recorded when entry `i` is tested against the entries
/// from `j` on.
pub open spec fn collide_events<H, D, F: Fn(H, H) -> bool, G: Fn(H, H) -> D>(
    s: Seq<(u64, (u32, H))>,
    i: int,
    j: int,
    f: F,
    g: G,
) -> Seq<(u32, u32, D)>
    decreases s.len() - j,
{
    if j < 0 || j >= s.len() {
        Seq::empty()
    } else {
        pair_events(s, i, j, f, g) + collide_events(s, i, j + 1, f, g)
    }
}

/// The collisions recorded on entering node `n` with stack `s`, scanning
/// down from position `c`: while the entry at `c` belongs to `n`, the entry
/// below it is tested against all others.
pub open spec fn descend_events<H, D, F: Fn(H, H) -> bool, G: Fn(H, H) -> D>(
    s: Seq<(u64, (u32, H))>,
    n: u64,
    c: int,
    f: F,
    g: G,
) -> Seq<(u32, u32, D)>
    decreases c,
{
    if 0 < c < s.len() && s[c].0 == n {
        collide_events(s, c - 1, 0, f, g) + descend_events(s, n, c - 1, f, g)
    } else {
        Seq::empty()
    }
}

/// The collisions recorded by the walk from a state on.
pub open spec fn walk_events<H, D, F: Fn(H, H) -> bool, G: Fn(H, H) -> D>(
    t: Set<u64>,
    e: Map<u64, Seq<(u32, H)>>,
    f: F,
    g: G,
    cur: u64,
    last_up: u64,
) -> Seq<(u32, u32, D)>
    decreases walk_measure(cur as int, last_up as int), depth(cur as int),
    when walk_state_ok(cur as int, last_up as int)
    via walk_events_decreases::<H, D, F, G>
{
    match walk_step(t, cur, last_up) {
        None => Seq::empty(),
        Some((c, l)) => {
            let s = path_stack(e, c as int);
            (if c > cur {
                descend_events(s, c, s.len() - 1, f, g)
            } else {
                Seq::empty()
            }) + walk_events(t, e, f, g, c, l)
        },
    }
}

#[via_fn]
proof fn walk_events_decreases<H, D, F: Fn(H, H) -> bool, G: Fn(H, H) -> D>(
    t: Set<u64>,
    e: Map<u64, Seq<(u32, H)>>,
    f: F,
    g: G,
    cur: u64,
    last_up: u64,
) {
    lemma_walk_step(t, cur, last_up);
}

/// Whether the stack holds an entry each time the walk from a state on
/// enters a node.
pub open spec fn walk_stack_ok<H>(t: Set<u64>, e: Map<u64, Seq<(u32, H)>>, cur: u64, last_up: u64) -> bool
    decreases walk_measure(cur as int, last_up as int), depth(cur as int),
    when walk_state_ok(cur as int, last_up as int)
    via walk_stack_ok_decreases::<H>
{
    match walk_step(t, cur, last_up) {
        None => true,
        Some((c, l)) => (c > cur ==> path_stack(e, c as int).len() > 0) && walk_stack_ok(t, e, c, l),
    }
}

#[via_fn]
proof fn walk_stack_ok_decreases<H>(t: Set<u64>, e: Map<u64, Seq<(u32, H)>>, cur: u64, last_up: u64) {
    lemma_walk_step(t, cur, last_up);
}

/// The collisions that the walk over the tree `t`, with the elements `e`
/// placed in its nodes, records.
pub open spec fn collision_events<H, D, F: Fn(H, H) -> bool, G: Fn(H, H) -> D>(
    t: Set<u64>,
    e: Map<u64, Seq<(u32, H)>>,
    f: F,
    g: G,
) -> Seq<(u32, u32, D)> {
    walk_events(t, e, f, g, 0, 0)
}

/// Recording two sequences of collisions one after the other records
/// their concatenation.
pub proof fn lemma_record_events_concat<D>(
    m: Map<u32, (Seq<u32>, Seq<D>)>,
    a: Seq<(u32, u32, D)>,
    b: Seq<(u32, u32, D)>,
)
    ensures
        record_events(m, a + b) == record_events(record_events(m, a), b),
    decreases a.len(),
{
    if a.len() > 0 {
        assert((a + b).drop_first() =~= a.drop_first() + b);
        assert((a + b)[0] == a[0]);
        lemma_record_events_concat(record_event(m, a[0]), a.drop_first(), b);
    } else {
        assert(a + b =~= b);
    }
}

/// Recording no collision changes nothing; recording one is one step.
proof fn lemma_record_events_at_most_one<D>(m: Map<u32, (Seq<u32>, Seq<D>)>, es: Seq<(u32, u32, D)>)
    requires
        es.len() <= 1,
    ensures
        es.len() == 0 ==> record_events(m, es) == m,
        es.len() == 1 ==> record_events(m, es) == record_event(m, es[0]),
{
    if es.len() == 1 {
        assert(es.drop_first() =~= Seq::<(u32, u32, D)>::empty());
        assert(record_events(record_event(m, es[0]), es.drop_first()) == record_event(m, es[0]));
    }
}

/// The entries of the stack at node `n` belong to nodes no deeper than `n`.
proof fn lemma_path_stack_nodes<H>(e: Map<u64, Seq<(u32, H)>>, n: int)
    requires
        0 <= n <= u64::MAX,
    ensures
        forall|k: int| 0 <= k < path_stack(e, n).len() ==> #[trigger] path_stack(e, n)[k].0 <= n,
    decreases n,
{
    if n > 0 {
        lemma_path_stack_nodes(e, parent_of(n));
        let s = path_stack(e, parent_of(n));
        let x = node_entries(e, n);
        assert forall|k: int| 0 <= k < path_stack(e, n).len() implies #[trigger] path_stack(e, n)[k].0 <= n by {
            if k < s.len() {
                assert(path_stack(e, n)[k] == s[k]);
            } else {
                assert(path_stack(e, n)[k] == x[k - s.len()]);
            }
        }
    }
}

/// Popping entries of nodes above `p` from `s + x`, where all entries of
/// `x` are above `p` and the last one of `s` is not, leaves `s`.
proof fn lemma_pop_above_suffix<H>(s: Seq<(u64, (u32, H))>, x: Seq<(u64, (u32, H))>, p: u64)
    requires
        forall|k: int| 0 <= k < x.len() ==> #[trigger] x[k].0 > p,
        s.len() > 0 ==> s.last().0 <= p,
    ensures
        pop_above(s + x, p) == s,
    decreases x.len(),
{
    if x.len() > 0 {
        assert((s + x).drop_last() =~= s + x.drop_last());
        assert((s + x).last() == x.last());
        lemma_pop_above_suffix(s, x.drop_last(), p);
    } else {
        assert(s + x =~= s);
    }
}

/// Climbing from `n` to its parent pops exactly the entries of `n`.
proof fn lemma_pop_path<H>(e: Map<u64, Seq<(u32, H)>>, n: int)
    requires
        0 < n <= u64::MAX,
    ensures
        pop_above(path_stack(e, n), parent_of(n) as u64) == path_stack(e, parent_of(n)),
{
    let p = parent_of(n);
    lemma_path_stack_nodes(e, p);
    let s = path_stack(e, p);
    if s.len() > 0 {
        assert(s[s.len() - 1].0 <= p);
    }
    lemma_pop_above_suffix(s, node_entries(e, n), p as u64);
}

/// A stack of the octree elements on the way from the root to the node the
/// walk stands on, each with the node it was placed in.
pub struct CollisionStack<H> {
    stack: Vec<(u64, (u32, H))>,
}

impl<H: Copy> CollisionStack<H> {
    /// The entries, bottom first.
    pub closed spec fn entries(&self) -> Seq<(u64, (u32, H))> {
        self.stack@
    }

    /// An empty stack.
    fn new() -> (r: Self)
        ensures
            r.entries() == Seq::<(u64, (u32, H))>::empty(),
    {
        CollisionStack { stack: Vec::new() }
    }

    /// Pushes the elements placed in `node`, in order.
    fn add_node_elements(&mut self, octree_elements: &HashMap<u64, Vec<(u32, H)>>, node: u64)
        ensures
            final(self).entries() == old(self).entries() + node_entries(
                elements_model(octree_elements@),
                node as int,
            ),
    {
        let ghost e = elements_model(octree_elements@);
        match octree_elements.get(&node) {
            None => {
                assert(self.entries() =~= old(self).entries() + node_entries(e, node as int));
            },
            Some(v) => {
                assert(e.contains_key(node) && e[node] == v@);
                let mut i: usize = 0;
                while i < v.len()
                    invariant
                        i <= v@.len(),
                        self.stack@ == old(self).stack@ + v@.take(i as int).map_values(
                            |x: (u32, H)| (node, x),
                        ),
                    decreases v@.len() - i,
                {
                    self.stack.push((node, v[i]));
                    assert(v@.take(i + 1).map_values(|x: (u32, H)| (node, x)) =~= v@.take(
                        i as int,
                    ).map_values(|x: (u32, H)| (node, x)).push((node, v@[i as int])));
                    i += 1;
                }
                assert(v@.take(v@.len() as int) =~= v@);
            },
        }
    }

    /// Pops the top entries of nodes above `node`.
    fn remove_lower_elements(&mut self, node: u64)
        ensures
            final(self).entries() == pop_above(old(self).entries(), node),
    {
        while self.stack.len() > 0 && self.stack[self.stack.len() - 1].0 > node
            invariant
                pop_above(self.stack@, node) == pop_above(old(self).stack@, node),
            decreases self.stack@.len(),
        {
            self.stack.pop();
        }
    }

    /// Tests entry `index` against every other entry with `check_collision`
    /// and records each collision found for both objects, except for the
    /// world's meshes; nothing happens when `index` is past the top.
    fn collide_with_all<D, F: Fn(H, H) -> bool, G: Fn(H, H) -> D>(
        &self,
        index: usize,
        collisions: &mut HashMap<u32, ColData<D>>,
        check_collision: &F,
        collision_direction: &G,
    )
        requires
            test_is_function::<H, F>(*check_collision),
            direction_is_function::<H, D, G>(*collision_direction),
        ensures
            index >= self.entries().len() ==> final(collisions)@ == old(collisions)@,
            index < self.entries().len() ==> col_model(final(collisions)@) == record_events(
                col_model(old(collisions)@),
                collide_events(
                    self.entries(),
                    index as int,
                    0,
                    *check_collision,
                    *collision_direction,
                ),
            ),
    {
        if index >= self.stack.len() {
            return;
        }
        let ghost s = self.entries();
        let ghost f = *check_collision;
        let ghost g = *collision_direction;
        let colliding_node = self.stack[index].1;
        let mut i: usize = 0;
        while i < self.stack.len()
            invariant
                s == self.entries(),
                f == *check_collision,
                g == *collision_direction,
                test_is_function::<H, F>(f),
                direction_is_function::<H, D, G>(g),
                index < s.len(),
                colliding_node == s[index as int].1,
                i <= s.len(),
                record_events(col_model(collisions@), collide_events(s, index as int, i as int, f, g))
                    == record_events(col_model(old(collisions)@), collide_events(s, index as int, 0, f, g)),
            decreases s.len() - i,
        {
            let cur_node = self.stack[i].1;
            let ghost before = col_model(collisions@);
            let ghost rest = collide_events(s, index as int, i + 1, f, g);
            assert(collide_events(s, index as int, i as int, f, g) == pair_events(s, index as int, i as int, f, g) + rest);
            if i == index || cur_node.0 == colliding_node.0 {
                assert(pair_events(s, index as int, i as int, f, g) =~= Seq::<(u32, u32, D)>::empty());
                assert(Seq::<(u32, u32, D)>::empty() + rest =~= rest);
            } else {
                let hit = check_collision(colliding_node.1, cur_node.1);
                proof {
                    if !hit {
                        if collides(f, colliding_node.1, cur_node.1) {
                            assert(call_ensures(f, (colliding_node.1, cur_node.1), true));
                        }
                    }
                }
                if hit {
                    let ghost first = if cur_node.0 != MESH_GAMEOBJECT_ID {
                        seq![(cur_node.0, colliding_node.0, direction(g, colliding_node.1, cur_node.1))]
                    } else {
                        Seq::<(u32, u32, D)>::empty()
                    };
                    let ghost second = if colliding_node.0 != MESH_GAMEOBJECT_ID {
                        seq![(colliding_node.0, cur_node.0, direction(g, cur_node.1, colliding_node.1))]
                    } else {
                        Seq::<(u32, u32, D)>::empty()
                    };
                    assert(pair_events(s, index as int, i as int, f, g) == first + second);
                    if cur_node.0 != MESH_GAMEOBJECT_ID {
                        let d = collision_direction(colliding_node.1, cur_node.1);
                        proof {
                            let c = direction(g, colliding_node.1, cur_node.1);
                            assert(call_ensures(g, (colliding_node.1, cur_node.1), c));
                        }
                        record_collision(collisions, cur_node.0, colliding_node.0, d);
                    }
                    let ghost mid = col_model(collisions@);
                    assert(mid == record_events(before, first)) by {
                        lemma_record_events_at_most_one(before, first);
                    }
                    if colliding_node.0 != MESH_GAMEOBJECT_ID {
                        let d = collision_direction(cur_node.1, colliding_node.1);
                        proof {
                            let c = direction(g, cur_node.1, colliding_node.1);
                            assert(call_ensures(g, (cur_node.1, colliding_node.1), c));
                        }
                        record_collision(collisions, colliding_node.0, cur_node.0, d);
                    }
                    assert(col_model(collisions@) == record_events(mid, second)) by {
                        lemma_record_events_at_most_one(mid, second);
                    }
                    proof {
                        lemma_record_events_concat(before, first, second);
                        lemma_record_events_concat(before, first + second, rest);
                    }
                } else {
                    assert(pair_events(s, index as int, i as int, f, g) =~= Seq::<(u32, u32, D)>::empty());
                    assert(Seq::<(u32, u32, D)>::empty() + rest =~= rest);
                }
            }
            i += 1;
        }
    }
}

/// Records for object `target` a collision with `other` in direction `d`.
fn record_collision<D>(collisions: &mut HashMap<u32, ColData<D>>, target: u32, other: u32, d: D)
    ensures
        col_model(final(collisions)@) == record_event(col_model(old(collisions)@), (target, other, d)),
{
    let mut data = match collisions.remove(&target) {
        Some(c) => c,
        None => ColData::new(),
    };
    data.objects.push(other);
    data.directions.push(d);
    collisions.insert(target, data);
    assert(col_model(collisions@) =~= record_event(col_model(old(collisions)@), (target, other, d)));
}

/// The collision pass over the tree and the elements placed in its nodes,
/// or `None` when the walk enters a node with an empty stack.
///
/// The walk starts with the root's elements on the stack. Each node it
/// enters pushes its elements; then, going down from the top while the
/// entry above belongs to that node, each entry is tested against all
/// others (see [`descend_events`]). Climbing back to a node pops the
/// entries of the nodes below it.
pub fn try_calculate_collisions<H: Copy, D, F: Fn(H, H) -> bool, G: Fn(H, H) -> D>(
    octree: &Octree,
    octree_elements: &HashMap<u64, Vec<(u32, H)>>,
    check_collision: &F,
    collision_direction: &G,
) -> (r: Option<HashMap<u32, ColData<D>>>)
    requires
        test_is_function::<H, F>(*check_collision),
        direction_is_function::<H, D, G>(*collision_direction),
    ensures
        r is Some <==> walk_stack_ok(octree.node_set(), elements_model(octree_elements@), 0, 0),
        r matches Some(m) ==> col_model(m@) == record_events(
            Map::<u32, (Seq<u32>, Seq<D>)>::empty(),
            collision_events(
                octree.node_set(),
                elements_model(octree_elements@),
                *check_collision,
                *collision_direction,
            ),
        ),
{
    let ghost t = octree.node_set();
    let ghost e = elements_model(octree_elements@);
    let ghost f = *check_collision;
    let ghost g = *collision_direction;
    let ghost target = record_events(Map::<u32, (Seq<u32>, Seq<D>)>::empty(), collision_events(t, e, f, g));
    let mut collisions: HashMap<u32, ColData<D>> = HashMap::new();
    let mut stack: CollisionStack<H> = CollisionStack::new();
    stack.add_node_elements(octree_elements, 0);
    assert(stack.entries() =~= path_stack(e, 0));
    assert(col_model(collisions@) =~= Map::<u32, (Seq<u32>, Seq<D>)>::empty());
    let mut prev_node: u64 = 0;
    let mut it = octree.iter();
    loop
        invariant
            t == octree.node_set(),
            e == elements_model(octree_elements@),
            f == *check_collision,
            g == *collision_direction,
            test_is_function::<H, F>(f),
            direction_is_function::<H, D, G>(g),
            target == record_events(Map::<u32, (Seq<u32>, Seq<D>)>::empty(), collision_events(t, e, f, g)),
            it.tree() == t,
            walk_state_ok(it.current() as int, it.last_climbed() as int),
            prev_node == it.current(),
            stack.entries() == path_stack(e, it.current() as int),
            walk_stack_ok(t, e, it.current(), it.last_climbed()) == walk_stack_ok(t, e, 0, 0),
            record_events(col_model(collisions@), walk_events(t, e, f, g, it.current(), it.last_climbed()))
                == target,
        decreases walk_measure(it.current() as int, it.last_climbed() as int), depth(it.current() as int),
    {
        let ghost cur0 = it.current();
        let ghost lu0 = it.last_climbed();
        proof {
            lemma_walk_step(t, cur0, lu0);
            lemma_first_open_child(t, cur0 as int, lu0 as int, 0);
        }
        let next = it.next();
        match next {
            None => {
                assert(walk_step(t, cur0, lu0) is None);
                return Some(collisions);
            },
            Some(node) => {
                let ghost l = it.last_climbed();
                assert(walk_step(t, cur0, lu0) == Some((node, l)));
                assert(it.current() == node);
                let ghost s = path_stack(e, node as int);
                if node < prev_node {
                    assert(node == parent_of(cur0 as int));
                    stack.remove_lower_elements(node);
                    proof {
                        lemma_pop_path(e, cur0 as int);
                        assert(walk_events(t, e, f, g, cur0, lu0) =~= walk_events(t, e, f, g, node, l));
                    }
                } else {
                    let ghost j = choose|j: int|
                        0 <= j < 8 && node == child_of(cur0 as int, j);
                    assert(parent_of(node as int) == cur0 as int);
                    stack.add_node_elements(octree_elements, node);
                    assert(stack.entries() == s);
                    if stack.stack.len() == 0 {
                        return None;
                    }
                    let ghost rest = walk_events(t, e, f, g, node, l);
                    assert(walk_events(t, e, f, g, cur0, lu0) == descend_events(s, node, s.len() - 1, f, g) + rest);
                    let mut cur_obj: usize = stack.stack.len() - 1;
                    loop
                        invariant
                            stack.entries() == s,
                            s.len() > 0,
                            cur_obj < s.len(),
                            f == *check_collision,
                            g == *collision_direction,
                            test_is_function::<H, F>(f),
                            direction_is_function::<H, D, G>(g),
                            record_events(col_model(collisions@), descend_events(s, node, cur_obj as int, f, g) + rest) == target,
                        ensures
                            record_events(col_model(collisions@), rest) == target,
                        decreases cur_obj,
                    {
                        if stack.stack[cur_obj].0 == node {
                            if cur_obj > 0 {
                                let ghost before = col_model(collisions@);
                                let ghost c = cur_obj - 1;
                                assert(descend_events(s, node, cur_obj as int, f, g)
                                    == collide_events(s, c, 0, f, g) + descend_events(s, node, c, f, g));
                                cur_obj -= 1;
                                stack.collide_with_all(cur_obj, &mut collisions, check_collision, collision_direction);
                                proof {
                                    lemma_record_events_concat(before, collide_events(s, c, 0, f, g), descend_events(s, node, c, f, g) + rest);
                                    assert(collide_events(s, c, 0, f, g) + descend_events(s, node, c, f, g) + rest
                                        =~= collide_events(s, c, 0, f, g) + (descend_events(s, node, c, f, g) + rest));
                                }
                            } else {
                                assert(descend_events(s, node, cur_obj as int, f, g) + rest =~= rest);
                                break;
                            }
                        } else {
                            assert(descend_events(s, node, cur_obj as int, f, g) + rest =~= rest);
                            break;
                        }
                    }
                }
                prev_node = node;
            },
        }
    }
}

/// The collision pass over the tree and the elements placed in its nodes:
/// the collisions recorded for each object (see [`try_calculate_collisions`]).
pub fn calculate_collisions<H: Copy, D, F: Fn(H, H) -> bool, G: Fn(H, H) -> D>(
    octree: &Octree,
    octree_elements: &HashMap<u64, Vec<(u32, H)>>,
    check_collision: &F,
    collision_direction: &G,
) -> (r: HashMap<u32, ColData<D>>)
    requires
        test_is_function::<H, F>(*check_collision),
        direction_is_function::<H, D, G>(*collision_direction),
        walk_stack_ok(octree.node_set(), elements_model(octree_elements@), 0, 0),
    ensures
        col_model(r@) == record_events(
            Map::<u32, (Seq<u32>, Seq<D>)>::empty(),
            collision_events(
                octree.node_set(),
                elements_model(octree_elements@),
                *check_collision,
                *collision_direction,
            ),
        ),
{
    match try_calculate_collisions(octree, octree_elements, check_collision, collision_direction) {
        Some(m) => m,
        None => {
            assert(false);
            HashMap::new()
        },
    }
}

/// How often `b` occurs in `s`.
pub open spec fn occurrences(s: Seq<u32>, b: u32) -> nat
    decreases s.len(),
{
    if s.len() == 0 {
        0
    } else {
        occurrences(s.drop_last(), b) + (if s.last() == b {
            1nat
        } else {
            0nat
        })
    }
}

/// How often object `a` lists object `b` among its collisions.
pub open spec fn times_listed<D>(m: Map<u32, (Seq<u32>, Seq<D>)>, a: u32, b: u32) -> nat {
    if m.contains_key(a) {
        occurrences(m[a].0, b)
    } else {
        0
    }
}

/// How many of the recorded collisions are of `a` with `b`.
pub open spec fn event_count<D>(es: Seq<(u32, u32, D)>, a: u32, b: u32) -> nat
    decreases es.len(),
{
    if es.len() == 0 {
        0
    } else {
        (if es[0].0 == a && es[0].1 == b {
            1nat
        } else {
            0nat
        }) + event_count(es.drop_first(), a, b)
    }
}

proof fn lemma_event_count_at_most_one<D>(es: Seq<(u32, u32, D)>, a: u32, b: u32)
    requires
        es.len() <= 1,
    ensures
        es.len() == 0 ==> event_count(es, a, b) == 0,
        es.len() == 1 ==> event_count(es, a, b) == (if es[0].0 == a && es[0].1 == b {
            1nat
        } else {
            0nat
        }),
{
    if es.len() == 1 {
        assert(es.drop_first() =~= Seq::<(u32, u32, D)>::empty());
        assert(event_count(es.drop_first(), a, b) == 0);
    }
}

proof fn lemma_event_count_concat<D>(x: Seq<(u32, u32, D)>, y: Seq<(u32, u32, D)>, a: u32, b: u32)
    ensures
        event_count(x + y, a, b) == event_count(x, a, b) + event_count(y, a, b),
    decreases x.len(),
{
    if x.len() > 0 {
        assert((x + y).drop_first() =~= x.drop_first() + y);
        assert((x + y)[0] == x[0]);
        lemma_event_count_concat(x.drop_first(), y, a, b);
    } else {
        assert(x + y =~= y);
    }
}

/// Recording collisions adds, for each pair of objects, the number of
/// records of the one with the other.
proof fn lemma_record_counts<D>(m: Map<u32, (Seq<u32>, Seq<D>)>, es: Seq<(u32, u32, D)>, a: u32, b: u32)
    ensures
        times_listed(record_events(m, es), a, b) == times_listed(m, a, b) + event_count(es, a, b),
    decreases es.len(),
{
    if es.len() > 0 {
        let m1 = record_event(m, es[0]);
        if es[0].0 == a {
            let prev = if m.contains_key(a) {
                m[a].0
            } else {
                Seq::<u32>::empty()
            };
            assert(m1[a].0 == prev.push(es[0].1));
            assert(prev.push(es[0].1).drop_last() =~= prev);
            assert(occurrences(prev.push(es[0].1), b) == occurrences(prev, b) + (if es[0].1 == b {
                1nat
            } else {
                0nat
            }));
        } else {
            assert(m1.contains_key(a) == m.contains_key(a));
            assert(m.contains_key(a) ==> m1[a] == m[a]);
        }
        lemma_record_counts(m1, es.drop_first(), a, b);
    }
}

/// Collisions recorded for entries of two objects other than the world's
/// meshes are recorded for both.
proof fn lemma_pair_events_mutual<H, D, F: Fn(H, H) -> bool, G: Fn(H, H) -> D>(
    s: Seq<(u64, (u32, H))>,
    i: int,
    j: int,
    f: F,
    g: G,
    a: u32,
    b: u32,
)
    ensures
        a != MESH_GAMEOBJECT_ID && b != MESH_GAMEOBJECT_ID ==> event_count(pair_events(s, i, j, f, g), a, b)
            == event_count(pair_events(s, i, j, f, g), b, a),
        event_count(pair_events(s, i, j, f, g), a, a) == 0,
        event_count(pair_events(s, i, j, f, g), MESH_GAMEOBJECT_ID, b) == 0,
{
    let es = pair_events(s, i, j, f, g);
    let (id_i, h_i) = s[i].1;
    let (id_j, h_j) = s[j].1;
    if !(j == i || id_j == id_i || !collides(f, h_i, h_j)) {
        let first = if id_j != MESH_GAMEOBJECT_ID {
            seq![(id_j, id_i, direction(g, h_i, h_j))]
        } else {
            Seq::<(u32, u32, D)>::empty()
        };
        let second = if id_i != MESH_GAMEOBJECT_ID {
            seq![(id_i, id_j, direction(g, h_j, h_i))]
        } else {
            Seq::<(u32, u32, D)>::empty()
        };
        assert(es == first + second);
        lemma_event_count_concat(first, second, a, b);
        lemma_event_count_concat(first, second, b, a);
        lemma_event_count_concat(first, second, a, a);
        lemma_event_count_concat(first, second, MESH_GAMEOBJECT_ID, b);
        lemma_event_count_at_most_one(first, a, b);
        lemma_event_count_at_most_one(first, b, a);
        lemma_event_count_at_most_one(second, a, b);
        lemma_event_count_at_most_one(second, b, a);
        lemma_event_count_at_most_one(first, a, a);
        lemma_event_count_at_most_one(second, a, a);
        lemma_event_count_at_most_one(first, MESH_GAMEOBJECT_ID, b);
        lemma_event_count_at_most_one(second, MESH_GAMEOBJECT_ID, b);
    }
}

proof fn lemma_collide_events_mutual<H, D, F: Fn(H, H) -> bool, G: Fn(H, H) -> D>(
    s: Seq<(u64, (u32, H))>,
    i: int,
    j: int,
    f: F,
    g: G,
    a: u32,
    b: u32,
)
    ensures
        a != MESH_GAMEOBJECT_ID && b != MESH_GAMEOBJECT_ID ==> event_count(collide_events(s, i, j, f, g), a, b)
            == event_count(collide_events(s, i, j, f, g), b, a),
        event_count(collide_events(s, i, j, f, g), a, a) == 0,
        event_count(collide_events(s, i, j, f, g), MESH_GAMEOBJECT_ID, b) == 0,
    decreases s.len() - j,
{
    if 0 <= j < s.len() {
        lemma_pair_events_mutual(s, i, j, f, g, a, b);
        lemma_collide_events_mutual(s, i, j + 1, f, g, a, b);
        lemma_event_count_concat(pair_events(s, i, j, f, g), collide_events(s, i, j + 1, f, g), a, b);
        lemma_event_count_concat(pair_events(s, i, j, f, g), collide_events(s, i, j + 1, f, g), b, a);
        lemma_event_count_concat(pair_events(s, i, j, f, g), collide_events(s, i, j + 1, f, g), a, a);
        lemma_event_count_concat(pair_events(s, i, j, f, g), collide_events(s, i, j + 1, f, g), MESH_GAMEOBJECT_ID, b);
    }
}

proof fn lemma_descend_events_mutual<H, D, F: Fn(H, H) -> bool, G: Fn(H, H) -> D>(
    s: Seq<(u64, (u32, H))>,
    n: u64,
    c: int,
    f: F,
    g: G,
    a: u32,
    b: u32,
)
    ensures
        a != MESH_GAMEOBJECT_ID && b != MESH_GAMEOBJECT_ID ==> event_count(descend_events(s, n, c, f, g), a, b)
            == event_count(descend_events(s, n, c, f, g), b, a),
        event_count(descend_events(s, n, c, f, g), a, a) == 0,
        event_count(descend_events(s, n, c, f, g), MESH_GAMEOBJECT_ID, b) == 0,
    decreases c,
{
    if 0 < c < s.len() && s[c].0 == n {
        lemma_collide_events_mutual(s, c - 1, 0, f, g, a, b);
        lemma_descend_events_mutual(s, n, c - 1, f, g, a, b);
        lemma_event_count_concat(collide_events(s, c - 1, 0, f, g), descend_events(s, n, c - 1, f, g), a, b);
        lemma_event_count_concat(collide_events(s, c - 1, 0, f, g), descend_events(s, n, c - 1, f, g), b, a);
        lemma_event_count_concat(collide_events(s, c - 1, 0, f, g), descend_events(s, n, c - 1, f, g), a, a);
        lemma_event_count_concat(collide_events(s, c - 1, 0, f, g), descend_events(s, n, c - 1, f, g), MESH_GAMEOBJECT_ID, b);
    }
}

proof fn lemma_walk_events_mutual<H, D, F: Fn(H, H) -> bool, G: Fn(H, H) -> D>(
    t: Set<u64>,
    e: Map<u64, Seq<(u32, H)>>,
    f: F,
    g: G,
    cur: u64,
    last_up: u64,
    a: u32,
    b: u32,
)
    requires
        walk_state_ok(cur as int, last_up as int),
    ensures
        a != MESH_GAMEOBJECT_ID && b != MESH_GAMEOBJECT_ID ==> event_count(
            walk_events(t, e, f, g, cur, last_up),
            a,
            b,
        ) == event_count(walk_events(t, e, f, g, cur, last_up), b, a),
        event_count(walk_events(t, e, f, g, cur, last_up), a, a) == 0,
        event_count(walk_events(t, e, f, g, cur, last_up), MESH_GAMEOBJECT_ID, b) == 0,
    decreases walk_measure(cur as int, last_up as int), depth(cur as int),
{
    lemma_walk_step(t, cur, last_up);
    match walk_step(t, cur, last_up) {
        None => {},
        Some((c, l)) => {
            let s = path_stack(e, c as int);
            let here = if c > cur {
                descend_events(s, c, s.len() - 1, f, g)
            } else {
                Seq::<(u32, u32, D)>::empty()
            };
            if c > cur {
                lemma_descend_events_mutual(s, c, s.len() - 1, f, g, a, b);
            }
            lemma_walk_events_mutual(t, e, f, g, c, l, a, b);
            lemma_event_count_concat(here, walk_events(t, e, f, g, c, l), a, b);
            lemma_event_count_concat(here, walk_events(t, e, f, g, c, l), b, a);
            lemma_event_count_concat(here, walk_events(t, e, f, g, c, l), a, a);
            lemma_event_count_concat(here, walk_events(t, e, f, g, c, l), MESH_GAMEOBJECT_ID, b);
        },
    }
}

/// Collisions are mutual: after the collision pass, an object lists
/// another exactly as often as the other lists it, for any two objects
/// other than the world's meshes. No object lists itself, and the world's
/// meshes list nothing.
pub proof fn lemma_collisions_mutual<H, D, F: Fn(H, H) -> bool, G: Fn(H, H) -> D>(
    t: Set<u64>,
    e: Map<u64, Seq<(u32, H)>>,
    f: F,
    g: G,
    a: u32,
    b: u32,
)
    ensures
        ({
            let m = record_events(Map::<u32, (Seq<u32>, Seq<D>)>::empty(), collision_events(t, e, f, g));
            &&& a != MESH_GAMEOBJECT_ID && b != MESH_GAMEOBJECT_ID ==> times_listed(m, a, b)
                == times_listed(m, b, a)
            &&& times_listed(m, a, a) == 0
            &&& times_listed(m, MESH_GAMEOBJECT_ID, b) == 0
        }),
{
    let es = collision_events(t, e, f, g);
    let m0 = Map::<u32, (Seq<u32>, Seq<D>)>::empty();
    lemma_walk_events_mutual(t, e, f, g, 0, 0, a, b);
    lemma_walk_events_mutual(t, e, f, g, 0, 0, a, a);
    lemma_record_counts(m0, es, a, b);
    lemma_record_counts(m0, es, b, a);
    lemma_record_counts(m0, es, a, a);
    lemma_record_counts(m0, es, MESH_GAMEOBJECT_ID, b);
}

/// The stack at any node holds at least the root's elements.
proof fn lemma_path_stack_holds_root<H>(e: Map<u64, Seq<(u32, H)>>, n: int)
    ensures
        path_stack(e, n).len() >= node_entries(e, 0).len(),
    decreases n,
{
    if n > 0 {
        lemma_path_stack_holds_root(e, parent_of(n));
    }
}

/// When every node of the tree other than the root has an element on its
/// way from the root, the walk never enters a node with an empty stack.
pub proof fn lemma_walk_stack_ok_when_paths_hold<H>(
    t: Set<u64>,
    e: Map<u64, Seq<(u32, H)>>,
    cur: u64,
    last_up: u64,
)
    requires
        walk_state_ok(cur as int, last_up as int),
        forall|n: u64| #[trigger] t.contains(n) && n != 0 ==> path_stack(e, n as int).len() > 0,
    ensures
        walk_stack_ok(t, e, cur, last_up),
    decreases walk_measure(cur as int, last_up as int), depth(cur as int),
{
    lemma_walk_step(t, cur, last_up);
    lemma_first_open_child(t, cur as int, last_up as int, 0);
    match walk_step(t, cur, last_up) {
        None => {},
        Some((c, l)) => {
            lemma_walk_stack_ok_when_paths_hold(t, e, c, l);
        },
    }
}

/// When the root holds an element, the collision pass never enters a node
/// with an empty stack.
pub proof fn lemma_walk_stack_ok_with_root_elements<H>(t: Set<u64>, e: Map<u64, Seq<(u32, H)>>)
    requires
        e.contains_key(0),
        e[0].len() > 0,
    ensures
        walk_stack_ok(t, e, 0, 0),
{
    assert forall|n: u64| #[trigger] t.contains(n) && n != 0 implies path_stack(e, n as int).len() > 0 by {
        lemma_path_stack_holds_root(e, n as int);
    }
    lemma_walk_stack_ok_when_paths_hold(t, e, 0, 0);
}

/// Element `(id, h)` is placed in a node on the way from the root down to
/// node `m`.
pub open spec fn on_path<H>(e: Map<u64, Seq<(u32, H)>>, m: u64, id: u32, h: H) -> bool {
    exists|n: u64| is_ancestor(n as int, m as int) && #[trigger] e.contains_key(n) && e[n].contains((id, h))
}

/// A collision of object `ev.0` with object `ev.1` in direction `ev.2` that
/// the pass over the tree `t` may record: the two objects differ, the first
/// is not the world's meshes, and for one node `m` of the tree each has an
/// element placed on the way from the root down to `m`, whose hit boxes the
/// test finds colliding in one order or the other. The direction is the
/// one that `g` gives from the second object's box to the first's.
pub open spec fn reported_pair<H, D, F: Fn(H, H) -> bool, G: Fn(H, H) -> D>(
    t: Set<u64>,
    e: Map<u64, Seq<(u32, H)>>,
    f: F,
    g: G,
    ev: (u32, u32, D),
) -> bool {
    &&& ev.0 != ev.1
    &&& ev.0 != MESH_GAMEOBJECT_ID
    &&& exists|m: u64, ht: H, ho: H|
        #![trigger on_path(e, m, ev.0, ht), on_path(e, m, ev.1, ho)]
        t.contains(m) && on_path(e, m, ev.0, ht) && on_path(e, m, ev.1, ho) && (collides(f, ho, ht)
            || collides(f, ht, ho)) && ev.2 == direction(g, ho, ht)
}

/// Entries `a` and `b` of stack `s` give the collision `ev` of the object
/// of entry `a` with the object of entry `b`.
spec fn entry_pair<H, D, F: Fn(H, H) -> bool, G: Fn(H, H) -> D>(
    s: Seq<(u64, (u32, H))>,
    f: F,
    g: G,
    ev: (u32, u32, D),
    a: int,
    b: int,
) -> bool {
    &&& s[a].1.0 == ev.0
    &&& s[b].1.0 == ev.1
    &&& ev.2 == direction(g, s[b].1.1, s[a].1.1)
    &&& (collides(f, s[b].1.1, s[a].1.1) || collides(f, s[a].1.1, s[b].1.1))
}

/// The collision `ev` comes from two entries of stack `s`.
spec fn stack_reports<H, D, F: Fn(H, H) -> bool, G: Fn(H, H) -> D>(
    s: Seq<(u64, (u32, H))>,
    f: F,
    g: G,
    ev: (u32, u32, D),
) -> bool {
    &&& ev.0 != ev.1
    &&& ev.0 != MESH_GAMEOBJECT_ID
    &&& exists|a: int, b: int| 0 <= a < s.len() && 0 <= b < s.len() && #[trigger] entry_pair(s, f, g, ev, a, b)
}

/// What holds of every item of `x` and of every item of `y` holds of every
/// item of `x + y`.
proof fn lemma_all_concat<A>(x: Seq<A>, y: Seq<A>, p: spec_fn(A) -> bool)
    requires
        forall|k: int| 0 <= k < x.len() ==> p(#[trigger] x[k]),
        forall|k: int| 0 <= k < y.len() ==> p(#[trigger] y[k]),
    ensures
        forall|k: int| 0 <= k < (x + y).len() ==> p(#[trigger] (x + y)[k]),
{
    assert forall|k: int| 0 <= k < (x + y).len() implies p(#[trigger] (x + y)[k]) by {
        if k < x.len() {
            assert((x + y)[k] == x[k]);
        } else {
            assert((x + y)[k] == y[k - x.len()]);
        }
    }
}

proof fn lemma_pair_events_from_stack<H, D, F: Fn(H, H) -> bool, G: Fn(H, H) -> D>(
    s: Seq<(u64, (u32, H))>,
    i: int,
    j: int,
    f: F,
    g: G,
)
    requires
        0 <= i < s.len(),
        0 <= j < s.len(),
    ensures
        forall|k: int|
            0 <= k < pair_events(s, i, j, f, g).len() ==> stack_reports(s, f, g, #[trigger] pair_events(s, i, j, f, g)[k]),
{
    let (id_i, h_i) = s[i].1;
    let (id_j, h_j) = s[j].1;
    if !(j == i || id_j == id_i || !collides(f, h_i, h_j)) {
        let first = if id_j != MESH_GAMEOBJECT_ID {
            seq![(id_j, id_i, direction(g, h_i, h_j))]
        } else {
            Seq::<(u32, u32, D)>::empty()
        };
        let second = if id_i != MESH_GAMEOBJECT_ID {
            seq![(id_i, id_j, direction(g, h_j, h_i))]
        } else {
            Seq::<(u32, u32, D)>::empty()
        };
        assert(pair_events(s, i, j, f, g) == first + second);
        if id_j != MESH_GAMEOBJECT_ID {
            assert(entry_pair(s, f, g, first[0], j, i));
        }
        if id_i != MESH_GAMEOBJECT_ID {
            assert(entry_pair(s, f, g, second[0], i, j));
        }
        let p = |ev: (u32, u32, D)| stack_reports(s, f, g, ev);
        lemma_all_concat(first, second, p);
    }
}

proof fn lemma_collide_events_from_stack<H, D, F: Fn(H, H) -> bool, G: Fn(H, H) -> D>(
    s: Seq<(u64, (u32, H))>,
    i: int,
    j: int,
    f: F,
    g: G,
)
    requires
        0 <= i < s.len(),
    ensures
        forall|k: int|
            0 <= k < collide_events(s, i, j, f, g).len() ==> stack_reports(s, f, g, #[trigger] collide_events(s, i, j, f, g)[k]),
    decreases s.len() - j,
{
    if 0 <= j < s.len() {
        lemma_pair_events_from_stack(s, i, j, f, g);
        lemma_collide_events_from_stack(s, i, j + 1, f, g);
        let p = |ev: (u32, u32, D)| stack_reports(s, f, g, ev);
        lemma_all_concat(pair_events(s, i, j, f, g), collide_events(s, i, j + 1, f, g), p);
    }
}

proof fn lemma_descend_events_from_stack<H, D, F: Fn(H, H) -> bool, G: Fn(H, H) -> D>(
    s: Seq<(u64, (u32, H))>,
    n: u64,
    c: int,
    f: F,
    g: G,
)
    ensures
        forall|k: int|
            0 <= k < descend_events(s, n, c, f, g).len() ==> stack_reports(s, f, g, #[trigger] descend_events(s, n, c, f, g)[k]),
    decreases c,
{
    if 0 < c < s.len() && s[c].0 == n {
        lemma_collide_events_from_stack(s, c - 1, 0, f, g);
        lemma_descend_events_from_stack(s, n, c - 1, f, g);
        let p = |ev: (u32, u32, D)| stack_reports(s, f, g, ev);
        lemma_all_concat(collide_events(s, c - 1, 0, f, g), descend_events(s, n, c - 1, f, g), p);
    }
}

/// Each entry of the stack at node `n` is an element placed in a node on
/// the way from the root down to `n`, paired with that node.
proof fn lemma_path_stack_entries<H>(e: Map<u64, Seq<(u32, H)>>, n: int)
    requires
        0 <= n <= u64::MAX,
    ensures
        forall|k: int|
            0 <= k < path_stack(e, n).len() ==> {
                let x = #[trigger] path_stack(e, n)[k];
                &&& is_ancestor(x.0 as int, n)
                &&& e.contains_key(x.0)
                &&& e[x.0].contains(x.1)
            },
    decreases n,
{
    let here = node_entries(e, n);
    assert forall|k: int| 0 <= k < here.len() implies {
        let x = #[trigger] here[k];
        &&& x.0 == n
        &&& e.contains_key(x.0)
        &&& e[x.0].contains(x.1)
    } by {
        assert(e[n as u64][k] == here[k].1);
    }
    if n > 0 {
        let p = parent_of(n);
        lemma_path_stack_entries(e, p);
        let s = path_stack(e, p);
        assert forall|k: int| 0 <= k < path_stack(e, n).len() implies {
            let x = #[trigger] path_stack(e, n)[k];
            &&& is_ancestor(x.0 as int, n)
            &&& e.contains_key(x.0)
            &&& e[x.0].contains(x.1)
        } by {
            if k < s.len() {
                assert(path_stack(e, n)[k] == s[k]);
            } else {
                assert(path_stack(e, n)[k] == here[k - s.len()]);
            }
        }
    }
}

proof fn lemma_walk_events_sound<H, D, F: Fn(H, H) -> bool, G: Fn(H, H) -> D>(
    t: Set<u64>,
    e: Map<u64, Seq<(u32, H)>>,
    f: F,
    g: G,
    cur: u64,
    last_up: u64,
)
    requires
        walk_state_ok(cur as int, last_up as int),
    ensures
        forall|k: int|
            0 <= k < walk_events(t, e, f, g, cur, last_up).len() ==> reported_pair(
                t,
                e,
                f,
                g,
                #[trigger] walk_events(t, e, f, g, cur, last_up)[k],
            ),
    decreases walk_measure(cur as int, last_up as int), depth(cur as int),
{
    lemma_walk_step(t, cur, last_up);
    lemma_first_open_child(t, cur as int, last_up as int, 0);
    match walk_step(t, cur, last_up) {
        None => {},
        Some((c, l)) => {
            lemma_walk_events_sound(t, e, f, g, c, l);
            let s = path_stack(e, c as int);
            let here = if c > cur {
                descend_events(s, c, s.len() - 1, f, g)
            } else {
                Seq::<(u32, u32, D)>::empty()
            };
            if c > cur {
                assert(first_open_child(t, cur as int, last_up as int, 0) is Some);
                assert(t.contains(c));
                lemma_descend_events_from_stack(s, c, s.len() - 1, f, g);
                lemma_path_stack_entries(e, c as int);
                assert forall|k: int| 0 <= k < here.len() implies reported_pair(t, e, f, g, #[trigger] here[k]) by {
                    let ev = here[k];
                    assert(stack_reports(s, f, g, ev));
                    let (a, b) = choose|a: int, b: int|
                        0 <= a < s.len() && 0 <= b < s.len() && #[trigger] entry_pair(s, f, g, ev, a, b);
                    let xa = s[a];
                    let xb = s[b];
                    assert(is_ancestor(xa.0 as int, c as int) && e.contains_key(xa.0) && e[xa.0].contains(xa.1));
                    assert(is_ancestor(xb.0 as int, c as int) && e.contains_key(xb.0) && e[xb.0].contains(xb.1));
                    assert(xa.1 == (ev.0, xa.1.1));
                    assert(xb.1 == (ev.1, xb.1.1));
                    assert(on_path(e, c, ev.0, xa.1.1));
                    assert(on_path(e, c, ev.1, xb.1.1));
                }
            }
            let p = |ev: (u32, u32, D)| reported_pair(t, e, f, g, ev);
            lemma_all_concat(here, walk_events(t, e, f, g, c, l), p);
        },
    }
}

/// Every record of map `m` is two lists of one length, and each record
/// `(a, other, d)` satisfies `p`.
pub open spec fn records_satisfy<D>(m: Map<u32, (Seq<u32>, Seq<D>)>, p: spec_fn((u32, u32, D)) -> bool) -> bool {
    forall|a: u32| #[trigger] m.contains_key(a) ==> {
        &&& m[a].0.len() == m[a].1.len()
        &&& forall|q: int| 0 <= q < m[a].0.len() ==> p((a, #[trigger] m[a].0[q], m[a].1[q]))
    }
}

/// Recording collisions that satisfy `p` keeps every record satisfying it.
proof fn lemma_record_events_keep<D>(
    m: Map<u32, (Seq<u32>, Seq<D>)>,
    es: Seq<(u32, u32, D)>,
    p: spec_fn((u32, u32, D)) -> bool,
)
    requires
        records_satisfy(m, p),
        forall|k: int| 0 <= k < es.len() ==> p(#[trigger] es[k]),
    ensures
        records_satisfy(record_events(m, es), p),
    decreases es.len(),
{
    if es.len() > 0 {
        let ev = es[0];
        let m1 = record_event(m, ev);
        assert(p(ev));
        assert forall|a: u32| #[trigger] m1.contains_key(a) implies {
            &&& m1[a].0.len() == m1[a].1.len()
            &&& forall|q: int| 0 <= q < m1[a].0.len() ==> p((a, #[trigger] m1[a].0[q], m1[a].1[q]))
        } by {
            if a == ev.0 {
                let prev = if m.contains_key(a) {
                    m[a]
                } else {
                    (Seq::<u32>::empty(), Seq::<D>::empty())
                };
                assert(m1[a] == (prev.0.push(ev.1), prev.1.push(ev.2)));
                assert forall|q: int| 0 <= q < m1[a].0.len() implies p((a, #[trigger] m1[a].0[q], m1[a].1[q])) by {
                    if q < prev.0.len() {
                        assert(m1[a].0[q] == prev.0[q]);
                        assert(m1[a].1[q] == prev.1[q]);
                        assert(m.contains_key(a));
                        assert(p((a, m[a].0[q], m[a].1[q])));
                    } else {
                        assert((a, m1[a].0[q], m1[a].1[q]) == ev);
                    }
                }
            } else {
                assert(m1[a] == m[a]);
            }
        }
        assert forall|k: int| 0 <= k < es.drop_first().len() implies p(#[trigger] es.drop_first()[k]) by {
            assert(es.drop_first()[k] == es[k + 1]);
        }
        lemma_record_events_keep(m1, es.drop_first(), p);
    }
}

/// The collision pass records nothing it should not: each collision that
/// an object lists is with another object (not itself), and both have an
/// element placed on the way from the root down to one node of the tree,
/// whose hit boxes the test finds colliding; the direction listed with it
/// is the one from the other object's box to the object's own. The world's
/// meshes list nothing.
pub proof fn lemma_collisions_sound<H, D, F: Fn(H, H) -> bool, G: Fn(H, H) -> D>(
    t: Set<u64>,
    e: Map<u64, Seq<(u32, H)>>,
    f: F,
    g: G,
    a: u32,
    q: int,
)
    requires
        record_events(Map::<u32, (Seq<u32>, Seq<D>)>::empty(), collision_events(t, e, f, g)).contains_key(a),
        0 <= q < record_events(Map::<u32, (Seq<u32>, Seq<D>)>::empty(), collision_events(t, e, f, g))[a].0.len(),
    ensures
        ({
            let m = record_events(Map::<u32, (Seq<u32>, Seq<D>)>::empty(), collision_events(t, e, f, g));
            &&& q < m[a].1.len()
            &&& reported_pair(t, e, f, g, (a, m[a].0[q], m[a].1[q]))
        }),
{
    let p = |ev: (u32, u32, D)| reported_pair(t, e, f, g, ev);
    let m0 = Map::<u32, (Seq<u32>, Seq<D>)>::empty();
    lemma_walk_events_sound(t, e, f, g, 0, 0);
    assert forall|k: int| 0 <= k < collision_events(t, e, f, g).len() implies p(#[trigger] collision_events(t, e, f, g)[k]) by {}
    lemma_record_events_keep(m0, collision_events(t, e, f, g), p);
    let m = record_events(m0, collision_events(t, e, f, g));
    assert(m.contains_key(a));
    assert(p((a, m[a].0[q], m[a].1[q])));
}

/// A colliding pair of entries of different objects gives a record for each
/// of the two that is not the world's meshes.
proof fn lemma_pair_events_record_both<H, D, F: Fn(H, H) -> bool, G: Fn(H, H) -> D>(
    s: Seq<(u64, (u32, H))>,
    p: int,
    q: int,
    f: F,
    g: G,
)
    requires
        0 <= p < s.len(),
        0 <= q < s.len(),
        p != q,
        s[p].1.0 != s[q].1.0,
        collides(f, s[p].1.1, s[q].1.1),
    ensures
        s[p].1.0 != MESH_GAMEOBJECT_ID ==> event_count(pair_events(s, p, q, f, g), s[p].1.0, s[q].1.0) >= 1,
        s[q].1.0 != MESH_GAMEOBJECT_ID ==> event_count(pair_events(s, p, q, f, g), s[q].1.0, s[p].1.0) >= 1,
{
    let (id_p, h_p) = s[p].1;
    let (id_q, h_q) = s[q].1;
    let first = if id_q != MESH_GAMEOBJECT_ID {
        seq![(id_q, id_p, direction(g, h_p, h_q))]
    } else {
        Seq::<(u32, u32, D)>::empty()
    };
    let second = if id_p != MESH_GAMEOBJECT_ID {
        seq![(id_p, id_q, direction(g, h_q, h_p))]
    } else {
        Seq::<(u32, u32, D)>::empty()
    };
    assert(pair_events(s, p, q, f, g) == first + second);
    lemma_event_count_concat(first, second, id_p, id_q);
    lemma_event_count_concat(first, second, id_q, id_p);
    lemma_event_count_at_most_one(first, id_q, id_p);
    lemma_event_count_at_most_one(second, id_p, id_q);
}

/// Testing entry `p` against the entries from `j` on records at least what
/// testing it against entry `q` does, for `q` from `j` on.
proof fn lemma_collide_events_cover_pair<H, D, F: Fn(H, H) -> bool, G: Fn(H, H) -> D>(
    s: Seq<(u64, (u32, H))>,
    p: int,
    j: int,
    q: int,
    f: F,
    g: G,
    a: u32,
    b: u32,
)
    requires
        0 <= j <= q < s.len(),
    ensures
        event_count(collide_events(s, p, j, f, g), a, b) >= event_count(pair_events(s, p, q, f, g), a, b),
    decreases q - j,
{
    lemma_event_count_concat(pair_events(s, p, j, f, g), collide_events(s, p, j + 1, f, g), a, b);
    if j < q {
        lemma_collide_events_cover_pair(s, p, j + 1, q, f, g, a, b);
    }
}

/// Scanning down from `c` through entries of node `n` tests every entry
/// below the scanned ones, down to `p`, against all others.
proof fn lemma_descend_events_cover_collide<H, D, F: Fn(H, H) -> bool, G: Fn(H, H) -> D>(
    s: Seq<(u64, (u32, H))>,
    n: u64,
    c: int,
    p: int,
    f: F,
    g: G,
    a: u32,
    b: u32,
)
    requires
        0 <= p < c < s.len(),
        forall|k: int| p < k <= c ==> #[trigger] s[k].0 == n,
    ensures
        event_count(descend_events(s, n, c, f, g), a, b) >= event_count(collide_events(s, p, 0, f, g), a, b),
    decreases c,
{
    assert(s[c].0 == n);
    lemma_event_count_concat(collide_events(s, c - 1, 0, f, g), descend_events(s, n, c - 1, f, g), a, b);
    if p < c - 1 {
        lemma_descend_events_cover_collide(s, n, c - 1, p, f, g, a, b);
    }
}

/// The walk records at least what it records on entering a node it steps
/// into.
proof fn lemma_walk_events_cover_descent<H, D, F: Fn(H, H) -> bool, G: Fn(H, H) -> D>(
    t: Set<u64>,
    e: Map<u64, Seq<(u32, H)>>,
    f: F,
    g: G,
    cur: u64,
    last_up: u64,
    n: u64,
    a: u32,
    b: u32,
)
    requires
        walk_state_ok(cur as int, last_up as int),
        walk_descents(t, cur, last_up).contains(n),
    ensures
        event_count(walk_events(t, e, f, g, cur, last_up), a, b) >= event_count(
            descend_events(path_stack(e, n as int), n, path_stack(e, n as int).len() - 1, f, g),
            a,
            b,
        ),
    decreases walk_measure(cur as int, last_up as int), depth(cur as int),
{
    lemma_walk_step(t, cur, last_up);
    match walk_step(t, cur, last_up) {
        None => {
            assert(walk_descents(t, cur, last_up) =~= Seq::<u64>::empty());
        },
        Some((c, l)) => {
            let s = path_stack(e, c as int);
            let here = if c > cur {
                descend_events(s, c, s.len() - 1, f, g)
            } else {
                Seq::<(u32, u32, D)>::empty()
            };
            let head = if c > cur {
                seq![c]
            } else {
                Seq::<u64>::empty()
            };
            let rest = walk_descents(t, c, l);
            assert(walk_descents(t, cur, last_up) == head + rest);
            lemma_event_count_concat(here, walk_events(t, e, f, g, c, l), a, b);
            if !(c > cur && c == n) {
                let k = choose|k: int| 0 <= k < (head + rest).len() && (head + rest)[k] == n;
                if k < head.len() {
                    assert(head[k] == c);
                }
                assert(rest[k - head.len()] == n);
                lemma_walk_events_cover_descent(t, e, f, g, c, l, n, a, b);
            }
        },
    }
}

/// Elements of two different objects placed in the same node of the tree,
/// other than the root, are always tested against each other: when the test
/// finds the box of the one placed first colliding with the box of the one
/// placed later, each of the two objects that is not the world's meshes
/// lists the other. (The walk steps into every such node when the parent of
/// every node of the tree other than the root may have children.)
pub proof fn lemma_same_node_collisions_recorded<H, D, F: Fn(H, H) -> bool, G: Fn(H, H) -> D>(
    t: Set<u64>,
    e: Map<u64, Seq<(u32, H)>>,
    f: F,
    g: G,
    n: u64,
    i: int,
    j: int,
)
    requires
        tree_closed(t),
        forall|m: u64| #[trigger] t.contains(m) && m != 0 ==> spec_has_children(parent_of(m as int)),
        t.contains(n),
        n != 0,
        e.contains_key(n),
        0 <= i < j < e[n].len(),
        e[n][i].0 != e[n][j].0,
        collides(f, e[n][i].1, e[n][j].1),
    ensures
        ({
            let m = record_events(Map::<u32, (Seq<u32>, Seq<D>)>::empty(), collision_events(t, e, f, g));
            &&& e[n][i].0 != MESH_GAMEOBJECT_ID ==> times_listed(m, e[n][i].0, e[n][j].0) >= 1
            &&& e[n][j].0 != MESH_GAMEOBJECT_ID ==> times_listed(m, e[n][j].0, e[n][i].0) >= 1
        }),
{
    let a = e[n][i].0;
    let b = e[n][j].0;
    let s = path_stack(e, n as int);
    let below = path_stack(e, parent_of(n as int));
    let x = node_entries(e, n as int);
    assert(s == below + x);
    let p = below.len() + i;
    let q = below.len() + j;
    let top = s.len() - 1;
    assert(s[p] == x[i]);
    assert(s[q] == x[j]);
    assert(s[p].1 == e[n][i]);
    assert(s[q].1 == e[n][j]);
    assert forall|k: int| p < k <= top implies #[trigger] s[k].0 == n by {
        assert(s[k] == x[k - below.len()]);
    }
    lemma_walk_visits_every_node(t, n);
    let es = collision_events(t, e, f, g);
    let m0 = Map::<u32, (Seq<u32>, Seq<D>)>::empty();
    lemma_pair_events_record_both(s, p, q, f, g);
    lemma_collide_events_cover_pair(s, p, 0, q, f, g, a, b);
    lemma_collide_events_cover_pair(s, p, 0, q, f, g, b, a);
    lemma_descend_events_cover_collide(s, n, top, p, f, g, a, b);
    lemma_descend_events_cover_collide(s, n, top, p, f, g, b, a);
    lemma_walk_events_cover_descent(t, e, f, g, 0, 0, n, a, b);
    lemma_walk_events_cover_descent(t, e, f, g, 0, 0, n, b, a);
    lemma_record_counts(m0, es, a, b);
    lemma_record_counts(m0, es, b, a);
}

} // verus!
