//! Maps keyed by four `isize` mesh-point coordinates, held in std
//! `HashMap`s: the first two coordinates pick an inner map by one packed
//! integer key, the last two pick the entry in it by another.
use vstd::prelude::*;
use std::collections::HashMap;

verus! {

/// The key under which a mesh point is stored.
pub type PointKey = (isize, isize, isize, isize);

/// The integer key of two coordinates: their bits side by side, the first
/// highest.
pub open spec fn pair_key(a: isize, b: isize) -> u128 {
    ((a as i64 as u64 as u128) << 64u128) | (b as i64 as u64 as u128)
}

/// The two coordinates of a key made by [`pair_key`].
pub open spec fn key_pair(k: u128) -> (isize, isize) {
    ((k >> 64u128) as u64 as i64 as isize, k as u64 as i64 as isize)
}

/// Unpacking two packed coordinates gives them back.
pub proof fn lemma_key_pair(a: isize, b: isize)
    ensures
        key_pair(pair_key(a, b)) == (a, b),
{
    assert(((((a as i64 as u64 as u128) << 64u128) | (b as i64 as u64 as u128)) >> 64u128) as u64 as i64
        as isize == a) by (bit_vector);
    assert((((a as i64 as u64 as u128) << 64u128) | (b as i64 as u64 as u128)) as u64 as i64 as isize
        == b) by (bit_vector);
}

/// The outer key of a point: its first two coordinates.
pub open spec fn outer_key(k: PointKey) -> u128 {
    pair_key(k.0, k.1)
}

/// The inner key of a point: its last two coordinates.
pub open spec fn inner_key(k: PointKey) -> u128 {
    pair_key(k.2, k.3)
}

/// Two points with the same outer and inner keys are the same point.
proof fn lemma_point_keys_injective()
    ensures
        forall|p: PointKey, q: PointKey|
            #[trigger] outer_key(p) == #[trigger] outer_key(q) && inner_key(p) == inner_key(q) ==> p == q,
{
    assert forall|p: PointKey, q: PointKey|
        #[trigger] outer_key(p) == #[trigger] outer_key(q) && inner_key(p) == inner_key(q) implies p == q by {
        lemma_key_pair(p.0, p.1);
        lemma_key_pair(q.0, q.1);
        lemma_key_pair(p.2, p.3);
        lemma_key_pair(q.2, q.3);
    }
}

/// The integer key of two coordinates.
fn pack_pair(a: isize, b: isize) -> (r: u128)
    ensures
        r == pair_key(a, b),
{
    ((a as i64 as u64 as u128) << 64u128) | (b as i64 as u64 as u128)
}

/// A map from mesh-point keys to vertex indices.
pub struct PointMap {
    inner: HashMap<u128, HashMap<u128, usize>>,
}

impl View for PointMap {
    type V = Map<PointKey, usize>;

    closed spec fn view(&self) -> Map<PointKey, usize> {
        Map::new(
            |k: PointKey|
                self.inner@.contains_key(outer_key(k)) && self.inner@[outer_key(k)]@.contains_key(inner_key(k)),
            |k: PointKey| self.inner@[outer_key(k)]@[inner_key(k)],
        )
    }
}

impl PointMap {
    /// An empty map.
    pub fn new() -> (r: Self)
        ensures
            r@ == Map::<PointKey, usize>::empty(),
    {
        let r = PointMap { inner: HashMap::new() };
        assert(r@ =~= Map::<PointKey, usize>::empty());
        r
    }

    /// The index stored under a key.
    pub fn get(&self, k: &PointKey) -> (r: Option<usize>)
        ensures
            match r {
                Some(v) => self@.contains_key(*k) && v == self@[*k],
                None => !self@.contains_key(*k),
            },
    {
        match self.inner.get(&pack_pair(k.0, k.1)) {
            None => None,
            Some(row) => match row.get(&pack_pair(k.2, k.3)) {
                None => None,
                Some(v) => Some(*v),
            },
        }
    }

    /// Stores an index under a key.
    pub fn insert(&mut self, k: PointKey, v: usize)
        ensures
            final(self)@ == old(self)@.insert(k, v),
    {
        let outer = pack_pair(k.0, k.1);
        let inner = pack_pair(k.2, k.3);
        let ghost o = self.inner@;
        let mut row = match self.inner.remove(&outer) {
            Some(row) => row,
            None => HashMap::new(),
        };
        let ghost old_row = row@;
        assert(o.contains_key(outer) ==> old_row == o[outer]@);
        assert(!o.contains_key(outer) ==> old_row == Map::<u128, usize>::empty());
        let _ = row.insert(inner, v);
        self.inner.insert(outer, row);
        assert(self.inner@ == o.insert(outer, row));
        assert(row@ == old_row.insert(inner, v));
        proof {
            lemma_point_keys_injective();
        }
        assert forall|q: PointKey| #[trigger] self@.contains_key(q) == old(self)@.insert(k, v).contains_key(q)
            && (self@.contains_key(q) ==> self@[q] == old(self)@.insert(k, v)[q]) by {
            if outer_key(q) == outer {
                if inner_key(q) == inner {
                    assert(outer_key(q) == outer_key(k) && inner_key(q) == inner_key(k));
                    assert(q == k);
                }
            }
        }
        assert(self@ =~= old(self)@.insert(k, v));
    }
}

} // verus!
