//! Maps keyed by chunk position, held in a std `HashMap` under an integer
//! key that packs the three coordinates.
use vstd::prelude::*;
use std::collections::HashMap;
use vstd::std_specs::iter::IteratorSpec;

verus! {

/// A chunk position.
pub type ChunkPos = (i32, i32, i32);

/// The integer key of a position: the coordinates' bits side by side, x
/// highest.
pub open spec fn pos_key(p: ChunkPos) -> u128 {
    ((p.0 as u32 as u128) << 64u128) | ((p.1 as u32 as u128) << 32u128) | (p.2 as u32 as u128)
}

/// The position whose key is `k`, for a key made by [`pos_key`].
pub open spec fn key_pos(k: u128) -> ChunkPos {
    ((k >> 64u128) as u32 as i32, (k >> 32u128) as u32 as i32, k as u32 as i32)
}

/// Unpacking a packed position gives it back.
pub proof fn lemma_key_pos(p: ChunkPos)
    ensures
        key_pos(pos_key(p)) == p,
{
    let x = p.0;
    let y = p.1;
    let z = p.2;
    let k = pos_key(p);
    assert(((((x as u32 as u128) << 64u128) | ((y as u32 as u128) << 32u128) | (z as u32 as u128))
        >> 64u128) as u32 as i32 == x) by (bit_vector);
    assert(((((x as u32 as u128) << 64u128) | ((y as u32 as u128) << 32u128) | (z as u32 as u128))
        >> 32u128) as u32 as i32 == y) by (bit_vector);
    assert((((x as u32 as u128) << 64u128) | ((y as u32 as u128) << 32u128) | (z as u32 as u128))
        as u32 as i32 == z) by (bit_vector);
}

/// Different positions have different keys.
pub proof fn lemma_pos_key_injective()
    ensures
        forall|p: ChunkPos, q: ChunkPos| #[trigger] pos_key(p) == #[trigger] pos_key(q) ==> p == q,
{
    assert forall|p: ChunkPos, q: ChunkPos| #[trigger] pos_key(p) == #[trigger] pos_key(q) implies p == q by {
        lemma_key_pos(p);
        lemma_key_pos(q);
    }
}

/// The key of a position.
fn pack(p: ChunkPos) -> (r: u128)
    ensures
        r == pos_key(p),
{
    ((p.0 as u32 as u128) << 64u128) | ((p.1 as u32 as u128) << 32u128) | (p.2 as u32 as u128)
}

/// The position of a key.
fn unpack(k: u128) -> (r: ChunkPos)
    ensures
        r == key_pos(k),
{
    ((k >> 64u128) as u32 as i32, (k >> 32u128) as u32 as i32, k as u32 as i32)
}

/// A map from chunk positions to values.
#[verifier::reject_recursive_types(V)]
pub struct PosMap<V> {
    inner: HashMap<u128, V>,
}

impl<V> View for PosMap<V> {
    type V = Map<ChunkPos, V>;

    closed spec fn view(&self) -> Map<ChunkPos, V> {
        Map::new(|p: ChunkPos| self.inner@.contains_key(pos_key(p)), |p: ChunkPos| self.inner@[pos_key(p)])
    }
}

impl<V> PosMap<V> {
    /// Every key held is the key of a position.
    pub closed spec fn wf(&self) -> bool {
        forall|k: u128| #[trigger] self.inner@.contains_key(k) ==> pos_key(key_pos(k)) == k
    }

    /// An empty map.
    pub fn new() -> (r: Self)
        ensures
            r.wf(),
            r@ == Map::<ChunkPos, V>::empty(),
    {
        let r = PosMap { inner: HashMap::new() };
        assert(r@ =~= Map::<ChunkPos, V>::empty());
        r
    }

    /// Whether the position is present.
    pub fn contains_key(&self, k: &ChunkPos) -> (r: bool)
        ensures
            r == self@.contains_key(*k),
    {
        self.inner.contains_key(&pack(*k))
    }

    /// The value stored under a position.
    pub fn get(&self, k: &ChunkPos) -> (r: Option<&V>)
        ensures
            match r {
                Some(v) => self@.contains_key(*k) && *v == self@[*k],
                None => !self@.contains_key(*k),
            },
    {
        self.inner.get(&pack(*k))
    }

    /// Removes a position, returning its value.
    pub fn remove(&mut self, k: &ChunkPos) -> (r: Option<V>)
        requires
            old(self).wf(),
        ensures
            final(self).wf(),
            final(self)@ == old(self)@.remove(*k),
            match r {
                Some(v) => old(self)@.contains_key(*k) && v == old(self)@[*k],
                None => !old(self)@.contains_key(*k),
            },
    {
        let r = self.inner.remove(&pack(*k));
        proof {
            lemma_pos_key_injective();
        }
        assert(self@ =~= old(self)@.remove(*k));
        r
    }

    /// Stores a value under a position, returning the one it replaces.
    pub fn insert(&mut self, k: ChunkPos, v: V) -> (r: Option<V>)
        requires
            old(self).wf(),
        ensures
            final(self).wf(),
            final(self)@ == old(self)@.insert(k, v),
            match r {
                Some(w) => old(self)@.contains_key(k) && w == old(self)@[k],
                None => !old(self)@.contains_key(k),
            },
    {
        let r = self.inner.insert(pack(k), v);
        proof {
            lemma_pos_key_injective();
            lemma_key_pos(k);
        }
        assert(self@ =~= old(self)@.insert(k, v));
        r
    }

    /// The positions held, each once, in the map's own order.
    pub fn keys(&self) -> (r: Vec<ChunkPos>)
        requires
            self.wf(),
        ensures
            r@.to_set() == self@.dom(),
            r@.no_duplicates(),
    {
        broadcast use vstd::std_specs::hash::axiom_spec_keys_iter;
        let ghost ks = vstd::std_specs::hash::spec_keys_iter(&self.inner).remaining().unref();
        let mut r: Vec<ChunkPos> = Vec::new();
        for k in it: self.inner.keys()
            invariant
                self.wf(),
                it.seq() == vstd::std_specs::hash::spec_keys_iter(&self.inner).remaining(),
                ks == it.seq().unref(),
                r@.len() == it.index(),
                forall|j: int| 0 <= j < r@.len() ==> #[trigger] r@[j] == key_pos(ks[j]),
        {
            r.push(unpack(*k));
        }
        proof {
            assert(ks.to_set() == self.inner@.dom());
            assert(r@.len() == ks.len());
            assert forall|p: ChunkPos| r@.to_set().contains(p) implies self@.dom().contains(p) by {
                let j = choose|j: int| 0 <= j < r@.len() && r@[j] == p;
                assert(ks.to_set().contains(ks[j]));
                assert(pos_key(key_pos(ks[j])) == ks[j]);
            }
            assert forall|p: ChunkPos| self@.dom().contains(p) implies r@.to_set().contains(p) by {
                assert(ks.to_set().contains(pos_key(p)));
                let j = choose|j: int| 0 <= j < ks.len() && ks[j] == pos_key(p);
                lemma_key_pos(p);
                assert(r@[j] == p);
            }
            assert(r@.to_set() =~= self@.dom());
            assert forall|a: int, b: int| 0 <= a < r@.len() && 0 <= b < r@.len() && a != b implies r@[a] != r@[b] by {
                assert(ks.to_set().contains(ks[a]));
                assert(ks.to_set().contains(ks[b]));
                assert(pos_key(key_pos(ks[a])) == ks[a]);
                assert(pos_key(key_pos(ks[b])) == ks[b]);
            }
        }
        r
    }
}

} // verus!
