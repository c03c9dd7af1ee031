//! Extensions of standard collections.
use vstd::prelude::*;
use std::collections::HashMap;
use std::hash::Hash;
use vstd::std_specs::hash::obeys_key_model;
use vstd::seq_lib::seq_to_set_distributes_over_add;
use vstd::pervasive::strictly_cloned;

verus! {

/// Extra operations on hash maps.
pub trait HashMapExt<I, T>: View<V = Map<I, T>> + Sized where I: Hash + Eq + Clone {
    /// Removes every entry whose value satisfies the predicate, keeps the
    /// others unchanged, and returns the removed values. The keys are cloned
    /// to be removed, so their clone must give an equal key.
    fn retain_filter<F>(&mut self, f: F) -> (r: Vec<T>) where F: Fn(&T) -> bool
        requires
            obeys_key_model::<I>(),
            forall|a: I, b: I| #[trigger] strictly_cloned(a, b) ==> a == b,
            forall|t: &T| #[trigger] call_requires(f, (t,)),
        ensures
            ({
                &&& final(self)@.dom().subset_of(old(self)@.dom())
                &&& forall|k: I| #[trigger] final(self)@.contains_key(k) ==> final(self)@[k] == old(self)@[k]
                    && call_ensures(f, (&old(self)@[k],), false)
                &&& forall|k: I|
                    #[trigger] old(self)@.contains_key(k) && !final(self)@.contains_key(k) ==> call_ensures(
                        f,
                        (&old(self)@[k],),
                        true,
                    )
                &&& exists|ks: Seq<I>|
                    {
                        &&& ks.no_duplicates()
                        &&& ks.to_set() == old(self)@.dom().difference(final(self)@.dom())
                        &&& r@ == values_at(old(self)@, ks)
                    }
            }),
    ;
}

/// The values stored under the keys `ks`, in order.
pub open spec fn values_at<I, T>(m: Map<I, T>, ks: Seq<I>) -> Seq<T> {
    ks.map_values(|k: I| m[k])
}

impl<I: Hash + Eq + Clone, T> HashMapExt<I, T> for HashMap<I, T> {
    /// Removes every entry whose value satisfies `f` and returns the removed
    /// values. The entries are visited in reverse iteration order, so that
    /// is the order of the result.
    fn retain_filter<F>(&mut self, f: F) -> (r: Vec<T>) where F: Fn(&T) -> bool
    {
        let ghost o = self@;
        assert(forall|a: I, b: I| #[trigger] strictly_cloned(a, b) ==> a == b);
        let mut keys: Vec<I> = Vec::new();
        for k in it: self.keys()
            invariant
                forall|a: I, b: I| #[trigger] strictly_cloned(a, b) ==> a == b,
                keys@ == it.seq().take(it.index() as int).unref(),
                it.seq().unref().to_set() == o.dom(),
                it.seq().no_duplicates(),
                keys@.no_duplicates(),
                it.index() == it.seq().len() ==> keys@.to_set() == o.dom(),
        {
            assert(it.seq().take(it.index() + 1).unref() == keys@.push(*k));
            assert(forall|j: int| 0 <= j < keys@.len() ==> keys@[j] == *it.seq()[j]);
            assert(forall|j: int| 0 <= j < keys@.len() ==> #[trigger] it.seq()[j] != it.seq()[it.index()]);
            assert(!keys@.contains(*k));
            assert(forall|a: int, b: int|
                0 <= a < keys@.len() + 1 && 0 <= b < keys@.len() + 1 && a != b ==> #[trigger] keys@.push(*k)[a]
                    != #[trigger] keys@.push(*k)[b]);
            assert(it.index() + 1 == it.seq().len() ==> it.seq().take(it.index() + 1) == it.seq());
            let key = k.clone();
            assert(strictly_cloned(*k, key));
            assert(key == *k);
            keys.push(key);
        }
        let ghost all = keys@;
        let mut filtered: Vec<T> = Vec::new();
        let ghost mut ks: Seq<I> = Seq::empty();
        let mut i: usize = keys.len();
        while i > 0
            invariant
                forall|a: I, b: I| #[trigger] strictly_cloned(a, b) ==> a == b,
                keys@ == all,
                all.to_set() == o.dom(),
                all.no_duplicates(),
                obeys_key_model::<I>(),
                forall|t: &T| #[trigger] call_requires(f, (t,)),
                i <= all.len(),
                ks.no_duplicates(),
                ks.to_set().subset_of(all.subrange(i as int, all.len() as int).to_set()),
                self@ == o.remove_keys(ks.to_set()),
                filtered@ == values_at(o, ks),
                forall|k: I|
                    #[trigger] o.contains_key(k) && all.subrange(i as int, all.len() as int).contains(k)
                        && !ks.contains(k) ==> call_ensures(f, (&o[k],), false),
                forall|k: I| #[trigger] ks.contains(k) ==> o.contains_key(k) && call_ensures(f, (&o[k],), true),
            decreases i,
        {
            i -= 1;
            let key = keys[i].clone();
            assert(strictly_cloned(keys@[i as int], key));
            assert(key == all[i as int]);
            let ghost ks_start = ks;
            let ghost rest = all.subrange(i + 1, all.len() as int);
            proof {
                assert(all.subrange(i as int, all.len() as int) == seq![key] + rest);
                assert(o.dom().contains(key)) by {
                    assert(all.to_set().contains(all[i as int]));
                }
                assert(!rest.contains(key)) by {
                    if rest.contains(key) {
                        let j = choose|j: int| 0 <= j < rest.len() && rest[j] == key;
                        assert(all[i + 1 + j] == all[i as int]);
                    }
                }
                assert(!ks.contains(key)) by {
                    if ks.contains(key) {
                        assert(ks.to_set().contains(key));
                        assert(rest.to_set().contains(key));
                    }
                }
                assert(self@.contains_key(key));
            }
            let should_filter = match self.get(&key) {
                Some(v) => {
                    let b = f(v);
                    assert(call_ensures(f, (&o[key],), b));
                    b
                },
                None => false,
            };
            assert(call_ensures(f, (&o[key],), should_filter));
            if should_filter {
                let ghost ks0 = ks;
                match self.remove(&key) {
                    Some(e) => {
                        filtered.push(e);
                        proof {
                            ks = ks.push(key);
                            ks0.lemma_push_to_set_commute(key);
                            assert(ks[ks.len() - 1] == key);
                            assert(ks.contains(key));
                            assert forall|k: I| #[trigger] ks.contains(k) implies o.contains_key(k)
                                && call_ensures(f, (&o[k],), true) by {
                                let j = choose|j: int| 0 <= j < ks.len() && ks[j] == k;
                                if j < ks0.len() {
                                    assert(ks0[j] == k);
                                    assert(ks0.contains(k));
                                }
                            }
                            assert(filtered@ =~= values_at(o, ks));
                        }
                    },
                    None => {
                        assert(false);
                    },
                }
                proof {
                    assert(self@ =~= o.remove_keys(ks.to_set()));
                    assert(ks.no_duplicates()) by {
                        assert forall|a: int, b: int|
                            0 <= a < ks.len() && 0 <= b < ks.len() && a != b implies ks[a] != ks[b] by {
                            if a < ks0.len() && b < ks0.len() {
                                assert(ks0[a] != ks0[b]);
                            } else if a < ks0.len() {
                                assert(ks0.contains(ks0[a]));
                            } else {
                                assert(ks0.contains(ks0[b]));
                            }
                        }
                    }
                }
            }
            assert(should_filter ==> ks.contains(key));
            assert forall|k: I| ks_start.contains(k) implies ks.contains(k) by {
                if should_filter {
                    let j = choose|j: int| 0 <= j < ks_start.len() && ks_start[j] == k;
                    assert(ks[j] == k);
                }
            }
            proof {
                seq_to_set_distributes_over_add(seq![key], rest);
                assert(seq![key][0] == key);
                assert(seq![key].to_set() =~= set![key]);
                assert(all.subrange(i as int, all.len() as int).to_set() =~= rest.to_set().insert(key));
                assert forall|k: I|
                    #[trigger] o.contains_key(k) && all.subrange(i as int, all.len() as int).contains(k)
                        && !ks.contains(k) implies call_ensures(f, (&o[k],), false) by {
                    assert(all.subrange(i as int, all.len() as int).to_set().contains(k));
                    if k != key {
                        assert(rest.to_set().contains(k));
                        assert(rest.contains(k));
                        assert(!ks_start.contains(k));
                    } else {
                        assert(!should_filter);
                    }
                }
            }
        }
        proof {
            assert(all.subrange(0, all.len() as int) == all);
            assert(o.dom().difference(self@.dom()) =~= ks.to_set());
        }
        filtered
    }
}

} // verus!
