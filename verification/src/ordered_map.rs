//! A map from stop identifiers to values that lists its entries in the order
//! of their keys.

use crate::data::route::id_views;
use crate::text::{
    compare_keys, key_lt, keys_ascending, lemma_key_lt_asymmetric, lemma_key_lt_transitive,
    KeyOrder,
};
use crate::utils::reverse_list;
use vstd::prelude::*;

verus! {

struct Entry<V> {
    key: String,
    value: V,
}

/// A map keyed by identifiers. Its entries are held, and handed out, in
/// ascending order of their keys.
pub struct OrderedMap<V> {
    entries: Vec<Entry<V>>,
}

impl<V> View for OrderedMap<V> {
    type V = Map<Seq<char>, V>;

    closed spec fn view(&self) -> Map<Seq<char>, V> {
        Map::new(
            |k: Seq<char>| self.keys().contains(k),
            |k: Seq<char>| self.values()[self.keys().index_of(k)],
        )
    }
}

impl<V> OrderedMap<V> {
    /// The keys, in the order in which the map lists its entries.
    pub closed spec fn keys(&self) -> Seq<Seq<char>> {
        Seq::new(self.entries@.len(), |i: int| self.entries@[i].key@)
    }

    /// The values, each at the position of its key in `keys`.
    pub closed spec fn values(&self) -> Seq<V> {
        Seq::new(self.entries@.len(), |i: int| self.entries@[i].value)
    }

    #[verifier::type_invariant]
    closed spec fn inv(&self) -> bool {
        keys_ascending(self.keys())
    }

    /// What holds of every map: the keys ascend strictly, and the view maps
    /// each key to the value listed at its position.
    pub open spec fn wf(&self) -> bool {
        &&& self.keys().len() == self.values().len()
        &&& keys_ascending(self.keys())
        &&& forall|k: Seq<char>| #[trigger] self@.contains_key(k) <==> self.keys().contains(k)
        &&& forall|i: int|
            0 <= i < self.keys().len() ==> self@[#[trigger] self.keys()[i]] == self.values()[i]
    }

    proof fn lemma_inv_gives_wf(&self)
        requires
            self.inv(),
        ensures
            self.wf(),
    {
        let keys = self.keys();
        assert forall|i: int| 0 <= i < keys.len() implies self@[#[trigger] keys[i]]
            == self.values()[i] by {
            let j = keys.index_of(keys[i]);
            assert(keys.contains(keys[i]));
            if j < i {
                lemma_key_lt_asymmetric(keys[j], keys[i]);
            } else if i < j {
                lemma_key_lt_asymmetric(keys[i], keys[j]);
            }
        }
    }

    /// The view holds the keys that the map lists, and no others.
    pub proof fn lemma_view_domain(&self)
        ensures
            forall|k: Seq<char>| #[trigger] self@.contains_key(k) <==> self.keys().contains(k),
    {
    }

    /// A map without entries.
    pub fn new() -> (m: Self)
        ensures
            m@ == Map::<Seq<char>, V>::empty(),
            m.keys() == Seq::<Seq<char>>::empty(),
            m.values() == Seq::<V>::empty(),
            m.wf(),
    {
        let m = OrderedMap { entries: Vec::new() };
        proof {
            assert(m.keys() =~= Seq::<Seq<char>>::empty());
            assert(m.values() =~= Seq::<V>::empty());
            m.lemma_inv_gives_wf();
            assert(m@ =~= Map::<Seq<char>, V>::empty());
        }
        m
    }

    /// The number of entries.
    pub fn len(&self) -> (n: usize)
        ensures
            n == self.keys().len(),
            self.wf(),
    {
        proof {
            use_type_invariant(self);
            self.lemma_inv_gives_wf();
        }
        self.entries.len()
    }

    /// The key of the entry at position `i`.
    pub fn key_at(&self, i: usize) -> (k: &String)
        requires
            i < self.keys().len(),
        ensures
            k@ == self.keys()[i as int],
    {
        &self.entries[i].key
    }

    /// The value of the entry at position `i`.
    pub fn value_at(&self, i: usize) -> (v: &V)
        requires
            i < self.keys().len(),
        ensures
            i < self.values().len(),
            *v == self.values()[i as int],
    {
        &self.entries[i].value
    }

    /// Takes the map apart: its keys and its values, in the order of the
    /// keys.
    pub fn into_lists(self) -> (r: (Vec<String>, Vec<V>))
        ensures
            id_views(r.0@) == self.keys(),
            r.1@ == self.values(),
            self.wf(),
    {
        proof {
            use_type_invariant(&self);
            self.lemma_inv_gives_wf();
        }
        let ghost keys = self.keys();
        let ghost values = self.values();
        let mut pending = reverse_list(self.entries);
        let ghost count = pending@.len();
        let mut names: Vec<String> = Vec::new();
        let mut held: Vec<V> = Vec::new();
        while pending.len() > 0
            invariant
                count == keys.len(),
                count == values.len(),
                pending@.len() + names@.len() == count,
                names@.len() == held@.len(),
                forall|k: int|
                    0 <= k < pending@.len() ==> (#[trigger] pending@[k]).key@ == keys[count - 1
                        - k] && pending@[k].value == values[count - 1 - k],
                forall|i: int| 0 <= i < names@.len() ==> (#[trigger] names@[i])@ == keys[i],
                forall|i: int| 0 <= i < held@.len() ==> #[trigger] held@[i] == values[i],
            decreases pending@.len(),
        {
            let ghost last = pending@[pending@.len() - 1];
            let entry = pending.pop().unwrap();
            assert(entry == last);
            names.push(entry.key);
            held.push(entry.value);
        }
        proof {
            assert(id_views(names@) =~= keys);
            assert(held@ =~= values);
        }
        (names, held)
    }

    /// The position at which `key` stands, or at which it would have to be
    /// put, and whether it stands there.
    fn search(&self, key: &str) -> (r: (usize, bool))
        ensures
            r.0 <= self.keys().len(),
            r.1 ==> r.0 < self.keys().len() && self.keys()[r.0 as int] == key@,
            !r.1 ==> !self.keys().contains(key@),
            forall|j: int| 0 <= j < r.0 ==> key_lt(#[trigger] self.keys()[j], key@),
            forall|j: int|
                r.0 <= j < self.keys().len() && (j > r.0 || !r.1) ==> key_lt(
                    key@,
                    #[trigger] self.keys()[j],
                ),
    {
        proof {
            use_type_invariant(self);
        }
        let ghost keys = self.keys();
        let mut lo: usize = 0;
        let mut hi: usize = self.entries.len();
        while lo < hi
            invariant
                lo <= hi <= self.entries@.len(),
                keys == self.keys(),
                keys.len() == self.entries@.len(),
                keys_ascending(keys),
                forall|j: int| 0 <= j < lo ==> key_lt(#[trigger] keys[j], key@),
                forall|j: int| hi <= j < keys.len() ==> key_lt(key@, #[trigger] keys[j]),
            decreases hi - lo,
        {
            let mid: usize = lo + (hi - lo) / 2;
            assert(keys[mid as int] == self.entries@[mid as int].key@);
            match compare_keys(self.entries[mid].key.as_str(), key) {
                KeyOrder::Less => {
                    proof {
                        assert forall|j: int| 0 <= j < mid + 1 implies key_lt(
                            #[trigger] keys[j],
                            key@,
                        ) by {
                            if j < mid {
                                lemma_key_lt_transitive(keys[j], keys[mid as int], key@);
                            }
                        }
                    }
                    lo = mid + 1;
                },
                KeyOrder::Greater => {
                    proof {
                        assert forall|j: int| mid <= j < keys.len() implies key_lt(
                            key@,
                            #[trigger] keys[j],
                        ) by {
                            if mid < j {
                                lemma_key_lt_transitive(key@, keys[mid as int], keys[j]);
                            }
                        }
                    }
                    hi = mid;
                },
                KeyOrder::Equal => {
                    proof {
                        assert forall|j: int| mid < j < keys.len() implies key_lt(
                            key@,
                            #[trigger] keys[j],
                        ) by {}
                        assert forall|j: int| 0 <= j < mid implies key_lt(
                            #[trigger] keys[j],
                            key@,
                        ) by {}
                    }
                    return (mid, true);
                },
            }
        }
        proof {
            if keys.contains(key@) {
                let j = keys.index_of(key@);
                if j < lo {
                    lemma_key_lt_asymmetric(keys[j], key@);
                } else {
                    lemma_key_lt_asymmetric(key@, keys[j]);
                }
            }
        }
        (lo, false)
    }

    /// The position of `key` among the keys, if the map holds it.
    pub fn position(&self, key: &str) -> (r: Option<usize>)
        ensures
            self.wf(),
            match r {
                Some(i) => i < self.keys().len() && self.keys()[i as int] == key@,
                None => !self@.contains_key(key@),
            },
    {
        proof {
            use_type_invariant(self);
            self.lemma_inv_gives_wf();
        }
        let (i, found) = self.search(key);
        if found {
            Some(i)
        } else {
            None
        }
    }

    /// Whether the map holds `key`.
    pub fn contains_key(&self, key: &str) -> (b: bool)
        ensures
            b == self@.contains_key(key@),
    {
        proof {
            use_type_invariant(self);
            self.lemma_inv_gives_wf();
        }
        let (_, found) = self.search(key);
        found
    }

    /// The value stored under `key`.
    pub fn get(&self, key: &str) -> (r: Option<&V>)
        ensures
            match r {
                Some(v) => self@.contains_key(key@) && *v == self@[key@],
                None => !self@.contains_key(key@),
            },
    {
        proof {
            use_type_invariant(self);
            self.lemma_inv_gives_wf();
        }
        let (i, found) = self.search(key);
        if found {
            Some(&self.entries[i].value)
        } else {
            None
        }
    }

    /// Stores `value` under `key` and hands back the value that stood there.
    pub fn insert(&mut self, key: String, value: V) -> (previous: Option<V>)
        ensures
            final(self)@ == old(self)@.insert(key@, value),
            match previous {
                Some(v) => old(self)@.contains_key(key@) && v == old(self)@[key@],
                None => !old(self)@.contains_key(key@),
            },
            final(self).wf(),
    {
        proof {
            use_type_invariant(&*self);
            self.lemma_inv_gives_wf();
        }
        let ghost before = *self;
        let (i, found) = self.search(key.as_str());
        let mut taken = OrderedMap { entries: Vec::new() };
        proof {
            assert(taken.keys() =~= Seq::<Seq<char>>::empty());
        }
        core::mem::swap(self, &mut taken);
        let mut entries = taken.entries;
        let previous = if found {
            let gone = entries.remove(i);
            Some(gone.value)
        } else {
            None
        };
        let ghost middle = entries@;
        entries.insert(i, Entry { key, value });
        proof {
            let fresh = OrderedMap { entries };
            let keys = fresh.keys();
            let middle_keys = Seq::new(middle.len(), |j: int| middle[j].key@);
            assert(keys =~= middle_keys.insert(i as int, key@));
            assert forall|a: int, b: int| 0 <= a < b < keys.len() implies key_lt(
                #[trigger] keys[a],
                #[trigger] keys[b],
            ) by {
                let a0 = if a < i { a } else if found { a } else { a - 1 };
                let b0 = if b < i { b } else if found { b } else { b - 1 };
                if a != i && b != i {
                    assert(key_lt(before.keys()[a0], before.keys()[b0]));
                } else if a == i {
                    assert(key_lt(key@, before.keys()[b0]));
                } else {
                    assert(key_lt(before.keys()[a0], key@));
                }
            }
        }
        *self = OrderedMap { entries };
        proof {
            let keys = self.keys();
            self.lemma_inv_gives_wf();
            if found {
                assert(keys =~= before.keys());
                assert(self.values() =~= before.values().update(i as int, value));
            } else {
                assert(keys =~= before.keys().insert(i as int, key@));
                assert(self.values() =~= before.values().insert(i as int, value));
            }
            let target = before@.insert(key@, value);
            assert forall|k: Seq<char>| #[trigger] self@.dom().contains(k) == target.dom().contains(
                k,
            ) by {
                if k != key@ {
                    if before.keys().contains(k) {
                        let j = before.keys().index_of(k);
                        let j1 = if found {
                            j
                        } else if j < i {
                            j
                        } else {
                            j + 1
                        };
                        assert(keys[j1] == k);
                    }
                    if keys.contains(k) {
                        let j = keys.index_of(k);
                        let j0 = if found {
                            j
                        } else if j < i {
                            j
                        } else {
                            j - 1
                        };
                        assert(before.keys()[j0] == k);
                    }
                } else {
                    assert(keys[i as int] == key@);
                }
            }
            assert forall|k: Seq<char>| #[trigger] self@.dom().contains(k) implies self@[k]
                == target[k] by {
                let j = keys.index_of(k);
                assert(keys.contains(k));
                assert(self@[keys[j]] == self.values()[j]);
                if k != key@ {
                    let j0 = if found {
                        j
                    } else if j < i {
                        j
                    } else {
                        j - 1
                    };
                    assert(before.keys()[j0] == k);
                    assert(before@[before.keys()[j0]] == before.values()[j0]);
                } else {
                    if j < i {
                        lemma_key_lt_asymmetric(keys[j], keys[i as int]);
                    } else if i < j {
                        lemma_key_lt_asymmetric(keys[i as int], keys[j]);
                    }
                }
            }
            assert(self@ =~= target);
            if found {
                assert(before@[before.keys()[i as int]] == before.values()[i as int]);
            }
        }
        previous
    }

    /// Takes the entry of `key` out of the map and hands back its value.
    pub fn remove(&mut self, key: &str) -> (gone: Option<V>)
        ensures
            final(self)@ == old(self)@.remove(key@),
            match gone {
                Some(v) => old(self)@.contains_key(key@) && v == old(self)@[key@],
                None => !old(self)@.contains_key(key@),
            },
            final(self).wf(),
    {
        proof {
            use_type_invariant(&*self);
            self.lemma_inv_gives_wf();
        }
        let ghost before = *self;
        let (i, found) = self.search(key);
        if !found {
            proof {
                assert(self@ =~= before@.remove(key@));
            }
            return None;
        }
        let mut taken = OrderedMap { entries: Vec::new() };
        proof {
            assert(taken.keys() =~= Seq::<Seq<char>>::empty());
        }
        core::mem::swap(self, &mut taken);
        let mut entries = taken.entries;
        let gone = entries.remove(i);
        proof {
            let fresh = OrderedMap { entries };
            let keys = fresh.keys();
            assert(keys =~= before.keys().remove(i as int));
            assert forall|a: int, b: int| 0 <= a < b < keys.len() implies key_lt(
                #[trigger] keys[a],
                #[trigger] keys[b],
            ) by {
                let a0 = if a < i { a } else { a + 1 };
                let b0 = if b < i { b } else { b + 1 };
                assert(key_lt(before.keys()[a0], before.keys()[b0]));
            }
        }
        *self = OrderedMap { entries };
        proof {
            let keys = self.keys();
            assert(keys =~= before.keys().remove(i as int));
            assert(self.values() =~= before.values().remove(i as int));
            self.lemma_inv_gives_wf();
            let target = before@.remove(key@);
            assert forall|k: Seq<char>| #[trigger] self@.dom().contains(k) == target.dom().contains(
                k,
            ) by {
                if before.keys().contains(k) && k != key@ {
                    let j = before.keys().index_of(k);
                    let j1 = if j < i { j } else { j - 1 };
                    assert(keys[j1] == k);
                }
                if keys.contains(k) {
                    let j = keys.index_of(k);
                    let j0 = if j < i { j } else { j + 1 };
                    assert(before.keys()[j0] == k);
                    if j0 < i {
                        lemma_key_lt_asymmetric(before.keys()[j0], before.keys()[i as int]);
                    } else {
                        lemma_key_lt_asymmetric(before.keys()[i as int], before.keys()[j0]);
                    }
                }
            }
            assert forall|k: Seq<char>| #[trigger] self@.dom().contains(k) implies self@[k]
                == target[k] by {
                let j = keys.index_of(k);
                assert(keys.contains(k));
                assert(self@[keys[j]] == self.values()[j]);
                let j0 = if j < i { j } else { j + 1 };
                assert(before.keys()[j0] == k);
                assert(before@[before.keys()[j0]] == before.values()[j0]);
            }
            assert(self@ =~= target);
            assert(before@[before.keys()[i as int]] == before.values()[i as int]);
        }
        Some(gone.value)
    }
}

} // verus!
