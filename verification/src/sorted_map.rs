//! A map from strings to values, held as a vector in the order of the keys.

use vstd::prelude::*;

use crate::text::{compare, Order};
#[allow(unused_imports)]
use crate::text::{lemma_str_lt_asymmetric, lemma_str_lt_transitive, str_lt};

verus! {

/// One key with its value.
pub struct Entry<V> {
    pub key: String,
    pub value: V,
}

/// A map from strings to values that hands its entries out in the order of the keys.
pub struct SortedMap<V: View> {
    entries: Vec<Entry<V>>,
}

/// Every key comes before the keys behind it, so no key occurs twice.
pub open spec fn keys_increase<T>(pairs: Seq<(Seq<char>, T)>) -> bool {
    forall|i: int, j: int|
        0 <= i < j < pairs.len() ==> str_lt(#[trigger] pairs[i].0, #[trigger] pairs[j].0)
}

/// `key` is the key of one of the pairs.
pub open spec fn has_key<T>(pairs: Seq<(Seq<char>, T)>, key: Seq<char>) -> bool {
    exists|i: int| 0 <= i < pairs.len() && (#[trigger] pairs[i]).0 == key
}

/// The position of the pair with the given key.
pub open spec fn key_position<T>(pairs: Seq<(Seq<char>, T)>, key: Seq<char>) -> int {
    choose|i: int| 0 <= i < pairs.len() && (#[trigger] pairs[i]).0 == key
}

/// The map that a sequence of pairs stands for.
pub open spec fn pairs_map<T>(pairs: Seq<(Seq<char>, T)>) -> Map<Seq<char>, T> {
    Map::new(
        |key: Seq<char>| has_key(pairs, key),
        |key: Seq<char>| pairs[key_position(pairs, key)].1,
    )
}

/// A sequence of pairs stands for a map with finitely many keys.
pub proof fn lemma_pairs_map_is_finite<T>(pairs: Seq<(Seq<char>, T)>)
    ensures
        pairs_map(pairs).dom().finite(),
{
    let keys = pairs.map_values(|pair: (Seq<char>, T)| pair.0);
    assert forall|key: Seq<char>| has_key(pairs, key) == keys.contains(key) by {
        if has_key(pairs, key) {
            let i = key_position(pairs, key);
            assert(keys[i] == key);
        }
        if keys.contains(key) {
            let i = keys.index_of(key);
            assert(pairs[i].0 == key);
        }
    }
    assert(pairs_map(pairs).dom() =~= keys.to_set());
    vstd::seq_lib::seq_to_set_is_finite(keys);
}

/// In a sequence of pairs with increasing keys each pair is found under its own key.
pub proof fn lemma_pair_at<T>(pairs: Seq<(Seq<char>, T)>, i: int)
    requires
        keys_increase(pairs),
        0 <= i < pairs.len(),
    ensures
        pairs_map(pairs).contains_key(pairs[i].0),
        pairs_map(pairs)[pairs[i].0] == pairs[i].1,
{
    let key = pairs[i].0;
    assert(has_key(pairs, key));
    let p = key_position(pairs, key);
    assert(0 <= p < pairs.len() && pairs[p].0 == key);
    if p < i {
        lemma_str_lt_asymmetric(pairs[p].0, pairs[i].0);
    } else if i < p {
        lemma_str_lt_asymmetric(pairs[i].0, pairs[p].0);
    }
}

/// Two sequences of pairs with increasing keys that stand for the same map are equal.
pub proof fn lemma_pairs_unique<T>(a: Seq<(Seq<char>, T)>, b: Seq<(Seq<char>, T)>)
    requires
        keys_increase(a),
        keys_increase(b),
        pairs_map(a) == pairs_map(b),
    ensures
        a == b,
    decreases a.len(),
{
    if a.len() == 0 {
        if b.len() > 0 {
            lemma_pair_at(b, 0);
        }
        assert(a =~= b);
    } else {
        lemma_pair_at(a, a.len() - 1);
        let last = a.last().0;
        assert(has_key(b, last));
        assert(b.len() > 0);
        lemma_pair_at(b, b.len() - 1);
        assert(has_key(a, b.last().0));
        let p = key_position(b, last);
        let q = key_position(a, b.last().0);
        if p < b.len() - 1 {
            assert(str_lt(b[p].0, b.last().0));
            if q < a.len() - 1 {
                assert(str_lt(a[q].0, a.last().0));
                lemma_str_lt_asymmetric(last, b.last().0);
            } else {
                lemma_str_lt_asymmetric(last, b.last().0);
            }
        }
        assert(last == b.last().0);
        assert(a.last().1 == b.last().1);
        let a0 = a.drop_last();
        let b0 = b.drop_last();
        assert(pairs_map(a0) =~= pairs_map(b0)) by {
            assert forall|key: Seq<char>| has_key(a0, key) == has_key(b0, key) by {
                assert(pairs_map(a).contains_key(key) == has_key(a, key));
                assert(pairs_map(b).contains_key(key) == has_key(b, key));
                lemma_drop_last_has_key(a, key);
                lemma_drop_last_has_key(b, key);
            }
            assert forall|key: Seq<char>| has_key(a0, key) implies pairs_map(a0)[key] == pairs_map(
                b0,
            )[key] by {
                lemma_drop_last_has_key(a, key);
                lemma_drop_last_has_key(b, key);
                let i = key_position(a0, key);
                let j = key_position(b0, key);
                assert(a0[i] == a[i] && b0[j] == b[j]);
                lemma_pair_at(a, i);
                lemma_pair_at(b, j);
                lemma_pair_at(a0, i);
                lemma_pair_at(b0, j);
            }
        }
        lemma_pairs_unique(a0, b0);
        assert(a =~= a0.push(a.last()));
        assert(b =~= b0.push(b.last()));
    }
}

/// The pairs of a map in the order of their keys.
pub open spec fn sorted_pairs<T>(map: Map<Seq<char>, T>) -> Seq<(Seq<char>, T)> {
    choose|pairs: Seq<(Seq<char>, T)>| keys_increase(pairs) && #[trigger] pairs_map(pairs) == map
}

/// Pairs with increasing keys are the sorted pairs of the map that they stand for.
pub proof fn lemma_sorted_pairs<T>(pairs: Seq<(Seq<char>, T)>)
    requires
        keys_increase(pairs),
    ensures
        sorted_pairs(pairs_map(pairs)) == pairs,
{
    lemma_pairs_unique(sorted_pairs(pairs_map(pairs)), pairs);
}

proof fn lemma_drop_last_has_key<T>(a: Seq<(Seq<char>, T)>, key: Seq<char>)
    requires
        keys_increase(a),
        a.len() > 0,
    ensures
        has_key(a.drop_last(), key) <==> has_key(a, key) && key != a.last().0,
{
    let a0 = a.drop_last();
    if has_key(a0, key) {
        let i = key_position(a0, key);
        assert(a[i] == a0[i]);
        lemma_str_lt_asymmetric(a[i].0, a.last().0);
    }
    if has_key(a, key) && key != a.last().0 {
        let i = key_position(a, key);
        assert(a0[i] == a[i]);
    }
}

/// Putting a pair between the smaller and the larger keys adds its key to the map.
proof fn lemma_insert_pair<T>(pairs: Seq<(Seq<char>, T)>, index: int, key: Seq<char>, value: T)
    requires
        keys_increase(pairs),
        0 <= index <= pairs.len(),
        forall|i: int| 0 <= i < index ==> str_lt((#[trigger] pairs[i]).0, key),
        forall|i: int| index <= i < pairs.len() ==> str_lt(key, (#[trigger] pairs[i]).0),
    ensures
        keys_increase(pairs.insert(index, (key, value))),
        pairs_map(pairs.insert(index, (key, value))) == pairs_map(pairs).insert(key, value),
{
    let grown = pairs.insert(index, (key, value));
    assert forall|i: int, j: int| 0 <= i < j < grown.len() implies str_lt(
        #[trigger] grown[i].0,
        #[trigger] grown[j].0,
    ) by {
        if i < index && index < j {
            lemma_str_lt_transitive(pairs[i].0, key, pairs[j - 1].0);
        }
    }
    assert(pairs_map(grown) =~= pairs_map(pairs).insert(key, value)) by {
        lemma_pair_at(grown, index);
        assert forall|k: Seq<char>| has_key(grown, k) == (k == key || has_key(pairs, k)) by {
            if has_key(pairs, k) {
                let i = key_position(pairs, k);
                let at = if i < index { i } else { i + 1 };
                assert(grown[at] == pairs[i]);
            }
            if has_key(grown, k) && k != key {
                let i = key_position(grown, k);
                let at = if i < index { i } else { i - 1 };
                assert(pairs[at] == grown[i]);
            }
        }
        assert forall|k: Seq<char>| has_key(pairs, k) && k != key implies pairs_map(grown)[k]
            == pairs_map(pairs)[k] by {
            let i = key_position(pairs, k);
            let at = if i < index { i } else { i + 1 };
            assert(grown[at] == pairs[i]);
            lemma_pair_at(grown, at);
            lemma_pair_at(pairs, i);
        }
    }
}

/// One more pair of a sequence with increasing keys adds its key to the map.
pub proof fn lemma_take_pairs<T>(pairs: Seq<(Seq<char>, T)>, i: int)
    requires
        keys_increase(pairs),
        0 <= i < pairs.len(),
    ensures
        keys_increase(pairs.take(i)),
        !pairs_map(pairs.take(i)).contains_key(pairs[i].0),
        pairs_map(pairs.take(i + 1)) == pairs_map(pairs.take(i)).insert(pairs[i].0, pairs[i].1),
{
    let before = pairs.take(i);
    assert forall|k: int| 0 <= k < before.len() implies str_lt(
        (#[trigger] before[k]).0,
        pairs[i].0,
    ) by {
        assert(str_lt(pairs[k].0, pairs[i].0));
    }
    lemma_insert_pair(before, i, pairs[i].0, pairs[i].1);
    assert(before.insert(i, pairs[i]) =~= pairs.take(i + 1));
    if has_key(before, pairs[i].0) {
        let k = key_position(before, pairs[i].0);
        lemma_str_lt_asymmetric(before[k].0, pairs[i].0);
    }
}

/// Taking a pair out removes its key from the map.
proof fn lemma_remove_pair<T>(pairs: Seq<(Seq<char>, T)>, index: int)
    requires
        keys_increase(pairs),
        0 <= index < pairs.len(),
    ensures
        keys_increase(pairs.remove(index)),
        pairs_map(pairs.remove(index)) == pairs_map(pairs).remove(pairs[index].0),
{
    let shrunk = pairs.remove(index);
    let key = pairs[index].0;
    assert(pairs_map(shrunk) =~= pairs_map(pairs).remove(key)) by {
        assert forall|k: Seq<char>| has_key(shrunk, k) == (k != key && has_key(pairs, k)) by {
            if has_key(pairs, k) && k != key {
                let i = key_position(pairs, k);
                let at = if i < index { i } else { i - 1 };
                assert(shrunk[at] == pairs[i]);
            }
            if has_key(shrunk, k) {
                let i = key_position(shrunk, k);
                let at = if i < index { i } else { i + 1 };
                assert(pairs[at] == shrunk[i]);
                if at < index {
                    lemma_str_lt_asymmetric(pairs[at].0, key);
                } else {
                    lemma_str_lt_asymmetric(key, pairs[at].0);
                }
            }
        }
        assert forall|k: Seq<char>| has_key(shrunk, k) implies pairs_map(shrunk)[k] == pairs_map(
            pairs,
        )[k] by {
            let i = key_position(shrunk, k);
            let at = if i < index { i } else { i + 1 };
            assert(pairs[at] == shrunk[i]);
            lemma_pair_at(shrunk, i);
            lemma_pair_at(pairs, at);
        }
    }
}

/// The keys and the views of the values, in order.
pub open spec fn entry_pairs<V: View>(entries: Seq<Entry<V>>) -> Seq<(Seq<char>, V::V)> {
    entries.map_values(|entry: Entry<V>| (entry.key@, entry.value@))
}

impl<V: View> View for SortedMap<V> {
    type V = Map<Seq<char>, V::V>;

    open spec fn view(&self) -> Map<Seq<char>, V::V> {
        pairs_map(self.pairs())
    }
}

impl<V: View> SortedMap<V> {
    /// The pairs in the order of their keys.
    pub closed spec fn pairs(&self) -> Seq<(Seq<char>, V::V)> {
        entry_pairs(self.entries@)
    }

    #[verifier::type_invariant]
    spec fn well_formed(self) -> bool {
        keys_increase(entry_pairs(self.entries@))
    }

    /// The map without entries.
    pub fn new() -> (map: Self)
        ensures
            map.pairs() == Seq::<(Seq<char>, V::V)>::empty(),
            map@ == Map::<Seq<char>, V::V>::empty(),
    {
        let map = SortedMap { entries: Vec::new() };
        assert(map.pairs() =~= Seq::<(Seq<char>, V::V)>::empty());
        assert(map@ =~= Map::<Seq<char>, V::V>::empty());
        map
    }

    /// The number of entries, whose keys increase from one position to the next.
    pub fn len(&self) -> (len: usize)
        ensures
            len == self.pairs().len(),
            keys_increase(self.pairs()),
            self.pairs() == sorted_pairs(self@),
    {
        proof {
            use_type_invariant(self);
            lemma_sorted_pairs(self.pairs());
        }
        self.entries.len()
    }

    /// The key at a position.
    pub fn key_at(&self, index: usize) -> (key: &String)
        requires
            index < self.pairs().len(),
        ensures
            key@ == self.pairs()[index as int].0,
            self@.contains_key(key@),
            self@[key@] == self.pairs()[index as int].1,
    {
        proof {
            use_type_invariant(self);
            lemma_pair_at(self.pairs(), index as int);
        }
        &self.entries[index].key
    }

    /// The value at a position.
    pub fn value_at(&self, index: usize) -> (value: &V)
        requires
            index < self.pairs().len(),
        ensures
            value@ == self.pairs()[index as int].1,
    {
        &self.entries[index].value
    }

    /// The position of a key, or the position where it would stand.
    fn search(&self, key: &str) -> (result: (bool, usize))
        ensures
            result.1 <= self.entries@.len(),
            result.0 ==> result.1 < self.entries@.len() && self.entries@[result.1 as int].key@
                == key@,
            !result.0 ==> !self@.contains_key(key@),
            forall|i: int|
                0 <= i < result.1 ==> str_lt((#[trigger] self.entries@[i]).key@, key@),
            !result.0 ==> forall|i: int|
                result.1 <= i < self.entries@.len() ==> str_lt(
                    key@,
                    (#[trigger] self.entries@[i]).key@,
                ),
    {
        proof {
            use_type_invariant(self);
        }
        let mut low: usize = 0;
        let mut high: usize = self.entries.len();
        while low < high
            invariant
                low <= high <= self.entries@.len(),
                keys_increase(entry_pairs(self.entries@)),
                forall|i: int| 0 <= i < low ==> str_lt((#[trigger] self.entries@[i]).key@, key@),
                forall|i: int|
                    high <= i < self.entries@.len() ==> str_lt(
                        key@,
                        (#[trigger] self.entries@[i]).key@,
                    ),
            decreases high - low,
        {
            let middle: usize = low + (high - low) / 2;
            let ghost pairs = entry_pairs(self.entries@);
            match compare(self.entries[middle].key.as_str(), key) {
                Order::Equal => {
                    assert forall|i: int| 0 <= i < middle implies str_lt(
                        (#[trigger] self.entries@[i]).key@,
                        key@,
                    ) by {
                        assert(str_lt(pairs[i].0, pairs[middle as int].0));
                    }
                    return (true, middle);
                },
                Order::Less => {
                    assert forall|i: int| 0 <= i <= middle implies str_lt(
                        (#[trigger] self.entries@[i]).key@,
                        key@,
                    ) by {
                        if i < middle {
                            assert(str_lt(pairs[i].0, pairs[middle as int].0));
                            lemma_str_lt_transitive(pairs[i].0, pairs[middle as int].0, key@);
                        }
                    }
                    low = middle + 1;
                },
                Order::Greater => {
                    assert forall|i: int| middle <= i < self.entries@.len() implies str_lt(
                        key@,
                        (#[trigger] self.entries@[i]).key@,
                    ) by {
                        if middle < i {
                            assert(str_lt(pairs[middle as int].0, pairs[i].0));
                            lemma_str_lt_transitive(key@, pairs[middle as int].0, pairs[i].0);
                        }
                    }
                    high = middle;
                },
            }
        }
        proof {
            let pairs = self.pairs();
            assert forall|i: int| 0 <= i < pairs.len() implies (#[trigger] pairs[i]).0 != key@ by {
                assert(pairs[i].0 == self.entries@[i].key@);
                if i < low {
                    lemma_str_lt_asymmetric(pairs[i].0, key@);
                } else {
                    lemma_str_lt_asymmetric(key@, pairs[i].0);
                }
            }
        }
        (false, low)
    }

    /// Whether the map has an entry for a key.
    pub fn contains_key(&self, key: &str) -> (found: bool)
        ensures
            found == self@.contains_key(key@),
    {
        let (found, index) = self.search(key);
        proof {
            use_type_invariant(self);
            if found {
                lemma_pair_at(self.pairs(), index as int);
            }
        }
        found
    }

    /// The value of a key, if the map has an entry for it.
    pub fn get(&self, key: &str) -> (value: Option<&V>)
        ensures
            match value {
                Some(value) => self@.contains_key(key@) && value@ == self@[key@],
                None => !self@.contains_key(key@),
            },
    {
        let (found, index) = self.search(key);
        proof {
            use_type_invariant(self);
            if found {
                lemma_pair_at(self.pairs(), index as int);
            }
        }
        if found {
            Some(&self.entries[index].value)
        } else {
            None
        }
    }

    /// Removes the entry of a key and hands its value out.
    pub fn remove(&mut self, key: &str) -> (value: Option<V>)
        ensures
            final(self)@ == old(self)@.remove(key@),
            match value {
                Some(value) => old(self)@.contains_key(key@) && value@ == old(self)@[key@],
                None => !old(self)@.contains_key(key@) && final(self)@ == old(self)@,
            },
    {
        let (found, index) = self.search(key);
        proof {
            use_type_invariant(&*self);
        }
        if !found {
            assert(self@ =~= self@.remove(key@));
            return None;
        }
        let ghost before = self.pairs();
        let mut entries: Vec<Entry<V>> = Vec::new();
        proof {
            lemma_pair_at(before, index as int);
            lemma_remove_pair(before, index as int);
        }
        assert(entry_pairs(entries@) =~= Seq::<(Seq<char>, V::V)>::empty());
        std::mem::swap(&mut entries, &mut self.entries);
        let entry = entries.remove(index);
        assert(entry_pairs(entries@) =~= before.remove(index as int));
        self.entries = entries;
        Some(entry.value)
    }

    /// Gives a key a value and hands the value that it had before out.
    pub fn insert(&mut self, key: String, value: V) -> (previous: Option<V>)
        ensures
            final(self)@ == old(self)@.insert(key@, value@),
            match previous {
                Some(previous) => old(self)@.contains_key(key@) && previous@ == old(self)@[key@],
                None => !old(self)@.contains_key(key@),
            },
    {
        let previous = self.remove(key.as_str());
        let (found, index) = self.search(key.as_str());
        proof {
            use_type_invariant(&*self);
            assert(old(self)@.remove(key@).insert(key@, value@) =~= old(self)@.insert(
                key@,
                value@,
            ));
        }
        let ghost before = self.pairs();
        proof {
            if found {
                lemma_pair_at(before, index as int);
            }
            assert forall|i: int| 0 <= i < index implies str_lt((#[trigger] before[i]).0, key@) by {
                assert(before[i].0 == self.entries@[i].key@);
            }
            assert forall|i: int| index <= i < before.len() implies str_lt(
                key@,
                (#[trigger] before[i]).0,
            ) by {
                assert(before[i].0 == self.entries@[i].key@);
            }
            lemma_insert_pair(before, index as int, key@, value@);
        }
        let ghost pair = (key@, value@);
        let mut entries: Vec<Entry<V>> = Vec::new();
        assert(entry_pairs(entries@) =~= Seq::<(Seq<char>, V::V)>::empty());
        std::mem::swap(&mut entries, &mut self.entries);
        entries.insert(index, Entry { key, value });
        assert(entry_pairs(entries@) =~= before.insert(index as int, pair));
        self.entries = entries;
        previous
    }

    /// Adds an entry behind all others.
    pub fn push(&mut self, key: String, value: V)
        requires
            forall|i: int| 0 <= i < old(self).pairs().len() ==> str_lt(
                (#[trigger] old(self).pairs()[i]).0,
                key@,
            ),
        ensures
            final(self).pairs() == old(self).pairs().push((key@, value@)),
            final(self)@ == old(self)@.insert(key@, value@),
    {
        proof {
            use_type_invariant(&*self);
        }
        let ghost before = self.pairs();
        let ghost pair = (key@, value@);
        proof {
            lemma_insert_pair(before, before.len() as int, key@, value@);
            assert(before.insert(before.len() as int, pair) =~= before.push(pair));
        }
        let mut entries: Vec<Entry<V>> = Vec::new();
        assert(entry_pairs(entries@) =~= Seq::<(Seq<char>, V::V)>::empty());
        std::mem::swap(&mut entries, &mut self.entries);
        entries.push(Entry { key, value });
        assert(entry_pairs(entries@) =~= before.push(pair));
        self.entries = entries;
    }
}

} // verus!
