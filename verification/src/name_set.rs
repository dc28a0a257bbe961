//! A set of names that hands its names out in order.

use vstd::prelude::*;

use crate::sorted_map::SortedMap;
#[allow(unused_imports)]
use crate::sorted_map::{has_key, key_position};
#[allow(unused_imports)]
use crate::text::{lemma_str_lt_asymmetric, lemma_str_lt_total, lemma_str_lt_transitive, str_lt};

verus! {

/// A set of names.
pub struct NameSet {
    entries: SortedMap<bool>,
}

/// Every name comes before the names behind it, so no name occurs twice.
pub open spec fn names_increase(names: Seq<Seq<char>>) -> bool {
    forall|i: int, j: int|
        0 <= i < j < names.len() ==> str_lt(#[trigger] names[i], #[trigger] names[j])
}

/// The names of a sequence of strings.
pub open spec fn name_views(names: Seq<String>) -> Seq<Seq<char>> {
    names.map_values(|name: String| name@)
}

/// Two sequences of increasing names that hold the same names are equal.
pub proof fn lemma_names_unique(a: Seq<Seq<char>>, b: Seq<Seq<char>>)
    requires
        names_increase(a),
        names_increase(b),
        a.to_set() == b.to_set(),
    ensures
        a == b,
    decreases a.len(),
{
    if a.len() == 0 {
        if b.len() > 0 {
            assert(b.to_set().contains(b[0]));
        }
        assert(a =~= b);
    } else {
        assert(a.to_set().contains(a.last()));
        assert(b.contains(a.last()));
        assert(b.to_set().contains(b.last()));
        assert(a.contains(b.last()));
        let p = b.index_of(a.last());
        let q = a.index_of(b.last());
        if p < b.len() - 1 {
            assert(str_lt(b[p], b.last()));
            if q < a.len() - 1 {
                assert(str_lt(a[q], a.last()));
            }
            lemma_str_lt_asymmetric(a.last(), b.last());
        }
        let a0 = a.drop_last();
        let b0 = b.drop_last();
        assert(a0.to_set() =~= b0.to_set()) by {
            assert forall|name: Seq<char>| a0.contains(name) == b0.contains(name) by {
                lemma_drop_last_contains(a, name);
                lemma_drop_last_contains(b, name);
                assert(a.to_set().contains(name) == a.contains(name));
                assert(b.to_set().contains(name) == b.contains(name));
            }
        }
        lemma_names_unique(a0, b0);
        assert(a =~= a0.push(a.last()));
        assert(b =~= b0.push(b.last()));
    }
}

/// The names of a set in order.
pub open spec fn sorted_names(set: Set<Seq<char>>) -> Seq<Seq<char>> {
    choose|names: Seq<Seq<char>>| names_increase(names) && #[trigger] names.to_set() == set
}

/// Increasing names are the sorted names of the set that they make up.
pub proof fn lemma_sorted_names(names: Seq<Seq<char>>)
    requires
        names_increase(names),
    ensures
        sorted_names(names.to_set()) == names,
{
    lemma_names_unique(sorted_names(names.to_set()), names);
}

proof fn lemma_drop_last_contains(a: Seq<Seq<char>>, name: Seq<char>)
    requires
        names_increase(a),
        a.len() > 0,
    ensures
        a.drop_last().contains(name) <==> a.contains(name) && name != a.last(),
{
    let a0 = a.drop_last();
    if a0.contains(name) {
        let i = a0.index_of(name);
        assert(a[i] == a0[i]);
        lemma_str_lt_asymmetric(a[i], a.last());
    }
    if a.contains(name) && name != a.last() {
        let i = a.index_of(name);
        assert(a0[i] == a[i]);
    }
}

/// Increasing names with one more name put in its place.
spec fn with_name(names: Seq<Seq<char>>, name: Seq<char>) -> Seq<Seq<char>>
    decreases names.len(),
{
    if names.len() == 0 || str_lt(names.last(), name) {
        names.push(name)
    } else {
        with_name(names.drop_last(), name).push(names.last())
    }
}

proof fn lemma_with_name(names: Seq<Seq<char>>, name: Seq<char>)
    requires
        names_increase(names),
        !names.contains(name),
    ensures
        names_increase(with_name(names, name)),
        forall|other: Seq<char>|
            #[trigger] with_name(names, name).contains(other) <==> names.contains(other) || other
                == name,
    decreases names.len(),
{
    let all = with_name(names, name);
    if names.len() == 0 || str_lt(names.last(), name) {
        assert forall|i: int, j: int| 0 <= i < j < all.len() implies str_lt(
            #[trigger] all[i],
            #[trigger] all[j],
        ) by {
            if j == names.len() && i < names.len() - 1 {
                lemma_str_lt_transitive(names[i], names.last(), name);
            }
        }
        assert forall|other: Seq<char>|
            #[trigger] all.contains(other) == (names.contains(other) || other == name) by {
            assert(all[names.len() as int] == name);
            if names.contains(other) {
                assert(all[names.index_of(other)] == other);
            }
            if all.contains(other) && other != name {
                assert(names[all.index_of(other)] == other);
            }
        }
    } else {
        let before = names.drop_last();
        let start = with_name(before, name);
        let last = names.last();
        assert(names[names.len() - 1] == last);
        assert forall|other: Seq<char>| before.contains(other) implies names.contains(other) by {
            assert(names[before.index_of(other)] == other);
        }
        lemma_with_name(before, name);
        lemma_str_lt_total(last, name);
        assert forall|i: int, j: int| 0 <= i < j < all.len() implies str_lt(
            #[trigger] all[i],
            #[trigger] all[j],
        ) by {
            if j == start.len() {
                assert(start.contains(start[i]));
                if start[i] != name {
                    let k = before.index_of(start[i]);
                    assert(names[k] == start[i]);
                    assert(str_lt(names[k], names[names.len() - 1]));
                }
            } else {
                assert(str_lt(start[i], start[j]));
            }
        }
        assert forall|other: Seq<char>|
            #[trigger] all.contains(other) == (names.contains(other) || other == name) by {
            assert(all[start.len() as int] == last);
            if start.contains(other) {
                assert(all[start.index_of(other)] == other);
            }
            if all.contains(other) && other != last {
                assert(start[all.index_of(other)] == other);
            }
            if names.contains(other) && other != last {
                assert(before[names.index_of(other)] == other);
            }
        }
    }
}

/// The sorted names of a finite set increase and are the names of the set.
pub proof fn lemma_sorted_names_are_all(set: Set<Seq<char>>)
    requires
        set.finite(),
    ensures
        names_increase(sorted_names(set)),
        sorted_names(set).to_set() == set,
    decreases set.len(),
{
    if set.len() == 0 {
        let names = Seq::<Seq<char>>::empty();
        assert(names.to_set() =~= set);
        lemma_sorted_names(names);
    } else {
        let name = set.choose();
        let rest = set.remove(name);
        lemma_sorted_names_are_all(rest);
        let before = sorted_names(rest);
        assert(before.to_set().contains(name) == before.contains(name));
        lemma_with_name(before, name);
        let names = with_name(before, name);
        assert forall|other: Seq<char>| names.to_set().contains(other) == set.contains(other) by {
            assert(before.to_set().contains(other) == before.contains(other));
        }
        assert(names.to_set() =~= set);
        lemma_sorted_names(names);
    }
}

impl View for NameSet {
    type V = Set<Seq<char>>;

    closed spec fn view(&self) -> Set<Seq<char>> {
        self.entries@.dom()
    }
}

impl NameSet {
    /// The names in order.
    pub closed spec fn names(&self) -> Seq<Seq<char>> {
        self.entries.pairs().map_values(|pair: (Seq<char>, bool)| pair.0)
    }

    /// The set without names.
    pub fn new() -> (set: Self)
        ensures
            set@ == Set::<Seq<char>>::empty(),
            set.names() == Seq::<Seq<char>>::empty(),
    {
        let set = NameSet { entries: SortedMap::new() };
        assert(set@ =~= Set::<Seq<char>>::empty());
        assert(set.names() =~= Seq::<Seq<char>>::empty());
        set
    }

    /// The number of names, which increase from one position to the next.
    pub fn len(&self) -> (len: usize)
        ensures
            len == self.names().len(),
            names_increase(self.names()),
            self.names().to_set() == self@,
            self.names() == sorted_names(self@),
    {
        let len = self.entries.len();
        proof {
            let pairs = self.entries.pairs();
            let names = self.names();
            assert forall|i: int, j: int| 0 <= i < j < names.len() implies str_lt(
                #[trigger] names[i],
                #[trigger] names[j],
            ) by {
                assert(str_lt(pairs[i].0, pairs[j].0));
            }
            assert forall|name: Seq<char>| names.contains(name) == self@.contains(name) by {
                if names.contains(name) {
                    let i = names.index_of(name);
                    assert(pairs[i].0 == name);
                    assert(has_key(pairs, name));
                }
                if has_key(pairs, name) {
                    let i = key_position(pairs, name);
                    assert(names[i] == name);
                }
            }
            assert(names.to_set() =~= self@);
            lemma_sorted_names(names);
        }
        len
    }

    /// The name at a position.
    pub fn name_at(&self, index: usize) -> (name: &String)
        requires
            index < self.names().len(),
        ensures
            name@ == self.names()[index as int],
            self@.contains(name@),
    {
        self.entries.key_at(index)
    }

    /// Whether the set holds a name.
    pub fn contains(&self, name: &str) -> (found: bool)
        ensures
            found == self@.contains(name@),
    {
        self.entries.contains_key(name)
    }

    /// Adds a name.
    pub fn insert(&mut self, name: String)
        ensures
            final(self)@ == old(self)@.insert(name@),
    {
        let ghost before = self@;
        let ghost added = name@;
        self.entries.insert(name, true);
        assert(self@ =~= before.insert(added));
    }

    /// Adds the names of another set.
    pub fn extend(&mut self, other: &NameSet)
        ensures
            final(self)@ == old(self)@.union(other@),
    {
        let count: usize = other.len();
        let mut i: usize = 0;
        let ghost before = self@;
        let ghost names = other.names();
        assert(before.union(names.take(0).to_set()) =~= before);
        while i < count
            invariant
                i <= count == names.len(),
                names == other.names(),
                self@ == before.union(names.take(i as int).to_set()),
            decreases count - i,
        {
            let name = other.name_at(i).clone();
            self.insert(name);
            proof {
                let grown = names.take(i + 1);
                assert(grown =~= names.take(i as int).push(names[i as int]));
                assert(grown.to_set() =~= names.take(i as int).to_set().insert(names[i as int])) by {
                    broadcast use vstd::seq_lib::group_seq_properties;

                }
                assert(self@ =~= before.union(grown.to_set()));
            }
            i = i + 1;
        }
        assert(names.take(count as int) =~= names);
    }

    /// The names in order, as a list.
    pub fn to_list(&self) -> (list: Vec<String>)
        ensures
            name_views(list@) == sorted_names(self@),
    {
        let count: usize = self.len();
        let mut list: Vec<String> = Vec::new();
        let mut i: usize = 0;
        assert(name_views(list@) =~= self.names().take(0));
        while i < count
            invariant
                i <= count == self.names().len(),
                name_views(list@) == self.names().take(i as int),
            decreases count - i,
        {
            let ghost before = list@;
            list.push(self.name_at(i).clone());
            assert(name_views(list@) =~= name_views(before).push(self.names()[i as int]));
            assert(self.names().take(i + 1) =~= self.names().take(i as int).push(
                self.names()[i as int],
            ));
            i = i + 1;
        }
        assert(self.names().take(count as int) =~= self.names());
        list
    }
}

} // verus!
