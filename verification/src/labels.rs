//! The labels of series and blocks, and their JSON form.

use vstd::prelude::*;

use crate::sorted_map::SortedMap;
#[allow(unused_imports)]
use crate::sorted_map::{has_key, key_position, keys_increase, lemma_pair_at, pairs_map};
use crate::text::{compare, Order};
#[allow(unused_imports)]
use crate::text::{lemma_str_lt_asymmetric, lemma_str_lt_total, lemma_str_lt_transitive, str_lt};

verus! {

/// Label names with their values.
pub type Labels = SortedMap<String>;

/// The name of the label that holds a metric's name.
pub open spec fn metric_label() -> Seq<char> {
    "__name__"@
}

/// The value of a label; a label that is not there has the empty value.
pub open spec fn label_value(labels: Map<Seq<char>, Seq<char>>, name: Seq<char>) -> Seq<char> {
    if labels.contains_key(name) {
        labels[name]
    } else {
        Seq::empty()
    }
}

/// The value of a label; a label that is not there has the empty value.
pub(crate) fn value_or_empty<'a>(labels: &'a Labels, name: &str) -> (value: &'a str)
    ensures
        value@ == label_value(labels@, name@),
{
    match labels.get(name) {
        Some(value) => value.as_str(),
        None => {
            proof {
                reveal_strlit("");
                assert(""@ =~= Seq::<char>::empty());
            }
            ""
        },
    }
}

/// A copy of labels.
pub(crate) fn copy_labels(labels: &Labels) -> (result: Labels)
    ensures
        result.pairs() == labels.pairs(),
        result@ == labels@,
{
    let count: usize = labels.len();
    let mut result: Labels = SortedMap::new();
    let mut i: usize = 0;
    assert(labels.pairs().take(0) =~= result.pairs());
    while i < count
        invariant
            i <= count == labels.pairs().len(),
            keys_increase(labels.pairs()),
            result.pairs() == labels.pairs().take(i as int),
        decreases count - i,
    {
        let ghost pairs = labels.pairs();
        assert forall|k: int| 0 <= k < result.pairs().len() implies str_lt(
            (#[trigger] result.pairs()[k]).0,
            pairs[i as int].0,
        ) by {
            assert(str_lt(pairs[k].0, pairs[i as int].0));
        }
        result.push(labels.key_at(i).clone(), labels.value_at(i).clone());
        assert(pairs.take(i + 1) =~= pairs.take(i as int).push(pairs[i as int]));
        i = i + 1;
    }
    assert(labels.pairs().take(count as int) =~= labels.pairs());
    result
}

/// A map with the entries of pairs put into it, one after the other.
pub open spec fn with_pairs(
    labels: Map<Seq<char>, Seq<char>>,
    pairs: Seq<(Seq<char>, Seq<char>)>,
) -> Map<Seq<char>, Seq<char>>
    decreases pairs.len(),
{
    if pairs.len() == 0 {
        labels
    } else {
        with_pairs(labels, pairs.drop_last()).insert(pairs.last().0, pairs.last().1)
    }
}

proof fn lemma_with_pairs(
    labels: Map<Seq<char>, Seq<char>>,
    pairs: Seq<(Seq<char>, Seq<char>)>,
)
    requires
        keys_increase(pairs),
    ensures
        with_pairs(labels, pairs) == labels.union_prefer_right(pairs_map(pairs)),
    decreases pairs.len(),
{
    let target = labels.union_prefer_right(pairs_map(pairs));
    if pairs.len() == 0 {
        assert(target =~= labels);
    } else {
        let shorter = pairs.drop_last();
        let last = pairs.last();
        lemma_with_pairs(labels, shorter);
        lemma_pair_at(pairs, pairs.len() - 1);
        assert forall|key: Seq<char>| key != last.0 implies (has_key(pairs, key) == has_key(
            shorter,
            key,
        ) && (has_key(pairs, key) ==> pairs_map(pairs)[key] == pairs_map(shorter)[key])) by {
            if has_key(pairs, key) {
                let i = key_position(pairs, key);
                assert(shorter[i] == pairs[i]);
                lemma_pair_at(shorter, i);
                lemma_pair_at(pairs, i);
            }
            if has_key(shorter, key) {
                let i = key_position(shorter, key);
                assert(shorter[i] == pairs[i]);
            }
        }
        assert(with_pairs(labels, pairs) =~= target);
    }
}

/// The labels with those of a second set put over them: where both have a label, it takes the
/// value of the second set.
pub(crate) fn overlaid(labels: &Labels, over: &Labels) -> (result: Labels)
    ensures
        result@ == labels@.union_prefer_right(over@),
{
    let mut result = copy_labels(labels);
    let count: usize = over.len();
    let mut i: usize = 0;
    let ghost pairs = over.pairs();
    assert(pairs.take(0) =~= Seq::<(Seq<char>, Seq<char>)>::empty());
    while i < count
        invariant
            i <= count == pairs.len(),
            pairs == over.pairs(),
            result@ == with_pairs(labels@, pairs.take(i as int)),
        decreases count - i,
    {
        result.insert(over.key_at(i).clone(), over.value_at(i).clone());
        assert(pairs.take(i + 1).drop_last() =~= pairs.take(i as int));
        i = i + 1;
    }
    proof {
        assert(pairs.take(count as int) =~= pairs);
        lemma_with_pairs(labels@, pairs);
    }
    result
}

/// Whether one of the names is the given one.
pub open spec fn names_contain(names: Seq<String>, name: Seq<char>) -> bool {
    exists|i: int| 0 <= i < names.len() && (#[trigger] names[i])@ == name
}

/// Whether a list of names holds a name.
pub(crate) fn list_contains(names: &Vec<String>, name: &str) -> (found: bool)
    ensures
        found == names_contain(names@, name@),
{
    let mut i: usize = 0;
    while i < names.len()
        invariant
            i <= names.len(),
            forall|k: int| 0 <= k < i ==> (#[trigger] names@[k])@ != name@,
        decreases names.len() - i,
    {
        if crate::text::same(names[i].as_str(), name) {
            return true;
        }
        i = i + 1;
    }
    false
}

/// The labels without those of the given names.
pub open spec fn labels_without(
    labels: Map<Seq<char>, Seq<char>>,
    names: Seq<String>,
) -> Map<Seq<char>, Seq<char>> {
    labels.restrict(Set::new(|name: Seq<char>| !names_contain(names, name)))
}

/// Takes the labels of the given names away.
pub(crate) fn without_names(labels: &Labels, names: &Vec<String>) -> (result: Labels)
    ensures
        result@ == labels_without(labels@, names@),
{
    let mut result = copy_labels(labels);
    let mut i: usize = 0;
    assert(result@ =~= labels_without(labels@, names@.take(0)));
    while i < names.len()
        invariant
            i <= names.len(),
            result@ == labels_without(labels@, names@.take(i as int)),
        decreases names.len() - i,
    {
        let ghost before = result@;
        result.remove(names[i].as_str());
        proof {
            let shorter = names@.take(i as int);
            let longer = names@.take(i + 1);
            assert(longer =~= shorter.push(names@[i as int]));
            assert forall|name: Seq<char>| names_contain(longer, name) == (names_contain(
                shorter,
                name,
            ) || name == names@[i as int]@) by {
                if names_contain(longer, name) && name != names@[i as int]@ {
                    let k = choose|k: int| 0 <= k < longer.len() && (#[trigger] longer[k])@ == name;
                    assert(shorter[k] == longer[k]);
                }
                if names_contain(shorter, name) {
                    let k = choose|k: int|
                        0 <= k < shorter.len() && (#[trigger] shorter[k])@ == name;
                    assert(longer[k] == shorter[k]);
                }
                assert(longer[i as int]@ == names@[i as int]@);
            }
            assert(before.remove(names@[i as int]@) =~= labels_without(labels@, longer));
        }
        i = i + 1;
    }
    assert(names@.take(names@.len() as int) =~= names@);
    result
}

/// The keys and values of a list of pairs of strings.
pub open spec fn pair_views(pairs: Seq<(String, String)>) -> Seq<(Seq<char>, Seq<char>)> {
    pairs.map_values(|pair: (String, String)| (pair.0@, pair.1@))
}

/// The text that `serde_json::to_string` writes for a map from strings to strings.
pub uninterp spec fn json_object(pairs: Seq<(Seq<char>, Seq<char>)>) -> Seq<char>;

/// The entries of the map from strings to strings that `serde_json::from_str` reads from a text,
/// in the order of the keys, or nothing where it gives an error.
pub uninterp spec fn json_entries(text: Seq<char>) -> Option<Seq<(Seq<char>, Seq<char>)>>;

/// Calls `serde_json::to_string` on a `BTreeMap` of strings. It does not fail on a map whose keys
/// are strings, the text depends on the entries alone, and reading it gives the entries back.
#[verifier::external_body]
fn write_json(pairs: Vec<(String, String)>) -> (text: String)
    requires
        keys_increase(pair_views(pairs@)),
    ensures
        text@ == json_object(pair_views(pairs@)),
        json_entries(text@) == Some(pair_views(pairs@)),
{
    let map: std::collections::BTreeMap<String, String> = pairs.into_iter().collect();
    serde_json::to_string(&map).expect("a map of strings has a JSON form")
}

/// Calls `serde_json::from_str` for a `BTreeMap` of strings. The outcome depends on the text alone,
/// and the map hands its entries out in the order of the keys.
#[verifier::external_body]
fn read_json(text: &str) -> (pairs: Option<Vec<(String, String)>>)
    ensures
        match pairs {
            Some(pairs) => json_entries(text@) == Some(pair_views(pairs@)) && keys_increase(
                pair_views(pairs@),
            ),
            None => json_entries(text@) == None::<Seq<(Seq<char>, Seq<char>)>>,
        },
{
    match serde_json::from_str::<std::collections::BTreeMap<String, String>>(text) {
        Ok(map) => Some(map.into_iter().collect()),
        Err(_) => None,
    }
}

/// The entries of the map from strings to strings that `serde_json` reads at a pointer in a JSON
/// document, in the order of the keys, or nothing where there is no document, nothing at the pointer
/// or no such map.
pub uninterp spec fn json_map_at(bytes: Seq<u8>, pointer: Seq<char>) -> Option<
    Seq<(Seq<char>, Seq<char>)>,
>;

/// Calls `serde_json::from_slice` for a `Value`, `Value::pointer` on it, and `serde_json::from_value`
/// for a `BTreeMap` of strings on what it finds. The outcome depends on the bytes and the pointer
/// alone, and the map hands its entries out in the order of the keys.
#[verifier::external_body]
fn read_json_at(bytes: &[u8], pointer: &str) -> (pairs: Option<Vec<(String, String)>>)
    ensures
        match pairs {
            Some(pairs) => json_map_at(bytes@, pointer@) == Some(pair_views(pairs@))
                && keys_increase(pair_views(pairs@)),
            None => json_map_at(bytes@, pointer@) == None::<Seq<(Seq<char>, Seq<char>)>>,
        },
{
    let document: serde_json::Value = serde_json::from_slice(bytes).ok()?;
    let found = document.pointer(pointer)?.clone();
    let map: std::collections::BTreeMap<String, String> = serde_json::from_value(found).ok()?;
    Some(map.into_iter().collect())
}

/// The pairs that were found, or none.
pub open spec fn pairs_or_none(pairs: Option<Seq<(Seq<char>, Seq<char>)>>) -> Seq<
    (Seq<char>, Seq<char>),
> {
    match pairs {
        Some(pairs) => pairs,
        None => Seq::empty(),
    }
}

/// Gives the labels that were found, or no labels where none were.
pub fn labels_or_none(pairs: Option<Vec<(String, String)>>) -> (labels: Labels)
    requires
        pairs matches Some(pairs) ==> keys_increase(pair_views(pairs@)),
    ensures
        labels.pairs() == match pairs {
            Some(pairs) => pair_views(pairs@),
            None => Seq::empty(),
        },
{
    match pairs {
        Some(pairs) => labels_from_pairs(pairs),
        None => SortedMap::new(),
    }
}

/// Reads the external labels that the metadata of a block states. Metadata that cannot be read, or
/// that states no map of labels, has none.
pub fn external_labels(meta: &[u8]) -> (labels: Labels)
    ensures
        labels.pairs() == pairs_or_none(json_map_at(meta@, "/thanos/labels"@)),
{
    labels_or_none(read_json_at(meta, "/thanos/labels"))
}

/// The JSON form of labels. Reading it gives the labels back.
pub fn labels_to_json(labels: &Labels) -> (text: String)
    ensures
        text@ == json_object(labels.pairs()),
        json_entries(text@) == Some(labels.pairs()),
{
    let count: usize = labels.len();
    let mut pairs: Vec<(String, String)> = Vec::new();
    let mut i: usize = 0;
    assert(pair_views(pairs@) =~= labels.pairs().take(0));
    while i < count
        invariant
            i <= count == labels.pairs().len(),
            pair_views(pairs@) == labels.pairs().take(i as int),
        decreases count - i,
    {
        let ghost before = pairs@;
        pairs.push((labels.key_at(i).clone(), labels.value_at(i).clone()));
        assert(pair_views(pairs@) =~= pair_views(before).push(labels.pairs()[i as int]));
        assert(labels.pairs().take(i + 1) =~= labels.pairs().take(i as int).push(
            labels.pairs()[i as int],
        ));
        i = i + 1;
    }
    assert(labels.pairs().take(count as int) =~= labels.pairs());
    write_json(pairs)
}

/// The labels with the given entries.
fn labels_from_pairs(pairs: Vec<(String, String)>) -> (labels: Labels)
    requires
        keys_increase(pair_views(pairs@)),
    ensures
        labels.pairs() == pair_views(pairs@),
{
    let mut labels: Labels = SortedMap::new();
    let mut i: usize = 0;
    let ghost views = pair_views(pairs@);
    assert(views.take(0) =~= labels.pairs());
    while i < pairs.len()
        invariant
            i <= pairs.len(),
            views == pair_views(pairs@),
            keys_increase(views),
            labels.pairs() == views.take(i as int),
        decreases pairs.len() - i,
    {
        assert(views[i as int] == (pairs@[i as int].0@, pairs@[i as int].1@));
        assert forall|k: int| 0 <= k < labels.pairs().len() implies str_lt(
            (#[trigger] labels.pairs()[k]).0,
            views[i as int].0,
        ) by {
            assert(str_lt(views[k].0, views[i as int].0));
        }
        labels.push(pairs[i].0.clone(), pairs[i].1.clone());
        assert(views.take(i + 1) =~= views.take(i as int).push(views[i as int]));
        i = i + 1;
    }
    assert(views.take(pairs@.len() as int) =~= views);
    labels
}

/// Reads labels from their JSON form.
pub fn labels_from_json(text: &str) -> (labels: Option<Labels>)
    ensures
        match labels {
            Some(labels) => json_entries(text@) == Some(labels.pairs()),
            None => json_entries(text@) == None::<Seq<(Seq<char>, Seq<char>)>>,
        },
{
    match read_json(text) {
        Some(pairs) => Some(labels_from_pairs(pairs)),
        None => None,
    }
}

/// A name with its value comes before another one.
pub open spec fn pair_lt(a: (Seq<char>, Seq<char>), b: (Seq<char>, Seq<char>)) -> bool {
    str_lt(a.0, b.0) || a.0 == b.0 && str_lt(a.1, b.1)
}

/// `i` is the first position that tells `a` from `b`, and there `a` is the smaller one.
pub open spec fn pairs_lt_at(
    a: Seq<(Seq<char>, Seq<char>)>,
    b: Seq<(Seq<char>, Seq<char>)>,
    i: int,
) -> bool {
    &&& 0 <= i <= a.len()
    &&& i < b.len()
    &&& forall|j: int| 0 <= j < i ==> a[j] == b[j]
    &&& i < a.len() ==> pair_lt(a[i], b[i])
}

/// Labels come before others in the lexicographic order of their names and values.
pub open spec fn pairs_lt(
    a: Seq<(Seq<char>, Seq<char>)>,
    b: Seq<(Seq<char>, Seq<char>)>,
) -> bool {
    exists|i: int| #[trigger] pairs_lt_at(a, b, i)
}

/// No labels come before themselves, and of two at most one comes before the other.
pub proof fn lemma_pairs_lt_asymmetric(
    a: Seq<(Seq<char>, Seq<char>)>,
    b: Seq<(Seq<char>, Seq<char>)>,
)
    ensures
        pairs_lt(a, b) ==> !pairs_lt(b, a) && a != b,
{
    if pairs_lt(a, b) {
        let i = choose|i: int| pairs_lt_at(a, b, i);
        if i < a.len() {
            lemma_str_lt_asymmetric(a[i].0, b[i].0);
            lemma_str_lt_asymmetric(a[i].1, b[i].1);
        }
        if pairs_lt(b, a) {
            let j = choose|j: int| pairs_lt_at(b, a, j);
            if i < j {
                assert(b[i] == a[i]);
            } else if j < i {
                assert(a[j] == b[j]);
                lemma_str_lt_asymmetric(b[j].0, a[j].0);
                lemma_str_lt_asymmetric(b[j].1, a[j].1);
            }
        }
    }
}

/// The order of labels is transitive.
pub proof fn lemma_pairs_lt_transitive(
    a: Seq<(Seq<char>, Seq<char>)>,
    b: Seq<(Seq<char>, Seq<char>)>,
    c: Seq<(Seq<char>, Seq<char>)>,
)
    requires
        pairs_lt(a, b),
        pairs_lt(b, c),
    ensures
        pairs_lt(a, c),
{
    let i = choose|i: int| pairs_lt_at(a, b, i);
    let j = choose|j: int| pairs_lt_at(b, c, j);
    let k = if i < j {
        i
    } else {
        j
    };
    if i == j && i < a.len() {
        if str_lt(a[i].0, b[i].0) && str_lt(b[i].0, c[i].0) {
            lemma_str_lt_transitive(a[i].0, b[i].0, c[i].0);
        } else if a[i].0 == b[i].0 && b[i].0 == c[i].0 {
            lemma_str_lt_transitive(a[i].1, b[i].1, c[i].1);
        }
    }
    assert(pairs_lt_at(a, c, k));
}

proof fn lemma_pairs_total_from(
    a: Seq<(Seq<char>, Seq<char>)>,
    b: Seq<(Seq<char>, Seq<char>)>,
    i: int,
)
    requires
        0 <= i <= a.len(),
        i <= b.len(),
        forall|j: int| 0 <= j < i ==> a[j] == b[j],
    ensures
        pairs_lt(a, b) || pairs_lt(b, a) || a == b,
    decreases a.len() - i,
{
    if i == a.len() && i == b.len() {
        assert(a =~= b);
    } else if i == a.len() {
        assert(pairs_lt_at(a, b, i));
    } else if i == b.len() {
        assert(pairs_lt_at(b, a, i));
    } else {
        lemma_str_lt_total(a[i].0, b[i].0);
        lemma_str_lt_total(a[i].1, b[i].1);
        if pair_lt(a[i], b[i]) {
            assert(pairs_lt_at(a, b, i));
        } else if pair_lt(b[i], a[i]) {
            assert(pairs_lt_at(b, a, i));
        } else {
            lemma_pairs_total_from(a, b, i + 1);
        }
    }
}

/// Of two different labels one comes before the other.
pub proof fn lemma_pairs_lt_total(
    a: Seq<(Seq<char>, Seq<char>)>,
    b: Seq<(Seq<char>, Seq<char>)>,
)
    ensures
        pairs_lt(a, b) || pairs_lt(b, a) || a == b,
{
    lemma_pairs_total_from(a, b, 0);
}

/// Compares labels in the lexicographic order of their names and values.
pub(crate) fn compare_labels(a: &Labels, b: &Labels) -> (order: Order)
    ensures
        match order {
            Order::Less => pairs_lt(a.pairs(), b.pairs()),
            Order::Equal => a.pairs() == b.pairs(),
            Order::Greater => pairs_lt(b.pairs(), a.pairs()),
        },
{
    let first: usize = a.len();
    let second: usize = b.len();
    let ghost x = a.pairs();
    let ghost y = b.pairs();
    let mut i: usize = 0;
    while i < first && i < second
        invariant
            i <= first == x.len(),
            i <= second == y.len(),
            x == a.pairs(),
            y == b.pairs(),
            forall|j: int| 0 <= j < i ==> x[j] == y[j],
        decreases first - i,
    {
        match compare(a.key_at(i).as_str(), b.key_at(i).as_str()) {
            Order::Less => {
                assert(pairs_lt_at(x, y, i as int));
                return Order::Less;
            },
            Order::Greater => {
                assert(pairs_lt_at(y, x, i as int));
                return Order::Greater;
            },
            Order::Equal => {},
        }
        match compare(a.value_at(i).as_str(), b.value_at(i).as_str()) {
            Order::Less => {
                assert(pairs_lt_at(x, y, i as int));
                return Order::Less;
            },
            Order::Greater => {
                assert(pairs_lt_at(y, x, i as int));
                return Order::Greater;
            },
            Order::Equal => {},
        }
        i = i + 1;
    }
    if i < second {
        assert(pairs_lt_at(x, y, i as int));
        Order::Less
    } else if i < first {
        assert(pairs_lt_at(y, x, i as int));
        Order::Greater
    } else {
        assert(x =~= y);
        Order::Equal
    }
}

/// Of pairs with the same name the last one counts, and pairs come before what was there.
pub proof fn law_the_last_pair_counts(
    labels: Map<Seq<char>, Seq<char>>,
    pairs: Seq<(Seq<char>, Seq<char>)>,
    name: Seq<char>,
)
    ensures
        (forall|i: int| 0 <= i < pairs.len() ==> (#[trigger] pairs[i]).0 != name) ==> with_pairs(
            labels,
            pairs,
        ).contains_key(name) == labels.contains_key(name) && (labels.contains_key(name)
            ==> with_pairs(labels, pairs)[name] == labels[name]),
        forall|last: int|
            0 <= last < pairs.len() && (#[trigger] pairs[last]).0 == name && (forall|i: int|
                last < i < pairs.len() ==> (#[trigger] pairs[i]).0 != name) ==> with_pairs(
                labels,
                pairs,
            ).contains_key(name) && with_pairs(labels, pairs)[name] == pairs[last].1,
    decreases pairs.len(),
{
    if pairs.len() > 0 {
        let rest = pairs.drop_last();
        law_the_last_pair_counts(labels, rest, name);
        if pairs.last().0 != name {
            assert forall|last: int| 0 <= last < pairs.len() && (#[trigger] pairs[last]).0 == name
                && (forall|i: int|
                last < i < pairs.len() ==> (#[trigger] pairs[i]).0 != name) implies with_pairs(
                labels,
                pairs,
            ).contains_key(name) && with_pairs(labels, pairs)[name] == pairs[last].1 by {
                assert(rest[last] == pairs[last]);
                assert forall|i: int| last < i < rest.len() implies (#[trigger] rest[i]).0
                    != name by {
                    assert(rest[i] == pairs[i]);
                }
            }
            if forall|i: int| 0 <= i < pairs.len() ==> (#[trigger] pairs[i]).0 != name {
                assert forall|i: int| 0 <= i < rest.len() implies (#[trigger] rest[i]).0
                    != name by {
                    assert(rest[i] == pairs[i]);
                }
            }
        } else {
            assert(pairs[pairs.len() - 1].0 == name);
        }
    }
}

/// Labels without those of some names are the labels of all other names, with their values.
pub proof fn law_labels_of_other_names_stay(
    labels: Map<Seq<char>, Seq<char>>,
    names: Seq<String>,
    name: Seq<char>,
)
    ensures
        labels_without(labels, names).contains_key(name) <==> labels.contains_key(name) && (forall|
            i: int,
        |
            0 <= i < names.len() ==> (#[trigger] names[i])@ != name),
        labels_without(labels, names).contains_key(name) ==> labels_without(labels, names)[name]
            == labels[name],
{
}

/// Labels are ordered by the first one in which they differ: by its name, and for the same name by its
/// value. Labels that end earlier come first.
pub proof fn law_labels_are_ordered_by_the_first_difference(
    common: Seq<(Seq<char>, Seq<char>)>,
    a: Seq<(Seq<char>, Seq<char>)>,
    b: Seq<(Seq<char>, Seq<char>)>,
)
    ensures
        a.len() > 0 && b.len() > 0 && str_lt(a[0].0, b[0].0) ==> pairs_lt(common + a, common + b),
        a.len() > 0 && b.len() > 0 && a[0].0 == b[0].0 && str_lt(a[0].1, b[0].1) ==> pairs_lt(
            common + a,
            common + b,
        ),
        b.len() > 0 ==> pairs_lt(common, common + b),
{
    let at = common.len() as int;
    if a.len() > 0 && b.len() > 0 {
        assert((common + a)[at] == a[0] && (common + b)[at] == b[0]);
        if pair_lt(a[0], b[0]) {
            assert(pairs_lt_at(common + a, common + b, at));
        }
    }
    if b.len() > 0 {
        assert(pairs_lt_at(common, common + b, at));
    }
}

} // verus!
