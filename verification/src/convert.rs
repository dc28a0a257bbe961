//! A block as one flat table of samples, sorted by name, labels and time.

use vstd::prelude::*;
use vstd::utf8::encode_utf8;

use crate::bits::ChunkError;
use crate::block_index::MetricLabels;
#[allow(unused_imports)]
use crate::block_index::names_of;
use crate::chunk_reader::{
    decode_chunk, decode_encoded_chunk, EncodedChunk, Sample, ENCODING_FLOAT_HISTOGRAM,
    ENCODING_HISTOGRAM,
};
#[allow(unused_imports)]
use crate::chunk_reader::{
    chunk_samples, encoded_chunk, sample_models, EncodedChunkModel, SampleModel,
};
#[allow(unused_imports)]
use crate::digest::{be_bytes, sha256};
use crate::digest::{push_all, push_be_bytes, sha256_digest};
use crate::hll::Hll;
#[allow(unused_imports)]
use crate::hll::{
    be_value, counted, law_written_numbers_are_read_from_bytes, no_values, pow256,
};
#[allow(unused_imports)]
use crate::labels::metric_label;
use crate::labels::{overlaid, Labels};
#[allow(unused_imports)]
use crate::metric_table::is_counter;
use crate::metric_table::is_counter_metric;
use crate::name_set::NameSet;
#[allow(unused_imports)]
use crate::name_set::name_views;
use crate::sort::{stable_sort, Ranked};
#[allow(unused_imports)]
use crate::sort::{
    is_stable_sort, law_sort_keeps_values, law_sorted_values_are_in_order, sorted_by_places,
    stands_before,
};
use crate::sorted_map::SortedMap;
#[allow(unused_imports)]
use crate::sorted_map::{keys_increase, lemma_pair_at, pairs_map};
use crate::table::{push_optional, push_required, Column, ColumnKind};
#[allow(unused_imports)]
use crate::table::{column_models, optional, required, ColumnModel};
use crate::text::{compare, joined, rsplit_once, same, Order};
#[allow(unused_imports)]
use crate::text::{law_texts_are_split_at_the_last_separator, 
    lemma_str_lt_asymmetric, lemma_str_lt_total, lemma_str_lt_transitive,
    split_at_last, str_lt,
};

verus! {

/// Why a block cannot be converted.
#[derive(Clone, Copy, Debug, PartialEq, Eq, Structural)]
pub enum ConvertError {
    NoObjectName,
    MissingName,
    InvalidChunk(ChunkError),
}

impl ConvertError {
    /// What the error says.
    pub open spec fn text(&self) -> Seq<char> {
        match self {
            ConvertError::NoObjectName => "output URI must include an object name"@,
            ConvertError::MissingName => "series missing __name__"@,
            ConvertError::InvalidChunk(error) => error.text(),
        }
    }

    /// The text of the error.
    pub fn message(&self) -> (message: String)
        ensures
            message@ == self.text(),
    {
        match self {
            ConvertError::NoObjectName => "output URI must include an object name".to_owned(),
            ConvertError::MissingName => "series missing __name__".to_owned(),
            ConvertError::InvalidChunk(error) => error.message(),
        }
    }
}

/// Splits the location of an object into its root and its name.
pub fn endpoint(uri: &str) -> (result: Result<(String, String), ConvertError>)
    ensures
        match result {
            Ok((root, name)) => {
                &&& split_at_last(uri@, '/') == Some((root@, name@))
                &&& uri@ == root@.push('/') + name@
                &&& !name@.contains('/')
            },
            Err(error) => {
                &&& error == ConvertError::NoObjectName
                &&& split_at_last(uri@, '/') is None
                &&& !uri@.contains('/')
            },
        },
{
    proof {
        law_texts_are_split_at_the_last_separator(uri@, '/');
    }
    match rsplit_once(uri, '/') {
        Some((root, name)) => Ok((root.to_owned(), name.to_owned())),
        None => Err(ConvertError::NoObjectName),
    }
}

/// The column of a label.
pub fn label_column(name: &str) -> (column: String)
    ensures
        column@ == "label."@ + name@,
{
    joined("label.", name)
}

/// The labels of a series with the external labels of its block added. A label of the series keeps
/// its value.
pub fn with_external_labels(labels: &Labels, external: &Labels) -> (result: Labels)
    ensures
        result@ == external@.union_prefer_right(labels@),
        forall|name: Seq<char>| #[trigger]
            result@.contains_key(name) <==> labels@.contains_key(name) || external@.contains_key(
                name,
            ),
        forall|name: Seq<char>| #[trigger]
            labels@.contains_key(name) ==> result@[name] == labels@[name],
        forall|name: Seq<char>| #[trigger]
            external@.contains_key(name) && !labels@.contains_key(name) ==> result@[name]
                == external@[name],
{
    overlaid(external, labels)
}

/// The registers known of a label.
pub open spec fn registers_of(hlls: Map<Seq<char>, Seq<u8>>, label: Seq<char>) -> Seq<u8> {
    if hlls.contains_key(label) {
        hlls[label]
    } else {
        no_values()
    }
}

/// The values of each label with those of a series added.
pub open spec fn with_values(
    values: Map<Seq<char>, Set<Seq<char>>>,
    pairs: Seq<(Seq<char>, Seq<char>)>,
) -> Map<Seq<char>, Set<Seq<char>>>
    decreases pairs.len(),
{
    if pairs.len() == 0 {
        values
    } else {
        let before = with_values(values, pairs.drop_last());
        let (name, value) = pairs.last();
        if name == metric_label() {
            before
        } else {
            before.insert(name, names_of(before, name).insert(value))
        }
    }
}

/// The registers of each label with the values of a series counted.
pub open spec fn with_counts(
    hlls: Map<Seq<char>, Seq<u8>>,
    pairs: Seq<(Seq<char>, Seq<char>)>,
) -> Map<Seq<char>, Seq<u8>>
    decreases pairs.len(),
{
    if pairs.len() == 0 {
        hlls
    } else {
        let before = with_counts(hlls, pairs.drop_last());
        let (name, value) = pairs.last();
        if name == metric_label() {
            before
        } else {
            before.insert(name, counted(registers_of(before, name), value))
        }
    }
}

/// After the labels of a series were added, a value is known of a label if it was known before, or if
/// the series has it. The label that holds the metric's name is left out.
pub proof fn law_values_of_series_are_known(
    values: Map<Seq<char>, Set<Seq<char>>>,
    pairs: Seq<(Seq<char>, Seq<char>)>,
    name: Seq<char>,
    value: Seq<char>,
)
    ensures
        names_of(with_values(values, pairs), name).contains(value) <==> names_of(
            values,
            name,
        ).contains(value) || name != "__name__"@ && pairs.contains((name, value)),
        with_values(values, pairs).contains_key(name) <==> values.contains_key(name) || name
            != "__name__"@ && exists|i: int|
            0 <= i < pairs.len() && (#[trigger] pairs[i]).0 == name,
    decreases pairs.len(),
{
    if pairs.len() > 0 {
        let rest = pairs.drop_last();
        law_values_of_series_are_known(values, rest, name, value);
        assert(pairs =~= rest.push(pairs.last()));
        if rest.contains((name, value)) {
            assert(pairs[rest.index_of((name, value))] == (name, value));
        }
        if pairs.contains((name, value)) && !rest.contains((name, value)) {
            let i = pairs.index_of((name, value));
            if i < rest.len() {
                assert(rest[i] == (name, value));
            }
        }
        assert(pairs[pairs.len() - 1] == pairs.last());
        if exists|i: int| 0 <= i < rest.len() && (#[trigger] rest[i]).0 == name {
            let i = choose|i: int| 0 <= i < rest.len() && (#[trigger] rest[i]).0 == name;
            assert(pairs[i] == rest[i]);
        }
        if exists|i: int| 0 <= i < pairs.len() && (#[trigger] pairs[i]).0 == name {
            let i = choose|i: int| 0 <= i < pairs.len() && (#[trigger] pairs[i]).0 == name;
            if i < rest.len() {
                assert(rest[i] == pairs[i]);
            }
        }
    }
}

/// A label that a series does not have keeps its registers, and the value of one that it has is
/// counted into them. The label that holds the metric's name is left out.
pub proof fn law_values_of_series_are_counted(
    hlls: Map<Seq<char>, Seq<u8>>,
    pairs: Seq<(Seq<char>, Seq<char>)>,
    name: Seq<char>,
    i: int,
)
    requires
        keys_increase(pairs),
        0 <= i < pairs.len(),
    ensures
        pairs[i].0 != "__name__"@ ==> with_counts(hlls, pairs).contains_key(pairs[i].0)
            && with_counts(hlls, pairs)[pairs[i].0] == counted(
            registers_of(hlls, pairs[i].0),
            pairs[i].1,
        ),
        (name == "__name__"@ || forall|k: int|
            0 <= k < pairs.len() ==> (#[trigger] pairs[k]).0 != name) ==> registers_of(
            with_counts(hlls, pairs),
            name,
        ) == registers_of(hlls, name) && with_counts(hlls, pairs).contains_key(name)
            == hlls.contains_key(name),
{
    lemma_other_counts(hlls, pairs, name);
    lemma_own_count(hlls, pairs, i);
}

proof fn lemma_other_counts(
    hlls: Map<Seq<char>, Seq<u8>>,
    pairs: Seq<(Seq<char>, Seq<char>)>,
    name: Seq<char>,
)
    ensures
        (name == "__name__"@ || forall|k: int|
            0 <= k < pairs.len() ==> (#[trigger] pairs[k]).0 != name) ==> registers_of(
            with_counts(hlls, pairs),
            name,
        ) == registers_of(hlls, name) && with_counts(hlls, pairs).contains_key(name)
            == hlls.contains_key(name),
    decreases pairs.len(),
{
    if pairs.len() > 0 {
        let rest = pairs.drop_last();
        lemma_other_counts(hlls, rest, name);
        if forall|k: int| 0 <= k < pairs.len() ==> (#[trigger] pairs[k]).0 != name {
            assert forall|k: int| 0 <= k < rest.len() implies (#[trigger] rest[k]).0 != name by {
                assert(rest[k] == pairs[k]);
            }
            assert(pairs[pairs.len() - 1].0 != name);
        }
    }
}

proof fn lemma_own_count(
    hlls: Map<Seq<char>, Seq<u8>>,
    pairs: Seq<(Seq<char>, Seq<char>)>,
    i: int,
)
    requires
        keys_increase(pairs),
        0 <= i < pairs.len(),
    ensures
        pairs[i].0 != "__name__"@ ==> with_counts(hlls, pairs).contains_key(pairs[i].0)
            && with_counts(hlls, pairs)[pairs[i].0] == counted(
            registers_of(hlls, pairs[i].0),
            pairs[i].1,
        ),
    decreases pairs.len(),
{
    let rest = pairs.drop_last();
    let last = pairs.len() - 1;
    assert(keys_increase(rest)) by {
        assert forall|a: int, b: int| 0 <= a < b < rest.len() implies str_lt(
            #[trigger] rest[a].0,
            #[trigger] rest[b].0,
        ) by {
            assert(rest[a] == pairs[a] && rest[b] == pairs[b]);
        }
    }
    if i < last {
        lemma_own_count(hlls, rest, i);
        assert(rest[i] == pairs[i]);
        assert(str_lt(pairs[i].0, pairs[last].0));
        lemma_str_lt_asymmetric(pairs[i].0, pairs[last].0);
    } else {
        assert forall|k: int| 0 <= k < rest.len() implies (#[trigger] rest[k]).0 != pairs[i].0 by {
            assert(rest[k] == pairs[k]);
            assert(str_lt(pairs[k].0, pairs[last].0));
            lemma_str_lt_asymmetric(pairs[k].0, pairs[last].0);
        }
        lemma_other_counts(hlls, rest, pairs[i].0);
    }
}

/// The values of the labels of a block, and the registers that count them.
pub struct LabelStats {
    pub values: MetricLabels,
    pub hlls: SortedMap<Hll>,
}

impl LabelStats {
    /// The statistics before the first series.
    pub fn new() -> (stats: Self)
        ensures
            stats.values@ == Map::<Seq<char>, Set<Seq<char>>>::empty(),
            stats.hlls@ == Map::<Seq<char>, Seq<u8>>::empty(),
    {
        LabelStats { values: SortedMap::new(), hlls: SortedMap::new() }
    }

    fn add_value(&mut self, name: &String, value: &String)
        ensures
            final(self).values@ == old(self).values@.insert(
                name@,
                names_of(old(self).values@, name@).insert(value@),
            ),
            final(self).hlls@ == old(self).hlls@.insert(
                name@,
                counted(registers_of(old(self).hlls@, name@), value@),
            ),
    {
        let ghost values = self.values@;
        let ghost hlls = self.hlls@;
        let mut names = match self.values.remove(name.as_str()) {
            Some(names) => names,
            None => NameSet::new(),
        };
        names.insert(value.clone());
        let ghost set = names@;
        self.values.insert(name.clone(), names);
        assert(values.remove(name@).insert(name@, set) =~= values.insert(name@, set));
        let mut hll = match self.hlls.remove(name.as_str()) {
            Some(hll) => hll,
            None => Hll::new(),
        };
        hll.add(value.as_str());
        let ghost registers = hll@;
        self.hlls.insert(name.clone(), hll);
        assert(hlls.remove(name@).insert(name@, registers) =~= hlls.insert(name@, registers));
    }

    /// Adds the labels of a series.
    pub fn add_series(&mut self, labels: &Labels)
        ensures
            final(self).values@ == with_values(old(self).values@, labels.pairs()),
            final(self).hlls@ == with_counts(old(self).hlls@, labels.pairs()),
    {
        let count: usize = labels.len();
        let ghost pairs = labels.pairs();
        let ghost values = self.values@;
        let ghost hlls = self.hlls@;
        let mut i: usize = 0;
        while i < count
            invariant
                i <= count == pairs.len(),
                pairs == labels.pairs(),
                self.values@ == with_values(values, pairs.take(i as int)),
                self.hlls@ == with_counts(hlls, pairs.take(i as int)),
            decreases count - i,
        {
            assert(pairs.take(i + 1).drop_last() =~= pairs.take(i as int));
            assert(pairs.take(i + 1).last() == pairs[i as int]);
            let name = labels.key_at(i);
            if !same(name.as_str(), "__name__") {
                self.add_value(name, labels.value_at(i));
            }
            i = i + 1;
        }
        assert(pairs.take(count as int) =~= pairs);
    }
}

/// A label with the number of its values.
pub struct LabelCount {
    pub name: String,
    pub count: usize,
}

impl Ranked for LabelCount {
    open spec fn before(&self, other: &Self) -> bool {
        self.count > other.count || self.count == other.count && !str_lt(other.name@, self.name@)
    }

    proof fn lemma_total(a: &Self, b: &Self) {
        lemma_str_lt_asymmetric(a.name@, b.name@);
    }

    proof fn lemma_transitive(a: &Self, b: &Self, c: &Self) {
        if str_lt(c.name@, a.name@) {
            lemma_str_lt_total(b.name@, a.name@);
            if str_lt(a.name@, b.name@) {
                lemma_str_lt_transitive(c.name@, a.name@, b.name@);
            }
        }
    }

    fn may_precede(&self, other: &Self) -> (result: bool) {
        if self.count > other.count {
            return true;
        }
        if self.count < other.count {
            return false;
        }
        proof {
            lemma_str_lt_asymmetric(self.name@, other.name@);
        }
        match compare(self.name.as_str(), other.name.as_str()) {
            Order::Less => true,
            Order::Equal => true,
            Order::Greater => false,
        }
    }
}

/// The labels with the numbers of their values, in the order of the names.
pub open spec fn are_counts(
    counts: Seq<LabelCount>,
    pairs: Seq<(Seq<char>, Set<Seq<char>>)>,
) -> bool {
    &&& counts.len() == pairs.len()
    &&& forall|i: int|
        0 <= i < counts.len() ==> (#[trigger] counts[i]).name@ == pairs[i].0 && counts[i].count
            == pairs[i].1.len()
}

/// A label has more values than another one, or as many and a name that comes first.
pub open spec fn more_values(
    values: Map<Seq<char>, Set<Seq<char>>>,
    first: Seq<char>,
    second: Seq<char>,
) -> bool {
    ||| values[first].len() > values[second].len()
    ||| values[first].len() == values[second].len() && str_lt(first, second)
}

/// The names are those of the labels, each once, from the label with the most values on.
pub open spec fn are_ordered_labels(
    names: Seq<Seq<char>>,
    values: Map<Seq<char>, Set<Seq<char>>>,
) -> bool {
    &&& forall|name: Seq<char>| #[trigger] names.contains(name) <==> values.contains_key(name)
    &&& forall|i: int, j: int|
        0 <= i < j < names.len() ==> more_values(values, #[trigger] names[i], #[trigger] names[j])
}

fn count_values(values: &MetricLabels) -> (counts: Vec<LabelCount>)
    ensures
        keys_increase(values.pairs()),
        are_counts(counts@, values.pairs()),
{
    let size: usize = values.len();
    let ghost pairs = values.pairs();
    let mut counts: Vec<LabelCount> = Vec::new();
    let mut i: usize = 0;
    while i < size
        invariant
            i <= size == pairs.len(),
            pairs == values.pairs(),
            counts@.len() == i,
            forall|k: int|
                0 <= k < i ==> (#[trigger] counts@[k]).name@ == pairs[k].0 && counts@[k].count
                    == pairs[k].1.len(),
        decreases size - i,
    {
        let set = values.value_at(i);
        let count: usize = set.len();
        proof {
            let names = set.names();
            assert forall|a: int, b: int| 0 <= a < names.len() && 0 <= b < names.len() && a
                != b implies names[a] != names[b] by {
                if a < b {
                    lemma_str_lt_asymmetric(names[a], names[b]);
                } else {
                    lemma_str_lt_asymmetric(names[b], names[a]);
                }
            }
            names.unique_seq_to_set();
        }
        counts.push(LabelCount { name: values.key_at(i).clone(), count });
        i = i + 1;
    }
    counts
}

proof fn lemma_ordered_labels(
    counts: Seq<LabelCount>,
    sorted: Seq<LabelCount>,
    names: Seq<Seq<char>>,
    pairs: Seq<(Seq<char>, Set<Seq<char>>)>,
)
    requires
        keys_increase(pairs),
        are_counts(counts, pairs),
        is_stable_sort(counts, sorted),
        names.len() == sorted.len(),
        forall|i: int| 0 <= i < names.len() ==> #[trigger] names[i] == sorted[i].name@,
    ensures
        are_ordered_labels(names, pairs_map(pairs)),
{
    let values = pairs_map(pairs);
    let places = choose|places: Seq<int>| #[trigger] sorted_by_places(counts, sorted, places);
    law_sort_keeps_values(counts, sorted, places);
    assert forall|i: int| 0 <= i < sorted.len() implies values.contains_key(
        (#[trigger] sorted[i]).name@,
    ) && values[sorted[i].name@].len() == sorted[i].count by {
        let p = places[i];
        assert(sorted[i] == counts[p]);
        lemma_pair_at(pairs, p);
    }
    assert forall|name: Seq<char>| #[trigger] names.contains(name) == values.contains_key(name) by {
        if names.contains(name) {
            let i = names.index_of(name);
            assert(sorted[i].name@ == name);
        }
        if values.contains_key(name) {
            let p = crate::sorted_map::key_position(pairs, name);
            assert(pairs[p].0 == name);
            assert(places.contains(p));
            let i = places.index_of(p);
            assert(sorted[i] == counts[places[i]]);
            assert(names[i] == name);
        }
    }
    assert forall|i: int, j: int| 0 <= i < j < names.len() implies more_values(
        values,
        #[trigger] names[i],
        #[trigger] names[j],
    ) by {
        let a = sorted[i];
        let b = sorted[j];
        assert(stands_before(a, places[i], b, places[j]));
        assert(places[i] != places[j]);
        assert(a == counts[places[i]] && b == counts[places[j]]);
        if places[i] < places[j] {
            assert(str_lt(pairs[places[i]].0, pairs[places[j]].0));
            lemma_str_lt_asymmetric(pairs[places[i]].0, pairs[places[j]].0);
        } else {
            assert(str_lt(pairs[places[j]].0, pairs[places[i]].0));
        }
        lemma_str_lt_total(a.name@, b.name@);
    }
}

/// The labels of a block, from the one with the most values on.
pub fn ordered_labels(values: &MetricLabels) -> (names: Vec<String>)
    ensures
        are_ordered_labels(name_views(names@), values@),
{
    let counts = count_values(values);
    let ghost unsorted = counts@;
    let sorted = stable_sort(counts);
    let mut names: Vec<String> = Vec::new();
    let mut i: usize = 0;
    while i < sorted.len()
        invariant
            i <= sorted@.len(),
            names@.len() == i,
            forall|k: int| 0 <= k < i ==> (#[trigger] names@[k])@ == sorted@[k].name@,
        decreases sorted.len() - i,
    {
        names.push(sorted[i].name.clone());
        i = i + 1;
    }
    proof {
        let views = name_views(names@);
        assert forall|k: int| 0 <= k < views.len() implies #[trigger] views[k]
            == sorted@[k].name@ by {
            assert(views[k] == names@[k]@);
        }
        lemma_ordered_labels(unsorted, sorted@, views, values.pairs());
    }
    names
}

/// The bytes whose digest stands for labels: each name and value behind its length.
pub open spec fn label_bytes(pairs: Seq<(Seq<char>, Seq<char>)>) -> Seq<u8>
    decreases pairs.len(),
{
    if pairs.len() == 0 {
        Seq::empty()
    } else {
        let name = encode_utf8(pairs.last().0);
        let value = encode_utf8(pairs.last().1);
        label_bytes(pairs.drop_last()) + be_bytes(name.len() as int, 4) + name + be_bytes(
            value.len() as int,
            4,
        ) + value
    }
}

/// The hash of labels: the first half of a SHA-256 digest.
pub fn labels_hash(labels: &Labels) -> (hash: Vec<u8>)
    ensures
        hash@ == sha256(label_bytes(labels.pairs())).take(16),
        hash@.len() == 16,
{
    let count: usize = labels.len();
    let ghost pairs = labels.pairs();
    let mut bytes: Vec<u8> = Vec::new();
    let mut i: usize = 0;
    assert(bytes@ =~= label_bytes(pairs.take(0)));
    while i < count
        invariant
            i <= count == pairs.len(),
            pairs == labels.pairs(),
            bytes@ == label_bytes(pairs.take(i as int)),
        decreases count - i,
    {
        assert(pairs.take(i + 1).drop_last() =~= pairs.take(i as int));
        assert(pairs.take(i + 1).last() == pairs[i as int]);
        let name = labels.key_at(i).as_str().as_bytes();
        let value = labels.value_at(i).as_str().as_bytes();
        push_be_bytes(&mut bytes, name.len() as u64, 4);
        push_all(&mut bytes, name);
        push_be_bytes(&mut bytes, value.len() as u64, 4);
        push_all(&mut bytes, value);
        i = i + 1;
    }
    assert(pairs.take(count as int) =~= pairs);
    let mut hash = sha256_digest(bytes.as_slice());
    hash.truncate(16);
    hash
}

/// A sample of the flat table. The values are those of the block's labels in their order; a value
/// is a bit pattern.
pub struct Row {
    pub name: String,
    pub hash: Vec<u8>,
    pub labels: Vec<Option<String>>,
    pub timestamp: i64,
    pub value: u64,
}

/// What a sample of the flat table holds.
#[verifier::ext_equal]
pub struct RowModel {
    pub name: Seq<char>,
    pub hash: Seq<u8>,
    pub labels: Seq<Option<Seq<char>>>,
    pub timestamp: i64,
    pub value: u64,
}

/// A value that may be missing.
pub open spec fn optional_view(value: Option<String>) -> Option<Seq<char>> {
    match value {
        Some(value) => Some(value@),
        None => None,
    }
}

/// The values of a list that may be missing.
pub open spec fn optional_views(values: Seq<Option<String>>) -> Seq<Option<Seq<char>>> {
    values.map_values(|value: Option<String>| optional_view(value))
}

impl View for Row {
    type V = RowModel;

    open spec fn view(&self) -> RowModel {
        RowModel {
            name: self.name@,
            hash: self.hash@,
            labels: optional_views(self.labels@),
            timestamp: self.timestamp,
            value: self.value,
        }
    }
}

/// What the rows of a list hold.
pub open spec fn row_models(rows: Seq<Row>) -> Seq<RowModel> {
    rows.map_values(|row: Row| row@)
}

/// A value that is missing comes before all others.
pub open spec fn value_lt(a: Option<Seq<char>>, b: Option<Seq<char>>) -> bool {
    match (a, b) {
        (None, Some(_)) => true,
        (Some(a), Some(b)) => str_lt(a, b),
        _ => false,
    }
}

/// `i` is the first position that tells `a` from `b`, and there `a` is the smaller one.
pub open spec fn values_lt_at(
    a: Seq<Option<Seq<char>>>,
    b: Seq<Option<Seq<char>>>,
    i: int,
) -> bool {
    &&& 0 <= i <= a.len()
    &&& i < b.len()
    &&& forall|j: int| 0 <= j < i ==> a[j] == b[j]
    &&& i < a.len() ==> value_lt(a[i], b[i])
}

/// Values come before others in the lexicographic order.
pub open spec fn values_lt(a: Seq<Option<Seq<char>>>, b: Seq<Option<Seq<char>>>) -> bool {
    exists|i: int| #[trigger] values_lt_at(a, b, i)
}

proof fn lemma_value_lt(a: Option<Seq<char>>, b: Option<Seq<char>>, c: Option<Seq<char>>)
    ensures
        value_lt(a, b) ==> !value_lt(b, a) && a != b,
        value_lt(a, b) && value_lt(b, c) ==> value_lt(a, c),
        value_lt(a, b) || value_lt(b, a) || a == b,
{
    if let (Some(x), Some(y)) = (a, b) {
        lemma_str_lt_asymmetric(x, y);
        lemma_str_lt_total(x, y);
        if let Some(z) = c {
            if str_lt(x, y) && str_lt(y, z) {
                lemma_str_lt_transitive(x, y, z);
            }
        }
    }
}

proof fn lemma_values_lt_asymmetric(a: Seq<Option<Seq<char>>>, b: Seq<Option<Seq<char>>>)
    ensures
        values_lt(a, b) ==> !values_lt(b, a) && a != b,
{
    if values_lt(a, b) {
        let i = choose|i: int| values_lt_at(a, b, i);
        if i < a.len() {
            lemma_value_lt(a[i], b[i], a[i]);
        }
        if values_lt(b, a) {
            let j = choose|j: int| values_lt_at(b, a, j);
            if i < j {
                assert(b[i] == a[i]);
            } else if j < i {
                assert(a[j] == b[j]);
                lemma_value_lt(b[j], a[j], b[j]);
            }
        }
    }
}

proof fn lemma_values_lt_transitive(
    a: Seq<Option<Seq<char>>>,
    b: Seq<Option<Seq<char>>>,
    c: Seq<Option<Seq<char>>>,
)
    requires
        values_lt(a, b),
        values_lt(b, c),
    ensures
        values_lt(a, c),
{
    let i = choose|i: int| values_lt_at(a, b, i);
    let j = choose|j: int| values_lt_at(b, c, j);
    let k = if i < j {
        i
    } else {
        j
    };
    if i == j && i < a.len() {
        lemma_value_lt(a[i], b[i], c[i]);
    }
    assert(values_lt_at(a, c, k));
}

proof fn lemma_values_total_from(a: Seq<Option<Seq<char>>>, b: Seq<Option<Seq<char>>>, i: int)
    requires
        0 <= i <= a.len(),
        i <= b.len(),
        forall|j: int| 0 <= j < i ==> a[j] == b[j],
    ensures
        values_lt(a, b) || values_lt(b, a) || a == b,
    decreases a.len() - i,
{
    if i == a.len() && i == b.len() {
        assert(a =~= b);
    } else if i == a.len() {
        assert(values_lt_at(a, b, i));
    } else if i == b.len() {
        assert(values_lt_at(b, a, i));
    } else {
        lemma_value_lt(a[i], b[i], a[i]);
        if value_lt(a[i], b[i]) {
            assert(values_lt_at(a, b, i));
        } else if value_lt(b[i], a[i]) {
            assert(values_lt_at(b, a, i));
        } else {
            lemma_values_total_from(a, b, i + 1);
        }
    }
}

fn compare_value(a: &Option<String>, b: &Option<String>) -> (order: Order)
    ensures
        match order {
            Order::Less => value_lt(optional_view(*a), optional_view(*b)),
            Order::Equal => optional_view(*a) == optional_view(*b),
            Order::Greater => value_lt(optional_view(*b), optional_view(*a)),
        },
{
    match (a, b) {
        (None, None) => Order::Equal,
        (None, Some(_)) => Order::Less,
        (Some(_), None) => Order::Greater,
        (Some(a), Some(b)) => compare(a.as_str(), b.as_str()),
    }
}

fn compare_values(a: &Vec<Option<String>>, b: &Vec<Option<String>>) -> (order: Order)
    ensures
        match order {
            Order::Less => values_lt(optional_views(a@), optional_views(b@)),
            Order::Equal => optional_views(a@) == optional_views(b@),
            Order::Greater => values_lt(optional_views(b@), optional_views(a@)),
        },
{
    let ghost x = optional_views(a@);
    let ghost y = optional_views(b@);
    let mut i: usize = 0;
    while i < a.len() && i < b.len()
        invariant
            i <= a@.len(),
            i <= b@.len(),
            x == optional_views(a@),
            y == optional_views(b@),
            forall|j: int| 0 <= j < i ==> x[j] == y[j],
        decreases a.len() - i,
    {
        assert(x[i as int] == optional_view(a@[i as int]));
        assert(y[i as int] == optional_view(b@[i as int]));
        match compare_value(&a[i], &b[i]) {
            Order::Less => {
                assert(values_lt_at(x, y, i as int));
                return Order::Less;
            },
            Order::Greater => {
                assert(values_lt_at(y, x, i as int));
                return Order::Greater;
            },
            Order::Equal => {},
        }
        i = i + 1;
    }
    if i < b.len() {
        assert(values_lt_at(x, y, i as int));
        Order::Less
    } else if i < a.len() {
        assert(values_lt_at(y, x, i as int));
        Order::Greater
    } else {
        assert(x =~= y);
        Order::Equal
    }
}

impl Ranked for Row {
    open spec fn before(&self, other: &Self) -> bool {
        ||| str_lt(self.name@, other.name@)
        ||| self.name@ == other.name@ && values_lt(
            optional_views(self.labels@),
            optional_views(other.labels@),
        )
        ||| {
            &&& self.name@ == other.name@
            &&& optional_views(self.labels@) == optional_views(other.labels@)
            &&& self.timestamp <= other.timestamp
        }
    }

    proof fn lemma_total(a: &Self, b: &Self) {
        lemma_str_lt_total(a.name@, b.name@);
        lemma_values_total_from(optional_views(a.labels@), optional_views(b.labels@), 0);
    }

    proof fn lemma_transitive(a: &Self, b: &Self, c: &Self) {
        if str_lt(a.name@, b.name@) && str_lt(b.name@, c.name@) {
            lemma_str_lt_transitive(a.name@, b.name@, c.name@);
        }
        let x = optional_views(a.labels@);
        let y = optional_views(b.labels@);
        let z = optional_views(c.labels@);
        if values_lt(x, y) && values_lt(y, z) {
            lemma_values_lt_transitive(x, y, z);
        }
    }

    fn may_precede(&self, other: &Self) -> (result: bool) {
        let ghost x = optional_views(self.labels@);
        let ghost y = optional_views(other.labels@);
        proof {
            lemma_str_lt_asymmetric(self.name@, other.name@);
            lemma_str_lt_asymmetric(other.name@, self.name@);
            lemma_values_lt_asymmetric(x, y);
            lemma_values_lt_asymmetric(y, x);
        }
        match compare(self.name.as_str(), other.name.as_str()) {
            Order::Less => true,
            Order::Greater => false,
            Order::Equal => match compare_values(&self.labels, &other.labels) {
                Order::Less => true,
                Order::Greater => false,
                Order::Equal => self.timestamp <= other.timestamp,
            },
        }
    }
}

/// The values of labels in an order; a label that a series does not have has no value.
pub open spec fn label_row(
    labels: Map<Seq<char>, Seq<char>>,
    names: Seq<Seq<char>>,
) -> Seq<Option<Seq<char>>> {
    names.map_values(
        |name: Seq<char>|
            if labels.contains_key(name) {
                Some(labels[name])
            } else {
                None
            },
    )
}

fn label_values_of(labels: &Labels, names: &Vec<String>) -> (values: Vec<Option<String>>)
    ensures
        optional_views(values@) == label_row(labels@, name_views(names@)),
{
    let ghost views = name_views(names@);
    let mut values: Vec<Option<String>> = Vec::new();
    let mut i: usize = 0;
    assert(optional_views(values@) =~= label_row(labels@, views.take(0)));
    while i < names.len()
        invariant
            i <= names@.len(),
            views == name_views(names@),
            optional_views(values@) == label_row(labels@, views.take(i as int)),
        decreases names.len() - i,
    {
        let value: Option<String> = match labels.get(names[i].as_str()) {
            Some(value) => Some(value.clone()),
            None => None,
        };
        let ghost before = values@;
        let ghost model = optional_view(value);
        values.push(value);
        assert(optional_views(values@) =~= optional_views(before).push(model));
        assert(views.take(i + 1) =~= views.take(i as int).push(views[i as int]));
        assert(label_row(labels@, views.take(i + 1)) =~= label_row(
            labels@,
            views.take(i as int),
        ).push(model));
        i = i + 1;
    }
    assert(views.take(names@.len() as int) =~= views);
    values
}

fn copy_values(values: &Vec<Option<String>>) -> (copies: Vec<Option<String>>)
    ensures
        optional_views(copies@) == optional_views(values@),
{
    let mut copies: Vec<Option<String>> = Vec::new();
    let mut i: usize = 0;
    while i < values.len()
        invariant
            i <= values@.len(),
            copies@.len() == i,
            forall|k: int|
                0 <= k < i ==> optional_view(#[trigger] copies@[k]) == optional_view(values@[k]),
        decreases values.len() - i,
    {
        let copy: Option<String> = match &values[i] {
            Some(value) => Some(value.clone()),
            None => None,
        };
        copies.push(copy);
        i = i + 1;
    }
    assert(optional_views(copies@) =~= optional_views(values@));
    copies
}

/// A series of a block as the flat table sees it.
pub struct FlatSeries {
    pub name: String,
    pub hash: Vec<u8>,
    pub labels: Vec<Option<String>>,
}

/// Makes a series ready for the flat table.
pub fn flat_series(labels: &Labels, names: &Vec<String>) -> (result: Result<
    FlatSeries,
    ConvertError,
>)
    ensures
        match result {
            Ok(series) => {
                &&& labels@.contains_key(metric_label())
                &&& series.name@ == labels@[metric_label()]
                &&& series.hash@ == sha256(label_bytes(labels.pairs())).take(16)
                &&& optional_views(series.labels@) == label_row(labels@, name_views(names@))
                &&& series.labels@.len() == names@.len()
                &&& forall|i: int|
                    0 <= i < names@.len() ==> match #[trigger] series.labels@[i] {
                        Some(value) => labels@.contains_key(names@[i]@) && labels@[names@[i]@]
                            == value@,
                        None => !labels@.contains_key(names@[i]@),
                    }
            },
            Err(error) => error == ConvertError::MissingName && !labels@.contains_key(
                metric_label(),
            ),
        },
{
    let name = match labels.get("__name__") {
        Some(name) => name.clone(),
        None => {
            return Err(ConvertError::MissingName);
        },
    };
    let values = label_values_of(labels, names);
    proof {
        let views = name_views(names@);
        let row = label_row(labels@, views);
        assert(optional_views(values@).len() == row.len());
        assert forall|i: int| 0 <= i < names@.len() implies match #[trigger] values@[i] {
            Some(value) => labels@.contains_key(names@[i]@) && labels@[names@[i]@] == value@,
            None => !labels@.contains_key(names@[i]@),
        } by {
            assert(views[i] == names@[i]@);
            assert(optional_views(values@)[i] == optional_view(values@[i]));
            assert(row[i] == optional_view(values@[i]));
        }
    }
    Ok(FlatSeries { name, hash: labels_hash(labels), labels: values })
}

/// The rows of samples. The flat table holds no histograms.
pub open spec fn flat_rows(series: FlatSeries, samples: Seq<SampleModel>) -> Seq<RowModel>
    decreases samples.len(),
{
    if samples.len() == 0 {
        Seq::empty()
    } else {
        let before = flat_rows(series, samples.drop_last());
        let sample = samples.last();
        if sample.histogram is Some {
            before
        } else {
            before.push(
                RowModel {
                    name: series.name@,
                    hash: series.hash@,
                    labels: optional_views(series.labels@),
                    timestamp: sample.timestamp,
                    value: sample.value,
                },
            )
        }
    }
}

/// Adds the rows of samples.
pub fn append_samples(series: &FlatSeries, samples: &Vec<Sample>, rows: &mut Vec<Row>)
    ensures
        row_models(final(rows)@) == row_models(old(rows)@) + flat_rows(
            *series,
            sample_models(samples@),
        ),
        final(rows)@.len() >= old(rows)@.len(),
        final(rows)@.take(old(rows)@.len() as int) == old(rows)@,
        forall|i: int|
            old(rows)@.len() <= i < final(rows)@.len() ==> {
                &&& (#[trigger] final(rows)@[i]).name@ == series.name@
                &&& final(rows)@[i].hash@ == series.hash@
                &&& optional_views(final(rows)@[i].labels@) == optional_views(series.labels@)
            },
{
    let ghost models = sample_models(samples@);
    let ghost start = rows@;
    assert(rows@.take(start.len() as int) =~= start);
    let ghost before = row_models(rows@);
    let mut i: usize = 0;
    assert(before + flat_rows(*series, models.take(0)) =~= before);
    while i < samples.len()
        invariant
            i <= samples@.len(),
            models == sample_models(samples@),
            row_models(rows@) == before + flat_rows(*series, models.take(i as int)),
            rows@.len() >= start.len(),
            rows@.take(start.len() as int) == start,
            forall|k: int|
                start.len() <= k < rows@.len() ==> {
                    &&& (#[trigger] rows@[k]).name@ == series.name@
                    &&& rows@[k].hash@ == series.hash@
                    &&& optional_views(rows@[k].labels@) == optional_views(series.labels@)
                },
        decreases samples.len() - i,
    {
        let sample = &samples[i];
        proof {
            assert(models.take(i + 1).drop_last() =~= models.take(i as int));
            assert(models.take(i + 1).last() == sample@);
        }
        if sample.histogram.is_none() {
            let ghost current = rows@;
            let row = Row {
                name: series.name.clone(),
                hash: vstd::slice::slice_to_vec(series.hash.as_slice()),
                labels: copy_values(&series.labels),
                timestamp: sample.timestamp,
                value: sample.value,
            };
            let ghost model = row@;
            rows.push(row);
            assert(row_models(rows@) =~= row_models(current).push(model));
            assert(row_models(rows@) =~= before + flat_rows(*series, models.take(i + 1)));
            assert(rows@.take(start.len() as int) =~= current.take(start.len() as int));
        }
        i = i + 1;
    }
    assert(models.take(samples@.len() as int) =~= models);
}

/// A sample is a number.
pub open spec fn is_number(sample: SampleModel) -> bool {
    sample.histogram is None
}

/// The row of a sample of a series.
pub open spec fn is_flat_row(row: RowModel, series: FlatSeries, sample: SampleModel) -> bool {
    &&& row.name == series.name@
    &&& row.hash == series.hash@
    &&& row.labels == optional_views(series.labels@)
    &&& row.timestamp == sample.timestamp
    &&& row.value == sample.value
}

/// The numbers among the samples give one row each, in their order: with the name, the hash and
/// the label values of the series and the time and the value of the sample.
pub proof fn law_flat_rows_are_those_of_the_numbers(series: FlatSeries, samples: Seq<SampleModel>)
    ensures
        ({
            let numbers = samples.filter(|sample: SampleModel| is_number(sample));
            let rows = flat_rows(series, samples);
            &&& rows.len() == numbers.len()
            &&& forall|i: int|
                0 <= i < rows.len() ==> is_flat_row(#[trigger] rows[i], series, numbers[i])
        }),
    decreases samples.len(),
{
    reveal(Seq::filter);
    let condition = |sample: SampleModel| is_number(sample);
    if samples.len() > 0 {
        law_flat_rows_are_those_of_the_numbers(series, samples.drop_last());
        let before = flat_rows(series, samples.drop_last());
        let rows = flat_rows(series, samples);
        let numbers = samples.filter(condition);
        let fewer = samples.drop_last().filter(condition);
        assert forall|i: int| 0 <= i < rows.len() implies is_flat_row(
            #[trigger] rows[i],
            series,
            numbers[i],
        ) by {
            if i < before.len() {
                assert(rows[i] == before[i]);
                assert(numbers[i] == fewer[i]);
            }
        }
    }
}

/// Every row of a series that was made ready with labels and columns has the values of these
/// labels: one entry for each column, with the value of the label of that name, or nothing where the
/// series does not have it.
pub proof fn law_flat_rows_have_their_labels(
    series: FlatSeries,
    samples: Seq<SampleModel>,
    labels: Map<Seq<char>, Seq<char>>,
    names: Seq<Seq<char>>,
    row: int,
    column: int,
)
    requires
        optional_views(series.labels@) == label_row(labels, names),
        0 <= row < flat_rows(series, samples).len(),
        0 <= column < names.len(),
    ensures
        flat_rows(series, samples)[row].labels.len() == names.len(),
        flat_rows(series, samples)[row].labels[column] == (if labels.contains_key(names[column]) {
            Some(labels[names[column]])
        } else {
            None
        }),
{
    law_flat_rows_are_those_of_the_numbers(series, samples);
    let numbers = samples.filter(|sample: SampleModel| is_number(sample));
    assert(is_flat_row(flat_rows(series, samples)[row], series, numbers[row]));
}

/// The flat table is sorted by name, then by the values of the labels, then by time.
pub proof fn law_flat_rows_are_in_order(rows: Seq<Row>, sorted: Seq<Row>)
    requires
        is_stable_sort(rows, sorted),
    ensures
        sorted.len() == rows.len(),
        forall|row: Row| #[trigger] sorted.contains(row) <==> rows.contains(row),
        forall|i: int, j: int|
            0 <= i < j < sorted.len() ==> {
                let a = #[trigger] sorted[i];
                let b = #[trigger] sorted[j];
                &&& !str_lt(b.name@, a.name@)
                &&& a.name@ == b.name@ ==> !values_lt(
                    optional_views(b.labels@),
                    optional_views(a.labels@),
                )
                &&& a.name@ == b.name@ && optional_views(a.labels@) == optional_views(b.labels@)
                    ==> a.timestamp <= b.timestamp
            },
{
    law_sorted_values_are_in_order(rows, sorted);
    assert forall|i: int, j: int| 0 <= i < j < sorted.len() implies {
        let a = #[trigger] sorted[i];
        let b = #[trigger] sorted[j];
        &&& !str_lt(b.name@, a.name@)
        &&& a.name@ == b.name@ ==> !values_lt(optional_views(b.labels@), optional_views(a.labels@))
        &&& a.name@ == b.name@ && optional_views(a.labels@) == optional_views(b.labels@)
            ==> a.timestamp <= b.timestamp
    } by {
        assert(sorted[i].before(&sorted[j]));
        lemma_str_lt_asymmetric(sorted[i].name@, sorted[j].name@);
        lemma_values_lt_asymmetric(
            optional_views(sorted[i].labels@),
            optional_views(sorted[j].labels@),
        );
        lemma_values_lt_asymmetric(
            optional_views(sorted[j].labels@),
            optional_views(sorted[i].labels@),
        );
    }
}

/// The columns of the flat table are the name, the hash, one for each label in their order, the time
/// and the value.
pub proof fn law_flat_columns_are_named(names: Seq<Seq<char>>, column: int)
    requires
        0 <= column < names.len(),
    ensures
        flat_table(names).len() == names.len() + 4,
        flat_table(names)[0].name == "name"@,
        flat_table(names)[1].name == "labels_hash"@,
        flat_table(names)[2 + column].name == "label."@ + names[column],
        flat_table(names)[2 + column].nullable,
        flat_table(names)[(names.len() + 2) as int].name == "timestamp"@,
        flat_table(names)[(names.len() + 3) as int].name == "value"@,
{
}

/// The samples of a record that the flat table may hold. A chunk of native histograms has none, and
/// only its frame is checked.
pub open spec fn flat_samples(record: Seq<u8>, counter_metric: bool) -> Result<
    Seq<SampleModel>,
    ChunkError,
> {
    match encoded_chunk(record) {
        Err(error) => Err(error),
        Ok(chunk) => if is_histogram_chunk(chunk) {
            Ok(Seq::empty())
        } else {
            chunk_samples(chunk, counter_metric, None)
        },
    }
}

/// A chunk holds native histograms.
pub open spec fn is_histogram_chunk(chunk: EncodedChunkModel) -> bool {
    match chunk {
        EncodedChunkModel::Plain(data) => data.encoding == ENCODING_HISTOGRAM || data.encoding
            == ENCODING_FLOAT_HISTOGRAM,
        EncodedChunkModel::Aggregate { .. } => false,
    }
}

/// Adds the rows of the record of a chunk.
pub fn append_record(series: &FlatSeries, record: &[u8], rows: &mut Vec<Row>) -> (result: Result<
    (),
    ConvertError,
>)
    ensures
        match result {
            Ok(_) => {
                &&& flat_samples(record@, is_counter(series.name@)) matches Ok(samples)
                &&& row_models(final(rows)@) == row_models(old(rows)@) + flat_rows(
                    *series,
                    samples,
                )
                &&& final(rows)@.len() >= old(rows)@.len()
                &&& final(rows)@.take(old(rows)@.len() as int) == old(rows)@
                &&& forall|i: int|
                    old(rows)@.len() <= i < final(rows)@.len() ==> {
                        &&& (#[trigger] final(rows)@[i]).name@ == series.name@
                        &&& final(rows)@[i].hash@ == series.hash@
                        &&& optional_views(final(rows)@[i].labels@) == optional_views(
                            series.labels@,
                        )
                    }
            },
            Err(error) => {
                &&& error matches ConvertError::InvalidChunk(cause)
                &&& flat_samples(record@, is_counter(series.name@)) == Err::<
                    Seq<SampleModel>,
                    ChunkError,
                >(cause)
                &&& final(rows)@ == old(rows)@
            },
        },
{
    let chunk = match decode_encoded_chunk(record) {
        Ok(chunk) => chunk,
        Err(error) => {
            return Err(ConvertError::InvalidChunk(error));
        },
    };
    let histograms: bool = match &chunk {
        EncodedChunk::Plain(data) => data.encoding == ENCODING_HISTOGRAM || data.encoding
            == ENCODING_FLOAT_HISTOGRAM,
        EncodedChunk::Aggregate { .. } => false,
    };
    if histograms {
        assert(row_models(rows@) =~= row_models(old(rows)@) + flat_rows(*series, Seq::empty()));
        assert(rows@.take(old(rows)@.len() as int) =~= old(rows)@);
        return Ok(());
    }
    match decode_chunk(&chunk, is_counter_metric(series.name.as_str()), None) {
        Ok(samples) => {
            append_samples(series, &samples, rows);
            Ok(())
        },
        Err(error) => Err(ConvertError::InvalidChunk(error)),
    }
}

/// Sorts the flat table by name, labels and time.
pub fn sort_rows(rows: Vec<Row>) -> (sorted: Vec<Row>)
    ensures
        is_stable_sort(rows@, sorted@),
{
    stable_sort(rows)
}

/// The columns of the flat table.
pub open spec fn flat_table(names: Seq<Seq<char>>) -> Seq<ColumnModel> {
    seq![
        required("name"@, ColumnKind::Text),
        required("labels_hash"@, ColumnKind::Bytes),
    ] + names.map_values(|name: Seq<char>| optional("label."@ + name, ColumnKind::Text)) + seq![
        required("timestamp"@, ColumnKind::Timestamp),
        required("value"@, ColumnKind::Float),
    ]
}

/// The columns of the flat table.
pub fn flat_columns(names: &Vec<String>) -> (columns: Vec<Column>)
    ensures
        column_models(columns@) == flat_table(name_views(names@)),
{
    let ghost views = name_views(names@);
    let mut columns: Vec<Column> = Vec::new();
    push_required(&mut columns, "name", ColumnKind::Text);
    push_required(&mut columns, "labels_hash", ColumnKind::Bytes);
    let ghost start = column_models(columns@);
    let ghost labels = views.map_values(
        |name: Seq<char>| optional("label."@ + name, ColumnKind::Text),
    );
    let mut i: usize = 0;
    assert(column_models(columns@) =~= start + labels.take(0));
    while i < names.len()
        invariant
            i <= names@.len(),
            views == name_views(names@),
            labels == views.map_values(
                |name: Seq<char>| optional("label."@ + name, ColumnKind::Text),
            ),
            column_models(columns@) == start + labels.take(i as int),
        decreases names.len() - i,
    {
        let column = label_column(names[i].as_str());
        push_optional(&mut columns, column.as_str(), ColumnKind::Text);
        assert(labels[i as int] == optional("label."@ + views[i as int], ColumnKind::Text));
        assert(column_models(columns@) =~= start + labels.take(i + 1));
        i = i + 1;
    }
    assert(labels.take(names@.len() as int) =~= labels);
    push_required(&mut columns, "timestamp", ColumnKind::Timestamp);
    push_required(&mut columns, "value", ColumnKind::Float);
    assert(column_models(columns@) =~= flat_table(views));
    columns
}

/// Labels with more values come first, and of labels with as many values those whose names come first.
pub proof fn law_labels_with_more_values_come_first(
    names: Seq<Seq<char>>,
    values: Map<Seq<char>, Set<Seq<char>>>,
    i: int,
    j: int,
)
    requires
        are_ordered_labels(names, values),
        0 <= i < j < names.len(),
    ensures
        values.contains_key(names[i]),
        values[names[i]].len() >= values[names[j]].len(),
        values[names[i]].len() == values[names[j]].len() ==> str_lt(names[i], names[j]),
{
    assert(more_values(values, names[i], names[j]));
    assert(names.contains(names[i]));
}

/// The bytes that stand for labels hold the labels one behind the other: the length of a name in four
/// bytes, the name, the length of its value in four bytes, the value, and the labels that follow.
#[verifier::spinoff_prover]
#[verifier::rlimit(60)]
pub proof fn law_hashed_labels_stand_one_behind_the_other(
    name: Seq<char>,
    value: Seq<char>,
    rest: Seq<(Seq<char>, Seq<char>)>,
)
    requires
        encode_utf8(name).len() <= u32::MAX,
        encode_utf8(value).len() <= u32::MAX,
    ensures
        ({
            let bytes = label_bytes(seq![(name, value)] + rest);
            let middle = 4 + encode_utf8(name).len() as int;
            let end = middle + 4 + encode_utf8(value).len() as int;
            &&& bytes.len() >= end
            &&& be_value(bytes.take(4)) == encode_utf8(name).len()
            &&& bytes.subrange(4, middle) == encode_utf8(name)
            &&& be_value(bytes.subrange(middle, middle + 4)) == encode_utf8(value).len()
            &&& bytes.subrange(middle + 4, end) == encode_utf8(value)
            &&& bytes.skip(end) == label_bytes(rest)
        }),
{
    reveal_with_fuel(pow256, 5);
    let n = encode_utf8(name);
    let v = encode_utf8(value);
    law_written_numbers_are_read_from_bytes(n.len() as int, 4);
    law_written_numbers_are_read_from_bytes(v.len() as int, 4);
    lemma_first_label(name, value, rest);
    let bytes = label_bytes(seq![(name, value)] + rest);
    let middle = 4 + n.len() as int;
    let end = middle + 4 + v.len() as int;
    assert(bytes.take(4) =~= be_bytes(n.len() as int, 4));
    assert(bytes.subrange(4, middle) =~= n);
    assert(bytes.subrange(middle, middle + 4) =~= be_bytes(v.len() as int, 4));
    assert(bytes.subrange(middle + 4, end) =~= v);
    assert(bytes.skip(end) =~= label_bytes(rest));
}

#[verifier::spinoff_prover]
#[verifier::rlimit(60)]
proof fn lemma_first_label(
    name: Seq<char>,
    value: Seq<char>,
    rest: Seq<(Seq<char>, Seq<char>)>,
)
    ensures
        label_bytes(seq![(name, value)] + rest) == be_bytes(encode_utf8(name).len() as int, 4)
            + encode_utf8(name) + be_bytes(encode_utf8(value).len() as int, 4) + encode_utf8(value)
            + label_bytes(rest),
    decreases rest.len(),
{
    let all = seq![(name, value)] + rest;
    let n = encode_utf8(name);
    let v = encode_utf8(value);
    let first = be_bytes(n.len() as int, 4) + n + be_bytes(v.len() as int, 4) + v;
    if rest.len() == 0 {
        assert(all.drop_last() =~= rest);
        assert(label_bytes(rest) == Seq::<u8>::empty());
        assert(label_bytes(all) =~= first + label_bytes(rest));
    } else {
        lemma_first_label(name, value, rest.drop_last());
        assert(all.drop_last() =~= seq![(name, value)] + rest.drop_last());
        assert(label_bytes(all.drop_last()) == first + label_bytes(rest.drop_last()));
        assert(label_bytes(all) =~= first + label_bytes(rest));
    }
}

/// The flat table has no samples of native histograms, whose encodings are 2 and 3; of all other chunks
/// it has those that are read without asking for an aggregate.
pub proof fn law_histograms_are_not_flat(record: Seq<u8>, counter_metric: bool)
    ensures
        match encoded_chunk(record) {
            Err(error) => flat_samples(record, counter_metric) == Err::<
                Seq<SampleModel>,
                ChunkError,
            >(error),
            Ok(EncodedChunkModel::Plain(data)) => if data.encoding == 2 || data.encoding == 3 {
                flat_samples(record, counter_metric) == Ok::<Seq<SampleModel>, ChunkError>(
                    Seq::empty(),
                )
            } else {
                flat_samples(record, counter_metric) == chunk_samples(
                    EncodedChunkModel::Plain(data),
                    counter_metric,
                    None,
                )
            },
            Ok(chunk) => flat_samples(record, counter_metric) == chunk_samples(
                chunk,
                counter_metric,
                None,
            ),
        },
{
}

/// Rows with the same name are ordered by the first label in which they differ: a row without the label
/// comes first, and other rows in the order of the label's values.
pub proof fn law_label_values_are_ordered_by_the_first_difference(
    common: Seq<Option<Seq<char>>>,
    a: Seq<Option<Seq<char>>>,
    b: Seq<Option<Seq<char>>>,
)
    requires
        a.len() > 0,
        b.len() > 0,
    ensures
        a[0] is None && b[0] is Some ==> values_lt(common + a, common + b),
        a[0] is Some && b[0] is Some && str_lt(a[0]->0, b[0]->0) ==> values_lt(
            common + a,
            common + b,
        ),
        a[0] is Some && b[0] is None ==> !values_lt(common + a, common + b),
{
    let at = common.len() as int;
    let x = common + a;
    let y = common + b;
    assert(x[at] == a[0] && y[at] == b[0]);
    if value_lt(a[0], b[0]) {
        assert(values_lt_at(x, y, at));
    }
    if a[0] is Some && b[0] is None && values_lt(x, y) {
        let i = choose|i: int| values_lt_at(x, y, i);
        if i < at {
            assert(x[i] == common[i] && y[i] == common[i]);
            lemma_value_lt(x[i], y[i], x[i]);
        } else if i > at {
            assert(x[at] == y[at]);
        }
    }
}

} // verus!
