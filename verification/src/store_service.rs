//! The store API: selection of series, label names and label values, and the encoding of chunks.

use vstd::prelude::*;

use crate::block_choice::{
    find_spans, hinted_blocks, listed_blocks, read_hints, BlockHints, Span, StoreBlock,
};
#[allow(unused_imports)]
use crate::block_choice::{
    are_listed, block_labels, block_spans, hinted, law_blocks_hold_their_chunks, meets,
};
#[allow(unused_imports)]
use crate::labels::{json_entries, label_value, names_contain};
use crate::labels::{labels_from_json, list_contains, value_or_empty, Labels};
use crate::name_set::NameSet;
#[allow(unused_imports)]
use crate::name_set::{lemma_sorted_names_are_all, name_views, names_increase, sorted_names};
use crate::pattern::{anchor, compile_failure, is_match};
#[allow(unused_imports)]
use crate::pattern::{anchored, regex_failure, regex_matches};
#[allow(unused_imports)]
use crate::sorted_map::{keys_increase, lemma_pairs_map_is_finite, lemma_take_pairs, pairs_map};
use crate::text::same;

verus! {

/// Why a request was refused. A chunk that cannot be read comes with what the storage says.
#[derive(Debug)]
pub enum StoreError {
    UnknownMatcherType,
    InvalidPattern(String),
    UnknownAggregate,
    NegativeLimit,
    UnreadableHints(String, String),
    InvalidLabels,
    UnknownRepository(String),
    UnreadableChunk(String),
    InvalidChunk(crate::bits::ChunkError),
    MissingAggregate(Aggregate),
}

/// What an error says.
pub enum StoreErrorModel {
    UnknownMatcherType,
    InvalidPattern(Seq<char>),
    UnknownAggregate,
    NegativeLimit,
    UnreadableHints(Seq<char>, Seq<char>),
    InvalidLabels,
    UnknownRepository(Seq<char>),
    UnreadableChunk(Seq<char>),
    InvalidChunk(crate::bits::ChunkError),
    MissingAggregate(Aggregate),
}

impl View for StoreError {
    type V = StoreErrorModel;

    open spec fn view(&self) -> StoreErrorModel {
        match self {
            StoreError::UnknownMatcherType => StoreErrorModel::UnknownMatcherType,
            StoreError::InvalidPattern(message) => StoreErrorModel::InvalidPattern(message@),
            StoreError::UnknownAggregate => StoreErrorModel::UnknownAggregate,
            StoreError::NegativeLimit => StoreErrorModel::NegativeLimit,
            StoreError::UnreadableHints(kind, reason) => StoreErrorModel::UnreadableHints(
                kind@,
                reason@,
            ),
            StoreError::InvalidLabels => StoreErrorModel::InvalidLabels,
            StoreError::UnknownRepository(uri) => StoreErrorModel::UnknownRepository(uri@),
            StoreError::UnreadableChunk(message) => StoreErrorModel::UnreadableChunk(message@),
            StoreError::InvalidChunk(error) => StoreErrorModel::InvalidChunk(*error),
            StoreError::MissingAggregate(aggregate) => StoreErrorModel::MissingAggregate(
                *aggregate,
            ),
        }
    }
}

/// An aggregate that a request may ask for.
#[derive(Clone, Copy, Debug, PartialEq, Eq, Structural)]
pub enum Aggregate {
    Raw,
    Count,
    Sum,
    Min,
    Max,
    Counter,
}

/// A condition on a label as a request states it. The types are: equal, not equal, matching and
/// not matching.
pub struct LabelMatcher {
    pub kind: i32,
    pub name: String,
    pub value: String,
}

/// A condition on a label.
pub enum Matcher {
    Eq(String, String),
    Neq(String, String),
    Re(String, String),
    Nre(String, String),
}

/// What a condition says.
pub enum MatcherModel {
    Eq(Seq<char>, Seq<char>),
    Neq(Seq<char>, Seq<char>),
    Re(Seq<char>, Seq<char>),
    Nre(Seq<char>, Seq<char>),
}

impl View for Matcher {
    type V = MatcherModel;

    open spec fn view(&self) -> MatcherModel {
        match self {
            Matcher::Eq(name, value) => MatcherModel::Eq(name@, value@),
            Matcher::Neq(name, value) => MatcherModel::Neq(name@, value@),
            Matcher::Re(name, pattern) => MatcherModel::Re(name@, pattern@),
            Matcher::Nre(name, pattern) => MatcherModel::Nre(name@, pattern@),
        }
    }
}

impl Matcher {
    pub(crate) fn label_name(&self) -> (name: &str)
        ensures
            name@ == self@.label(),
    {
        match self {
            Matcher::Eq(name, _) => name.as_str(),
            Matcher::Neq(name, _) => name.as_str(),
            Matcher::Re(name, _) => name.as_str(),
            Matcher::Nre(name, _) => name.as_str(),
        }
    }
}

impl MatcherModel {
    /// The label that the condition speaks of.
    pub open spec fn label(&self) -> Seq<char> {
        match self {
            MatcherModel::Eq(name, _) => *name,
            MatcherModel::Neq(name, _) => *name,
            MatcherModel::Re(name, _) => *name,
            MatcherModel::Nre(name, _) => *name,
        }
    }

    /// Labels satisfy the condition. A label that is not there has the empty value.
    pub open spec fn holds(&self, labels: Map<Seq<char>, Seq<char>>) -> bool {
        match self {
            MatcherModel::Eq(name, value) => label_value(labels, *name) == value,
            MatcherModel::Neq(name, value) => label_value(labels, *name) != value,
            MatcherModel::Re(name, pattern) => regex_matches(*pattern, label_value(labels, *name)),
            MatcherModel::Nre(name, pattern) => !regex_matches(
                *pattern,
                label_value(labels, *name),
            ),
        }
    }
}

/// What the conditions of a list say.
pub open spec fn matcher_models(matchers: Seq<Matcher>) -> Seq<MatcherModel> {
    matchers.map_values(|matcher: Matcher| matcher@)
}

/// The condition that a request states. A pattern has to match the whole value.
pub open spec fn compiled(matcher: LabelMatcher) -> Result<MatcherModel, StoreErrorModel> {
    if matcher.kind == 0 {
        Ok(MatcherModel::Eq(matcher.name@, matcher.value@))
    } else if matcher.kind == 1 {
        Ok(MatcherModel::Neq(matcher.name@, matcher.value@))
    } else if matcher.kind == 2 || matcher.kind == 3 {
        let pattern = anchored(matcher.value@);
        match regex_failure(pattern) {
            Some(message) => Err(StoreErrorModel::InvalidPattern(message)),
            None => if matcher.kind == 2 {
                Ok(MatcherModel::Re(matcher.name@, pattern))
            } else {
                Ok(MatcherModel::Nre(matcher.name@, pattern))
            },
        }
    } else {
        Err(StoreErrorModel::UnknownMatcherType)
    }
}

/// The conditions that a request states; the first one that is not valid makes the request fail.
pub open spec fn compiled_all(matchers: Seq<LabelMatcher>) -> Result<
    Seq<MatcherModel>,
    StoreErrorModel,
>
    decreases matchers.len(),
{
    if matchers.len() == 0 {
        Ok(Seq::empty())
    } else {
        match compiled_all(matchers.drop_last()) {
            Err(error) => Err(error),
            Ok(conditions) => match compiled(matchers.last()) {
                Err(error) => Err(error),
                Ok(condition) => Ok(conditions.push(condition)),
            },
        }
    }
}

proof fn lemma_compiled_prefix(matchers: Seq<LabelMatcher>, n: int)
    requires
        0 <= n <= matchers.len(),
        compiled_all(matchers.take(n)) is Err,
    ensures
        compiled_all(matchers) == compiled_all(matchers.take(n)),
    decreases matchers.len() - n,
{
    if n < matchers.len() {
        assert(matchers.take(n + 1).drop_last() =~= matchers.take(n));
        lemma_compiled_prefix(matchers, n + 1);
    } else {
        assert(matchers.take(n) =~= matchers);
    }
}

fn compile_matcher(matcher: &LabelMatcher) -> (result: Result<Matcher, StoreError>)
    ensures
        match result {
            Ok(condition) => compiled(*matcher) == Ok::<MatcherModel, StoreErrorModel>(condition@),
            Err(error) => compiled(*matcher) == Err::<MatcherModel, StoreErrorModel>(error@),
        },
{
    if matcher.kind == 0 {
        Ok(Matcher::Eq(matcher.name.clone(), matcher.value.clone()))
    } else if matcher.kind == 1 {
        Ok(Matcher::Neq(matcher.name.clone(), matcher.value.clone()))
    } else if matcher.kind == 2 || matcher.kind == 3 {
        let pattern = anchor(matcher.value.as_str());
        match compile_failure(pattern.as_str()) {
            Some(message) => Err(StoreError::InvalidPattern(message)),
            None => if matcher.kind == 2 {
                Ok(Matcher::Re(matcher.name.clone(), pattern))
            } else {
                Ok(Matcher::Nre(matcher.name.clone(), pattern))
            },
        }
    } else {
        Err(StoreError::UnknownMatcherType)
    }
}

/// Reads the conditions that a request states.
pub fn compile_matchers(matchers: &Vec<LabelMatcher>) -> (result: Result<Vec<Matcher>, StoreError>)
    ensures
        match result {
            Ok(conditions) => compiled_all(matchers@) == Ok::<Seq<MatcherModel>, StoreErrorModel>(
                matcher_models(conditions@),
            ),
            Err(error) => compiled_all(matchers@) == Err::<Seq<MatcherModel>, StoreErrorModel>(
                error@,
            ),
        },
{
    let mut conditions: Vec<Matcher> = Vec::new();
    let mut i: usize = 0;
    assert(matcher_models(conditions@) =~= Seq::<MatcherModel>::empty());
    while i < matchers.len()
        invariant
            i <= matchers@.len(),
            compiled_all(matchers@.take(i as int)) == Ok::<Seq<MatcherModel>, StoreErrorModel>(
                matcher_models(conditions@),
            ),
        decreases matchers.len() - i,
    {
        assert(matchers@.take(i + 1).drop_last() =~= matchers@.take(i as int));
        match compile_matcher(&matchers[i]) {
            Ok(condition) => {
                let ghost before = conditions@;
                let ghost model = condition@;
                conditions.push(condition);
                assert(matcher_models(conditions@) =~= matcher_models(before).push(model));
            },
            Err(error) => {
                proof {
                    lemma_compiled_prefix(matchers@, i + 1);
                }
                return Err(error);
            },
        }
        i = i + 1;
    }
    assert(matchers@.take(matchers@.len() as int) =~= matchers@);
    Ok(conditions)
}

/// Labels satisfy all conditions.
pub open spec fn all_hold(
    labels: Map<Seq<char>, Seq<char>>,
    conditions: Seq<MatcherModel>,
) -> bool {
    forall|i: int| 0 <= i < conditions.len() ==> (#[trigger] conditions[i]).holds(labels)
}

pub(crate) fn matcher_holds(matcher: &Matcher, labels: &Labels) -> (result: bool)
    ensures
        result == matcher@.holds(labels@),
{
    match matcher {
        Matcher::Eq(name, value) => same(value_or_empty(labels, name.as_str()), value.as_str()),
        Matcher::Neq(name, value) => !same(value_or_empty(labels, name.as_str()), value.as_str()),
        Matcher::Re(name, pattern) => is_match(
            pattern.as_str(),
            value_or_empty(labels, name.as_str()),
        ),
        Matcher::Nre(name, pattern) => !is_match(
            pattern.as_str(),
            value_or_empty(labels, name.as_str()),
        ),
    }
}

/// Whether labels satisfy all conditions.
pub fn matches_all(labels: &Labels, matchers: &Vec<Matcher>) -> (result: bool)
    ensures
        result == all_hold(labels@, matcher_models(matchers@)),
{
    let ghost models = matcher_models(matchers@);
    let mut i: usize = 0;
    while i < matchers.len()
        invariant
            i <= matchers@.len(),
            models == matcher_models(matchers@),
            forall|k: int| 0 <= k < i ==> (#[trigger] models[k]).holds(labels@),
        decreases matchers.len() - i,
    {
        assert(models[i as int] == matchers@[i as int]@);
        if !matcher_holds(&matchers[i], labels) {
            return false;
        }
        i = i + 1;
    }
    true
}

/// A condition and its negation never hold of the same labels, and one of them always holds.
pub proof fn law_matchers_have_negations(
    name: Seq<char>,
    value: Seq<char>,
    labels: Map<Seq<char>, Seq<char>>,
)
    ensures
        MatcherModel::Eq(name, value).holds(labels) != MatcherModel::Neq(name, value).holds(labels),
        MatcherModel::Re(name, value).holds(labels) != MatcherModel::Nre(name, value).holds(labels),
{
}

/// A label that is not there is the same as one with the empty value, for every condition.
pub proof fn law_missing_label_is_empty(
    condition: MatcherModel,
    labels: Map<Seq<char>, Seq<char>>,
    name: Seq<char>,
)
    requires
        !labels.contains_key(name),
    ensures
        condition.holds(labels) == condition.holds(labels.insert(name, Seq::empty())),
{
}

/// A chunk that can be asked for, with the place of its block in the list of blocks.
pub struct ChunkDescriptor {
    pub repository_uri: String,
    pub chunk_file_path: String,
    pub chunk_file_offset: u64,
    pub chunk_mint: i64,
    pub chunk_maxt: i64,
    pub block: usize,
    pub labels: Labels,
}

/// Makes the descriptor of a chunk from a row of the chunk index.
pub fn chunk_descriptor(
    repository_uri: String,
    chunk_file_path: String,
    chunk_file_offset: u64,
    chunk_mint: i64,
    chunk_maxt: i64,
    block: usize,
    labels_json: &str,
) -> (result: Result<ChunkDescriptor, StoreError>)
    ensures
        match result {
            Ok(descriptor) => {
                &&& descriptor.repository_uri == repository_uri
                &&& descriptor.chunk_file_path == chunk_file_path
                &&& descriptor.chunk_file_offset == chunk_file_offset
                &&& descriptor.chunk_mint == chunk_mint
                &&& descriptor.chunk_maxt == chunk_maxt
                &&& descriptor.block == block
                &&& json_entries(labels_json@) == Some(descriptor.labels.pairs())
            },
            Err(error) => error is InvalidLabels && json_entries(labels_json@) is None,
        },
{
    match labels_from_json(labels_json) {
        Some(labels) => Ok(
            ChunkDescriptor {
                repository_uri,
                chunk_file_path,
                chunk_file_offset,
                chunk_mint,
                chunk_maxt,
                block,
                labels,
            },
        ),
        None => Err(StoreError::InvalidLabels),
    }
}

/// Two ranges of times have a time in common.
pub open spec fn ranges_overlap(min: int, max: int, start: int, end: int) -> bool {
    min <= end && max >= start
}

/// Whether two ranges of times have a time in common.
pub fn overlaps(min: i64, max: i64, start: i64, end: i64) -> (result: bool)
    ensures
        result == ranges_overlap(min as int, max as int, start as int, end as int),
{
    min <= end && max >= start
}

/// A chunk lies in a range of times and its labels satisfy conditions.
pub open spec fn selects(
    descriptor: ChunkDescriptor,
    start: i64,
    end: i64,
    conditions: Seq<MatcherModel>,
) -> bool {
    &&& ranges_overlap(
        descriptor.chunk_mint as int,
        descriptor.chunk_maxt as int,
        start as int,
        end as int,
    )
    &&& all_hold(descriptor.labels@, conditions)
}

/// Positions that increase.
pub open spec fn increasing(positions: Seq<usize>) -> bool {
    forall|i: int, j: int|
        0 <= i < j < positions.len() ==> #[trigger] positions[i] < #[trigger] positions[j]
}

/// The positions are those of the chunks that a range of times and conditions select, in order.
pub open spec fn are_selected(
    positions: Seq<usize>,
    descriptors: Seq<ChunkDescriptor>,
    start: i64,
    end: i64,
    conditions: Seq<MatcherModel>,
) -> bool {
    &&& increasing(positions)
    &&& forall|p: usize|
        #[trigger] positions.contains(p) <==> p < descriptors.len() && selects(
            descriptors[p as int],
            start,
            end,
            conditions,
        )
}

/// The positions of the chunks in a range of times whose labels satisfy conditions.
pub fn matching_descriptors(
    descriptors: &Vec<ChunkDescriptor>,
    start: i64,
    end: i64,
    matchers: &Vec<Matcher>,
) -> (positions: Vec<usize>)
    ensures
        are_selected(positions@, descriptors@, start, end, matcher_models(matchers@)),
{
    let ghost conditions = matcher_models(matchers@);
    let mut positions: Vec<usize> = Vec::new();
    let mut p: usize = 0;
    while p < descriptors.len()
        invariant
            p <= descriptors@.len(),
            conditions == matcher_models(matchers@),
            increasing(positions@),
            forall|i: int| 0 <= i < positions@.len() ==> #[trigger] positions@[i] < p,
            forall|q: usize|
                #[trigger] positions@.contains(q) <==> q < p && selects(
                    descriptors@[q as int],
                    start,
                    end,
                    conditions,
                ),
        decreases descriptors.len() - p,
    {
        let descriptor = &descriptors[p];
        if overlaps(descriptor.chunk_mint, descriptor.chunk_maxt, start, end) && matches_all(
            &descriptor.labels,
            matchers,
        ) {
            let ghost before = positions@;
            positions.push(p);
            assert forall|q: usize| #[trigger] positions@.contains(q) == (before.contains(q) || q
                == p) by {
                if before.contains(q) {
                    assert(positions@[before.index_of(q)] == q);
                }
                assert(positions@[before.len() as int] == p);
                if positions@.contains(q) && q != p {
                    let k = positions@.index_of(q);
                    assert(before[k] == q);
                }
            }
        }
        p = p + 1;
    }
    positions
}

/// The positions of those chunks of a list whose blocks are marked.
pub(crate) fn keep_marked(
    descriptors: &Vec<ChunkDescriptor>,
    positions: &Vec<usize>,
    marked: &Vec<bool>,
) -> (kept: Vec<usize>)
    requires
        increasing(positions@),
        forall|i: int|
            0 <= i < positions@.len() ==> (#[trigger] positions@[i]) < descriptors@.len(),
    ensures
        increasing(kept@),
        forall|p: usize|
            #[trigger] kept@.contains(p) <==> positions@.contains(p) && descriptors@[p as int].block
                < marked@.len() && marked@[descriptors@[p as int].block as int],
{
    let mut kept: Vec<usize> = Vec::new();
    let mut i: usize = 0;
    while i < positions.len()
        invariant
            i <= positions@.len(),
            increasing(positions@),
            forall|k: int|
                0 <= k < positions@.len() ==> (#[trigger] positions@[k]) < descriptors@.len(),
            increasing(kept@),
            forall|k: int|
                0 <= k < kept@.len() ==> positions@.take(i as int).contains(#[trigger] kept@[k]),
            forall|p: usize|
                #[trigger] kept@.contains(p) <==> positions@.take(i as int).contains(p)
                    && descriptors@[p as int].block < marked@.len()
                    && marked@[descriptors@[p as int].block as int],
        decreases positions.len() - i,
    {
        let p: usize = positions[i];
        let block: usize = descriptors[p].block;
        let ghost shorter = positions@.take(i as int);
        let ghost longer = positions@.take(i + 1);
        let ghost before = kept@;
        assert forall|q: usize| longer.contains(q) == (shorter.contains(q) || q == p) by {
            if shorter.contains(q) {
                assert(longer[shorter.index_of(q)] == q);
            }
            assert(longer[i as int] == p);
            if longer.contains(q) && q != p {
                assert(shorter[longer.index_of(q)] == q);
            }
        }
        if block < marked.len() && marked[block] {
            kept.push(p);
            assert forall|a: int, b: int| 0 <= a < b < kept@.len() implies #[trigger] kept@[a]
                < #[trigger] kept@[b] by {
                if b == before.len() {
                    assert(shorter.contains(before[a]));
                    let k = shorter.index_of(before[a]);
                    assert(positions@[k] < positions@[i as int]);
                }
            }
            assert forall|q: usize| #[trigger] kept@.contains(q) == (before.contains(q) || q
                == p) by {
                if before.contains(q) {
                    assert(kept@[before.index_of(q)] == q);
                }
                assert(kept@[before.len() as int] == p);
                if kept@.contains(q) && q != p {
                    assert(before[kept@.index_of(q)] == q);
                }
            }
        }
        assert forall|k: int| 0 <= k < kept@.len() implies longer.contains(#[trigger] kept@[k]) by {
            if k < before.len() {
                assert(shorter.contains(before[k]));
            }
        }
        i = i + 1;
    }
    assert(positions@.take(positions@.len() as int) =~= positions@);
    kept
}

/// A request for the names of labels, or for the values of one.
pub struct LabelRequest {
    pub start: i64,
    pub end: i64,
    pub matchers: Vec<LabelMatcher>,
    pub limit: i64,
    pub without_replica_labels: Vec<String>,
    pub hints: BlockHints,
}

/// The first names of a list. A limit that is not positive lets all pass.
pub open spec fn limited(names: Seq<Seq<char>>, limit: int) -> Seq<Seq<char>> {
    if limit <= 0 || limit >= names.len() {
        names
    } else {
        names.take(limit)
    }
}

/// The first names of a set in order. A limit that is not positive lets all pass.
pub fn take_limit(names: &NameSet, limit: i64) -> (list: Vec<String>)
    ensures
        name_views(list@) == limited(sorted_names(names@), limit as int),
{
    let mut list = names.to_list();
    let ghost all = sorted_names(names@);
    assert(name_views(list@).len() == list@.len());
    if limit > 0 && (limit as u64) < list.len() as u64 {
        let ghost before = list@;
        list.truncate(limit as usize);
        assert(name_views(list@) =~= all.take(limit as int));
    }
    list
}

/// A limit keeps the names in order and adds none: what it lets pass is the start of the list.
pub proof fn law_limit_keeps_the_start(names: Seq<Seq<char>>, limit: int)
    ensures
        limited(names, limit).is_prefix_of(names),
        limit > 0 ==> limited(names, limit).len() <= limit,
        limit <= 0 || limit >= names.len() ==> limited(names, limit) == names,
{
}

/// The names of the labels of the chunks at some positions, without those that are left out.
pub open spec fn names_at(
    descriptors: Seq<ChunkDescriptor>,
    positions: Seq<usize>,
    without: Seq<String>,
) -> Set<Seq<char>> {
    Set::new(
        |name: Seq<char>|
            !names_contain(without, name) && exists|i: int|
                0 <= i < positions.len() && descriptors[(#[trigger] positions[i]) as int].labels@.contains_key(
                    name,
                ),
    )
}

/// The values of a label of the chunks at some positions.
pub open spec fn values_at(
    descriptors: Seq<ChunkDescriptor>,
    positions: Seq<usize>,
    label: Seq<char>,
) -> Set<Seq<char>> {
    Set::new(
        |value: Seq<char>|
            exists|i: int|
                {
                    &&& 0 <= i < positions.len()
                    &&& descriptors[(#[trigger] positions[i]) as int].labels@.contains_key(label)
                    &&& descriptors[positions[i] as int].labels@[label] == value
                },
    )
}

fn add_names(names: &mut NameSet, labels: &Labels, without: &Vec<String>)
    ensures
        forall|name: Seq<char>|
            #[trigger] final(names)@.contains(name) <==> old(names)@.contains(name) || (
            !names_contain(without@, name) && labels@.contains_key(name)),
{
    let count: usize = labels.len();
    let ghost before = names@;
    let ghost pairs = labels.pairs();
    let mut i: usize = 0;
    while i < count
        invariant
            i <= count == pairs.len(),
            pairs == labels.pairs(),
            keys_increase(pairs),
            forall|name: Seq<char>|
                #[trigger] names@.contains(name) <==> before.contains(name) || (!names_contain(
                    without@,
                    name,
                ) && pairs_map(pairs.take(i as int)).contains_key(name)),
        decreases count - i,
    {
        proof {
            lemma_take_pairs(pairs, i as int);
        }
        let name = labels.key_at(i);
        if !list_contains(without, name.as_str()) {
            names.insert(name.clone());
        }
        i = i + 1;
    }
    assert(pairs.take(count as int) =~= pairs);
}

fn collect_names(
    descriptors: &Vec<ChunkDescriptor>,
    positions: &Vec<usize>,
    without: &Vec<String>,
) -> (names: NameSet)
    requires
        forall|i: int|
            0 <= i < positions@.len() ==> (#[trigger] positions@[i]) < descriptors@.len(),
    ensures
        names@ == names_at(descriptors@, positions@, without@),
{
    let mut names = NameSet::new();
    let mut i: usize = 0;
    while i < positions.len()
        invariant
            i <= positions@.len(),
            forall|k: int|
                0 <= k < positions@.len() ==> (#[trigger] positions@[k]) < descriptors@.len(),
            forall|name: Seq<char>|
                #[trigger] names@.contains(name) <==> names_at(
                    descriptors@,
                    positions@.take(i as int),
                    without@,
                ).contains(name),
        decreases positions.len() - i,
    {
        let ghost shorter = positions@.take(i as int);
        let ghost longer = positions@.take(i + 1);
        let ghost before = names@;
        let p: usize = positions[i];
        add_names(&mut names, &descriptors[p].labels, without);
        assert forall|name: Seq<char>| #[trigger]
            names@.contains(name) == names_at(descriptors@, longer, without@).contains(name) by {
            let inside = |k: int|
                descriptors@[positions@[k] as int].labels@.contains_key(name);
            if names_at(descriptors@, shorter, without@).contains(name) {
                let k = choose|k: int|
                    0 <= k < shorter.len()
                        && descriptors@[(#[trigger] shorter[k]) as int].labels@.contains_key(name);
                assert(longer[k] == shorter[k]);
            }
            if names_at(descriptors@, longer, without@).contains(name) {
                let k = choose|k: int|
                    0 <= k < longer.len()
                        && descriptors@[(#[trigger] longer[k]) as int].labels@.contains_key(name);
                if k < i {
                    assert(shorter[k] == longer[k]);
                }
            }
            assert(longer[i as int] == p);
            assert(before.contains(name) == names_at(descriptors@, shorter, without@).contains(
                name,
            ));
        }
        i = i + 1;
    }
    assert(positions@.take(positions@.len() as int) =~= positions@);
    assert(names@ =~= names_at(descriptors@, positions@, without@));
    names
}

fn collect_values(
    descriptors: &Vec<ChunkDescriptor>,
    positions: &Vec<usize>,
    label: &str,
) -> (values: NameSet)
    requires
        forall|i: int|
            0 <= i < positions@.len() ==> (#[trigger] positions@[i]) < descriptors@.len(),
    ensures
        values@ == values_at(descriptors@, positions@, label@),
{
    let mut values = NameSet::new();
    let mut i: usize = 0;
    while i < positions.len()
        invariant
            i <= positions@.len(),
            forall|k: int|
                0 <= k < positions@.len() ==> (#[trigger] positions@[k]) < descriptors@.len(),
            forall|value: Seq<char>|
                #[trigger] values@.contains(value) <==> values_at(
                    descriptors@,
                    positions@.take(i as int),
                    label@,
                ).contains(value),
        decreases positions.len() - i,
    {
        let ghost shorter = positions@.take(i as int);
        let ghost longer = positions@.take(i + 1);
        let ghost before = values@;
        let p: usize = positions[i];
        match descriptors[p].labels.get(label) {
            Some(value) => {
                values.insert(value.clone());
            },
            None => {},
        }
        assert forall|value: Seq<char>| #[trigger]
            values@.contains(value) == values_at(descriptors@, longer, label@).contains(value) by {
            if values_at(descriptors@, shorter, label@).contains(value) {
                let k = choose|k: int|
                    {
                        &&& 0 <= k < shorter.len()
                        &&& descriptors@[(#[trigger] shorter[k]) as int].labels@.contains_key(label@)
                        &&& descriptors@[shorter[k] as int].labels@[label@] == value
                    };
                assert(longer[k] == shorter[k]);
            }
            if values_at(descriptors@, longer, label@).contains(value) {
                let k = choose|k: int|
                    {
                        &&& 0 <= k < longer.len()
                        &&& descriptors@[(#[trigger] longer[k]) as int].labels@.contains_key(label@)
                        &&& descriptors@[longer[k] as int].labels@[label@] == value
                    };
                if k < i {
                    assert(shorter[k] == longer[k]);
                }
            }
            assert(longer[i as int] == p);
            assert(before.contains(value) == values_at(descriptors@, shorter, label@).contains(
                value,
            ));
        }
        i = i + 1;
    }
    assert(positions@.take(positions@.len() as int) =~= positions@);
    assert(values@ =~= values_at(descriptors@, positions@, label@));
    values
}

/// A request for labels reads a chunk: it selects it, and the block of the chunk satisfies the
/// conditions on blocks.
pub open spec fn reads(
    blocks: Seq<StoreBlock>,
    descriptor: ChunkDescriptor,
    request: LabelRequest,
    conditions: Seq<MatcherModel>,
    hints: Seq<MatcherModel>,
) -> bool {
    &&& selects(descriptor, request.start, request.end, conditions)
    &&& descriptor.block < blocks.len()
    &&& all_hold(block_labels(blocks[descriptor.block as int]), hints)
}

/// The names of the labels of all chunks that a request reads.
pub open spec fn selected_names(
    blocks: Seq<StoreBlock>,
    descriptors: Seq<ChunkDescriptor>,
    request: LabelRequest,
    conditions: Seq<MatcherModel>,
    hints: Seq<MatcherModel>,
) -> Set<Seq<char>> {
    Set::new(
        |name: Seq<char>|
            !names_contain(request.without_replica_labels@, name) && exists|p: int|
                {
                    &&& 0 <= p < descriptors.len()
                    &&& reads(blocks, #[trigger] descriptors[p], request, conditions, hints)
                    &&& descriptors[p].labels@.contains_key(name)
                },
    )
}

/// The values of a label of all chunks that a request reads.
pub open spec fn selected_values(
    blocks: Seq<StoreBlock>,
    descriptors: Seq<ChunkDescriptor>,
    request: LabelRequest,
    conditions: Seq<MatcherModel>,
    hints: Seq<MatcherModel>,
    label: Seq<char>,
) -> Set<Seq<char>> {
    Set::new(
        |value: Seq<char>|
            exists|p: int|
                {
                    &&& 0 <= p < descriptors.len()
                    &&& reads(blocks, #[trigger] descriptors[p], request, conditions, hints)
                    &&& descriptors[p].labels@.contains_key(label)
                    &&& descriptors[p].labels@[label] == value
                },
    )
}

/// The positions are those of the chunks that a request reads.
spec fn are_read(
    positions: Seq<usize>,
    blocks: Seq<StoreBlock>,
    descriptors: Seq<ChunkDescriptor>,
    request: LabelRequest,
    conditions: Seq<MatcherModel>,
    hints: Seq<MatcherModel>,
) -> bool {
    forall|p: usize|
        #[trigger] positions.contains(p) <==> p < descriptors.len() && reads(
            blocks,
            descriptors[p as int],
            request,
            conditions,
            hints,
        )
}

proof fn lemma_selected_names(
    positions: Seq<usize>,
    blocks: Seq<StoreBlock>,
    descriptors: Seq<ChunkDescriptor>,
    request: LabelRequest,
    conditions: Seq<MatcherModel>,
    hints: Seq<MatcherModel>,
)
    requires
        descriptors.len() <= usize::MAX,
        are_read(positions, blocks, descriptors, request, conditions, hints),
    ensures
        names_at(descriptors, positions, request.without_replica_labels@) == selected_names(
            blocks,
            descriptors,
            request,
            conditions,
            hints,
        ),
{
    let left = names_at(descriptors, positions, request.without_replica_labels@);
    let right = selected_names(blocks, descriptors, request, conditions, hints);
    assert forall|name: Seq<char>| left.contains(name) == right.contains(name) by {
        if left.contains(name) {
            let i = choose|i: int|
                0 <= i < positions.len()
                    && descriptors[(#[trigger] positions[i]) as int].labels@.contains_key(name);
            assert(positions.contains(positions[i]));
            let p = positions[i] as int;
            assert(reads(blocks, descriptors[p], request, conditions, hints));
        }
        if right.contains(name) {
            let p = choose|p: int|
                {
                    &&& 0 <= p < descriptors.len()
                    &&& reads(blocks, #[trigger] descriptors[p], request, conditions, hints)
                    &&& descriptors[p].labels@.contains_key(name)
                };
            assert(positions.contains(p as usize));
            let i = positions.index_of(p as usize);
            assert(positions[i] as int == p);
        }
    }
    assert(left =~= right);
}

proof fn lemma_selected_values(
    positions: Seq<usize>,
    blocks: Seq<StoreBlock>,
    descriptors: Seq<ChunkDescriptor>,
    request: LabelRequest,
    conditions: Seq<MatcherModel>,
    hints: Seq<MatcherModel>,
    label: Seq<char>,
)
    requires
        descriptors.len() <= usize::MAX,
        are_read(positions, blocks, descriptors, request, conditions, hints),
    ensures
        values_at(descriptors, positions, label) == selected_values(
            blocks,
            descriptors,
            request,
            conditions,
            hints,
            label,
        ),
{
    let left = values_at(descriptors, positions, label);
    let right = selected_values(blocks, descriptors, request, conditions, hints, label);
    assert forall|value: Seq<char>| left.contains(value) == right.contains(value) by {
        if left.contains(value) {
            let i = choose|i: int|
                {
                    &&& 0 <= i < positions.len()
                    &&& descriptors[(#[trigger] positions[i]) as int].labels@.contains_key(label)
                    &&& descriptors[positions[i] as int].labels@[label] == value
                };
            assert(positions.contains(positions[i]));
            let p = positions[i] as int;
            assert(reads(blocks, descriptors[p], request, conditions, hints));
        }
        if right.contains(value) {
            let p = choose|p: int|
                {
                    &&& 0 <= p < descriptors.len()
                    &&& reads(blocks, #[trigger] descriptors[p], request, conditions, hints)
                    &&& descriptors[p].labels@.contains_key(label)
                    &&& descriptors[p].labels@[label] == value
                };
            assert(positions.contains(p as usize));
            let i = positions.index_of(p as usize);
            assert(positions[i] as int == p);
        }
    }
    assert(left =~= right);
}

/// The conditions on series and on blocks that a request for labels states, for its kind.
pub open spec fn label_parts(request: LabelRequest, kind: Seq<char>) -> Result<
    (Seq<MatcherModel>, Seq<MatcherModel>),
    StoreErrorModel,
> {
    match hinted(request.hints, kind) {
        Err(error) => Err(error),
        Ok(hints) => match compiled_all(request.matchers@) {
            Err(error) => Err(error),
            Ok(conditions) => Ok((conditions, hints)),
        },
    }
}

/// The answer to a request for labels: the names or values, and the places of the blocks that were
/// read. A request that reads no block at all has none.
pub struct LabelAnswer {
    pub values: Vec<String>,
    pub blocks: Option<Vec<usize>>,
}

/// Finds the blocks and the chunks that a request for labels reads.
fn find_read(
    blocks: &Vec<StoreBlock>,
    descriptors: &Vec<ChunkDescriptor>,
    request: &LabelRequest,
    kind: &str,
) -> (result: Result<(Vec<usize>, Vec<usize>), StoreError>)
    ensures
        match result {
            Ok((places, positions)) => {
                &&& label_parts(*request, kind@) matches Ok((conditions, hints))
                &&& are_listed(
                    places@,
                    blocks@,
                    block_spans(blocks@, descriptors@),
                    Span::between(request.start, request.end),
                    conditions,
                    hints,
                )
                &&& are_read(positions@, blocks@, descriptors@, *request, conditions, hints)
                &&& forall|i: int|
                    0 <= i < positions@.len() ==> (#[trigger] positions@[i]) < descriptors@.len()
                &&& descriptors@.len() <= usize::MAX
            },
            Err(error) => label_parts(*request, kind@) == Err::<
                (Seq<MatcherModel>, Seq<MatcherModel>),
                StoreErrorModel,
            >(error@),
        },
{
    let hints = read_hints(&request.hints, kind)?;
    let matchers = compile_matchers(&request.matchers)?;
    let spans = find_spans(blocks, descriptors);
    let times = Span::of(request.start, request.end);
    let places = listed_blocks(blocks, &spans, times, &matchers, &hints);
    let marked = hinted_blocks(blocks, &hints);
    let selected = matching_descriptors(descriptors, request.start, request.end, &matchers);
    let _count: usize = descriptors.len();
    assert forall|i: int| 0 <= i < selected@.len() implies (#[trigger] selected@[i])
        < descriptors@.len() by {
        assert(selected@.contains(selected@[i]));
    }
    let positions = keep_marked(descriptors, &selected, &marked);
    proof {
        let conditions = matcher_models(matchers@);
        let wanted = matcher_models(hints@);
        assert forall|p: usize| #[trigger] positions@.contains(p) == (p < descriptors@.len()
            && reads(blocks@, descriptors@[p as int], *request, conditions, wanted)) by {
            if p < descriptors@.len() {
                let block = descriptors@[p as int].block;
                if block < blocks@.len() {
                    assert(marked@[block as int] == all_hold(
                        block_labels(blocks@[block as int]),
                        wanted,
                    ));
                }
                assert(selected@.contains(p) == selects(
                    descriptors@[p as int],
                    request.start,
                    request.end,
                    conditions,
                ));
            } else {
                assert(!selected@.contains(p));
            }
        }
        assert forall|i: int| 0 <= i < positions@.len() implies (#[trigger] positions@[i])
            < descriptors@.len() by {
            assert(positions@.contains(positions@[i]));
        }
    }
    Ok((places, positions))
}

/// Answers a request for the names of labels.
pub fn label_names(
    blocks: &Vec<StoreBlock>,
    descriptors: &Vec<ChunkDescriptor>,
    request: &LabelRequest,
) -> (result: Result<LabelAnswer, StoreError>)
    ensures
        match result {
            Ok(answer) => {
                &&& label_parts(*request, "label names"@) matches Ok((conditions, hints))
                &&& name_views(answer.values@) == limited(
                    sorted_names(
                        selected_names(blocks@, descriptors@, *request, conditions, hints),
                    ),
                    request.limit as int,
                )
                &&& answer.blocks matches Some(places)
                &&& are_listed(
                    places@,
                    blocks@,
                    block_spans(blocks@, descriptors@),
                    Span::between(request.start, request.end),
                    conditions,
                    hints,
                )
            },
            Err(error) => label_parts(*request, "label names"@) == Err::<
                (Seq<MatcherModel>, Seq<MatcherModel>),
                StoreErrorModel,
            >(error@),
        },
{
    let (places, positions) = find_read(blocks, descriptors, request, "label names")?;
    proof {
        let (conditions, hints) = label_parts(*request, "label names"@)->Ok_0;
        lemma_selected_names(
            positions@,
            blocks@,
            descriptors@,
            *request,
            conditions,
            hints,
        );
    }
    let names = collect_names(descriptors, &positions, &request.without_replica_labels);
    Ok(LabelAnswer { values: take_limit(&names, request.limit), blocks: Some(places) })
}

/// Answers a request for the values of a label. A label that is left out has no values, and no block
/// is read for it.
pub fn label_values(
    blocks: &Vec<StoreBlock>,
    descriptors: &Vec<ChunkDescriptor>,
    label: &str,
    request: &LabelRequest,
) -> (result: Result<LabelAnswer, StoreError>)
    ensures
        match result {
            Ok(answer) => if names_contain(request.without_replica_labels@, label@) {
                answer.values@.len() == 0 && answer.blocks is None
            } else {
                &&& label_parts(*request, "label values"@) matches Ok((conditions, hints))
                &&& name_views(answer.values@) == limited(
                    sorted_names(
                        selected_values(
                            blocks@,
                            descriptors@,
                            *request,
                            conditions,
                            hints,
                            label@,
                        ),
                    ),
                    request.limit as int,
                )
                &&& answer.blocks matches Some(places)
                &&& are_listed(
                    places@,
                    blocks@,
                    block_spans(blocks@, descriptors@),
                    Span::between(request.start, request.end),
                    conditions,
                    hints,
                )
            },
            Err(error) => {
                &&& !names_contain(request.without_replica_labels@, label@)
                &&& label_parts(*request, "label values"@) == Err::<
                    (Seq<MatcherModel>, Seq<MatcherModel>),
                    StoreErrorModel,
                >(error@)
            },
        },
{
    if list_contains(&request.without_replica_labels, label) {
        return Ok(LabelAnswer { values: Vec::new(), blocks: None });
    }
    let (places, positions) = find_read(blocks, descriptors, request, "label values")?;
    proof {
        let (conditions, hints) = label_parts(*request, "label values"@)->Ok_0;
        lemma_selected_values(
            positions@,
            blocks@,
            descriptors@,
            *request,
            conditions,
            hints,
            label@,
        );
    }
    let values = collect_values(descriptors, &positions, label);
    Ok(LabelAnswer { values: take_limit(&values, request.limit), blocks: Some(places) })
}

proof fn lemma_selected_names_are_finite(
    blocks: Seq<StoreBlock>,
    descriptors: Seq<ChunkDescriptor>,
    request: LabelRequest,
    conditions: Seq<MatcherModel>,
    hints: Seq<MatcherModel>,
)
    ensures
        selected_names(blocks, descriptors, request, conditions, hints).finite(),
    decreases descriptors.len(),
{
    let names = selected_names(blocks, descriptors, request, conditions, hints);
    if descriptors.len() == 0 {
        assert(names =~= Set::<Seq<char>>::empty());
    } else {
        let before = descriptors.drop_last();
        let last = descriptors.last();
        let rest = selected_names(blocks, before, request, conditions, hints);
        lemma_selected_names_are_finite(blocks, before, request, conditions, hints);
        lemma_pairs_map_is_finite(last.labels.pairs());
        let bound = rest.union(last.labels@.dom());
        assert forall|name: Seq<char>| names.contains(name) implies bound.contains(name) by {
            let p = choose|p: int|
                {
                    &&& 0 <= p < descriptors.len()
                    &&& reads(blocks, #[trigger] descriptors[p], request, conditions, hints)
                    &&& descriptors[p].labels@.contains_key(name)
                };
            if p < before.len() {
                assert(before[p] == descriptors[p]);
            }
        }
        vstd::set_lib::lemma_set_subset_finite(bound, names);
    }
}

proof fn lemma_selected_values_are_finite(
    blocks: Seq<StoreBlock>,
    descriptors: Seq<ChunkDescriptor>,
    request: LabelRequest,
    conditions: Seq<MatcherModel>,
    hints: Seq<MatcherModel>,
    label: Seq<char>,
)
    ensures
        selected_values(blocks, descriptors, request, conditions, hints, label).finite(),
    decreases descriptors.len(),
{
    let values = selected_values(blocks, descriptors, request, conditions, hints, label);
    if descriptors.len() == 0 {
        assert(values =~= Set::<Seq<char>>::empty());
    } else {
        let before = descriptors.drop_last();
        let rest = selected_values(blocks, before, request, conditions, hints, label);
        lemma_selected_values_are_finite(blocks, before, request, conditions, hints, label);
        let bound = rest.insert(descriptors.last().labels@[label]);
        assert forall|value: Seq<char>| values.contains(value) implies bound.contains(value) by {
            let p = choose|p: int|
                {
                    &&& 0 <= p < descriptors.len()
                    &&& reads(blocks, #[trigger] descriptors[p], request, conditions, hints)
                    &&& descriptors[p].labels@.contains_key(label)
                    &&& descriptors[p].labels@[label] == value
                };
            if p < before.len() {
                assert(before[p] == descriptors[p]);
            }
        }
        vstd::set_lib::lemma_set_subset_finite(bound, values);
    }
}

/// What a limit lets pass of the sorted names of a finite set.
proof fn lemma_limited_names(set: Set<Seq<char>>, limit: int)
    requires
        set.finite(),
    ensures
        names_increase(limited(sorted_names(set), limit)),
        forall|name: Seq<char>| #[trigger]
            limited(sorted_names(set), limit).contains(name) ==> set.contains(name),
        limit <= 0 ==> forall|name: Seq<char>| #[trigger]
            set.contains(name) ==> limited(sorted_names(set), limit).contains(name),
{
    lemma_sorted_names_are_all(set);
    let all = sorted_names(set);
    let some = limited(all, limit);
    assert forall|name: Seq<char>| #[trigger] some.contains(name) implies set.contains(name) by {
        assert(all[some.index_of(name)] == name);
        assert(all.to_set().contains(name));
    }
    if limit <= 0 {
        assert forall|name: Seq<char>| #[trigger] set.contains(name) implies some.contains(name) by {
            assert(all.to_set().contains(name));
        }
    }
}

/// A list of label names is in order and names no label twice. It holds names of labels of the
/// chunks that the request reads, none of them left out, and without a limit it holds them all.
pub proof fn law_label_names_are_complete(
    blocks: Seq<StoreBlock>,
    descriptors: Seq<ChunkDescriptor>,
    request: LabelRequest,
    conditions: Seq<MatcherModel>,
    hints: Seq<MatcherModel>,
    names: Seq<Seq<char>>,
)
    requires
        names == limited(
            sorted_names(selected_names(blocks, descriptors, request, conditions, hints)),
            request.limit as int,
        ),
    ensures
        names_increase(names),
        request.limit > 0 ==> names.len() <= request.limit,
        forall|name: Seq<char>| #[trigger]
            names.contains(name) ==> selected_names(
                blocks,
                descriptors,
                request,
                conditions,
                hints,
            ).contains(name) && !names_contain(request.without_replica_labels@, name),
        request.limit <= 0 ==> forall|name: Seq<char>| #[trigger]
            selected_names(blocks, descriptors, request, conditions, hints).contains(name)
                ==> names.contains(name),
{
    lemma_selected_names_are_finite(blocks, descriptors, request, conditions, hints);
    lemma_limited_names(
        selected_names(blocks, descriptors, request, conditions, hints),
        request.limit as int,
    );
}

/// A list of label values is in order and holds no value twice. It holds values that the label has
/// on the chunks that the request reads, and without a limit it holds them all.
pub proof fn law_label_values_are_complete(
    blocks: Seq<StoreBlock>,
    descriptors: Seq<ChunkDescriptor>,
    request: LabelRequest,
    conditions: Seq<MatcherModel>,
    hints: Seq<MatcherModel>,
    label: Seq<char>,
    values: Seq<Seq<char>>,
)
    requires
        values == limited(
            sorted_names(selected_values(blocks, descriptors, request, conditions, hints, label)),
            request.limit as int,
        ),
    ensures
        names_increase(values),
        request.limit > 0 ==> values.len() <= request.limit,
        forall|value: Seq<char>| #[trigger]
            values.contains(value) ==> selected_values(
                blocks,
                descriptors,
                request,
                conditions,
                hints,
                label,
            ).contains(value),
        request.limit <= 0 ==> forall|value: Seq<char>| #[trigger]
            selected_values(blocks, descriptors, request, conditions, hints, label).contains(value)
                ==> values.contains(value),
{
    lemma_selected_values_are_finite(blocks, descriptors, request, conditions, hints, label);
    lemma_limited_names(
        selected_values(blocks, descriptors, request, conditions, hints, label),
        request.limit as int,
    );
}

/// Without hints a request for labels reads every chunk that it selects, and the blocks of these
/// chunks hold a time of the request.
pub proof fn law_selected_chunks_are_read(
    blocks: Seq<StoreBlock>,
    descriptors: Seq<ChunkDescriptor>,
    p: int,
    request: LabelRequest,
    conditions: Seq<MatcherModel>,
)
    requires
        0 <= p < descriptors.len(),
        descriptors[p].block < blocks.len(),
        selects(descriptors[p], request.start, request.end, conditions),
    ensures
        reads(blocks, descriptors[p], request, conditions, Seq::empty()),
        meets(
            block_spans(blocks, descriptors)[descriptors[p].block as int],
            Span::between(request.start, request.end),
        ),
{
    let chunk = Span::between(descriptors[p].chunk_mint, descriptors[p].chunk_maxt);
    law_blocks_hold_their_chunks(blocks, descriptors, p, chunk.first as int);
    law_blocks_hold_their_chunks(blocks, descriptors, p, chunk.last as int);
}

/// A condition means what its kind says: 0 that the label has the value, 1 that it has another one, 2
/// that the whole value of the label matches the pattern, 3 that it does not. A label that is not
/// there has the empty value. Other kinds, and patterns that do not compile, are refused.
pub proof fn law_conditions_mean_their_kind(
    matcher: LabelMatcher,
    labels: Map<Seq<char>, Seq<char>>,
)
    ensures
        ({
            let value = if labels.contains_key(matcher.name@) {
                labels[matcher.name@]
            } else {
                Seq::empty()
            };
            let pattern = "^(?:"@ + matcher.value@ + ")$"@;
            match compiled(matcher) {
                Ok(condition) => {
                    &&& condition.label() == matcher.name@
                    &&& 0 <= matcher.kind <= 3
                    &&& matcher.kind >= 2 ==> regex_failure(pattern) is None
                    &&& matcher.kind == 0 ==> condition.holds(labels) == (value == matcher.value@)
                    &&& matcher.kind == 1 ==> condition.holds(labels) == (value != matcher.value@)
                    &&& matcher.kind == 2 ==> condition.holds(labels) == regex_matches(
                        pattern,
                        value,
                    )
                    &&& matcher.kind == 3 ==> condition.holds(labels) == !regex_matches(
                        pattern,
                        value,
                    )
                },
                Err(error) => {
                    ||| !(0 <= matcher.kind <= 3) && error is UnknownMatcherType
                    ||| (matcher.kind == 2 || matcher.kind == 3) && regex_failure(pattern) is Some
                        && error == StoreErrorModel::InvalidPattern(regex_failure(pattern)->Some_0)
                },
            }
        }),
{
}

/// The conditions of a request are those that it states, one for one and in their order; a request
/// with a condition that is refused is refused.
pub proof fn law_all_conditions_are_read(matchers: Seq<LabelMatcher>, i: int)
    requires
        0 <= i < matchers.len(),
    ensures
        compiled_all(matchers) matches Ok(conditions) ==> conditions.len() == matchers.len()
            && compiled(matchers[i]) == Ok::<MatcherModel, StoreErrorModel>(conditions[i]),
        compiled(matchers[i]) is Err ==> compiled_all(matchers) is Err,
    decreases matchers.len(),
{
    let rest = matchers.drop_last();
    if i < rest.len() {
        law_all_conditions_are_read(rest, i);
        assert(rest[i] == matchers[i]);
    } else if rest.len() > 0 {
        law_all_conditions_are_read(rest, rest.len() - 1);
    }
}

/// A request without conditions states none, and it is satisfied by all labels.
pub proof fn law_no_condition_excludes_nothing(labels: Map<Seq<char>, Seq<char>>)
    ensures
        compiled_all(Seq::empty()) == Ok::<Seq<MatcherModel>, StoreErrorModel>(Seq::empty()),
        all_hold(labels, Seq::empty()),
{
}

/// Labels satisfy conditions exactly if they satisfy each of them.
pub proof fn law_all_conditions_have_to_hold(
    labels: Map<Seq<char>, Seq<char>>,
    conditions: Seq<MatcherModel>,
    condition: MatcherModel,
)
    ensures
        all_hold(labels, conditions.push(condition)) <==> all_hold(labels, conditions)
            && condition.holds(labels),
{
    let more = conditions.push(condition);
    if all_hold(labels, more) {
        assert forall|i: int| 0 <= i < conditions.len() implies (
        #[trigger] conditions[i]).holds(labels) by {
            assert(more[i] == conditions[i]);
        }
        assert(more[conditions.len() as int].holds(labels));
    }
}

/// Two ranges of times overlap exactly if there is a time in both of them; the first and the last
/// time belong to a range.
pub proof fn law_overlapping_ranges_share_a_time(min: int, max: int, start: int, end: int)
    requires
        min <= max,
        start <= end,
    ensures
        ranges_overlap(min, max, start, end) <==> exists|time: int| #[trigger]
            in_range(time, min, max) && in_range(time, start, end),
{
    if ranges_overlap(min, max, start, end) {
        let time = if min >= start {
            min
        } else {
            start
        };
        assert(in_range(time, min, max) && in_range(time, start, end));
    }
}

/// A time lies in a range.
pub open spec fn in_range(time: int, first: int, last: int) -> bool {
    first <= time <= last
}

/// A request for labels reads a chunk exactly if the chunk overlaps its times, satisfies its
/// conditions and belongs to a block that satisfies the conditions on blocks.
pub proof fn law_read_chunks_are_asked_for(
    blocks: Seq<StoreBlock>,
    descriptor: ChunkDescriptor,
    request: LabelRequest,
    conditions: Seq<MatcherModel>,
    hints: Seq<MatcherModel>,
)
    ensures
        reads(blocks, descriptor, request, conditions, hints) <==> {
            &&& descriptor.chunk_mint <= request.end
            &&& request.start <= descriptor.chunk_maxt
            &&& forall|i: int|
                0 <= i < conditions.len() ==> (#[trigger] conditions[i]).holds(descriptor.labels@)
            &&& descriptor.block < blocks.len()
            &&& forall|i: int|
                0 <= i < hints.len() ==> (#[trigger] hints[i]).holds(
                    block_labels(blocks[descriptor.block as int]),
                )
        },
{
}

/// A name is found for a request exactly if a chunk that the request reads has a label of that name,
/// and the request does not leave it out.
pub proof fn law_found_names_are_those_of_read_chunks(
    blocks: Seq<StoreBlock>,
    descriptors: Seq<ChunkDescriptor>,
    request: LabelRequest,
    conditions: Seq<MatcherModel>,
    hints: Seq<MatcherModel>,
    name: Seq<char>,
)
    ensures
        selected_names(blocks, descriptors, request, conditions, hints).contains(name) <==> {
            &&& !name_views(request.without_replica_labels@).contains(name)
            &&& exists|p: int|
                {
                    &&& 0 <= p < descriptors.len()
                    &&& reads(blocks, #[trigger] descriptors[p], request, conditions, hints)
                    &&& descriptors[p].labels@.contains_key(name)
                }
        },
{
    let left_out = request.without_replica_labels@;
    let views = name_views(left_out);
    if names_contain(left_out, name) {
        let i = choose|i: int| 0 <= i < left_out.len() && (#[trigger] left_out[i])@ == name;
        assert(views[i] == name);
    }
    if views.contains(name) {
        assert(left_out[views.index_of(name)]@ == name);
    }
}

/// A value is found for a label exactly if a chunk that the request reads has the label with that
/// value.
pub proof fn law_found_values_are_those_of_read_chunks(
    blocks: Seq<StoreBlock>,
    descriptors: Seq<ChunkDescriptor>,
    request: LabelRequest,
    conditions: Seq<MatcherModel>,
    hints: Seq<MatcherModel>,
    label: Seq<char>,
    value: Seq<char>,
)
    ensures
        selected_values(blocks, descriptors, request, conditions, hints, label).contains(value)
            <==> exists|p: int|
            {
                &&& 0 <= p < descriptors.len()
                &&& reads(blocks, #[trigger] descriptors[p], request, conditions, hints)
                &&& descriptors[p].labels@.contains_pair(label, value)
            },
{
}

/// A request for labels is refused for hints that cannot be read first, and otherwise for the first of
/// its conditions that cannot be; else the conditions on series and those on blocks are its own.
pub proof fn law_label_requests_state_their_conditions(request: LabelRequest, kind: Seq<char>)
    ensures
        match (hinted(request.hints, kind), compiled_all(request.matchers@)) {
            (Err(error), _) => label_parts(request, kind) == Err::<
                (Seq<MatcherModel>, Seq<MatcherModel>),
                StoreErrorModel,
            >(error),
            (Ok(_), Err(error)) => label_parts(request, kind) == Err::<
                (Seq<MatcherModel>, Seq<MatcherModel>),
                StoreErrorModel,
            >(error),
            (Ok(hints), Ok(conditions)) => label_parts(request, kind) == Ok::<
                (Seq<MatcherModel>, Seq<MatcherModel>),
                StoreErrorModel,
            >((conditions, hints)),
        },
{
}

/// A limit on names that is positive lets as many pass as it says, if there are so many.
pub proof fn law_limits_count_names(names: Seq<Seq<char>>, limit: int, i: int)
    ensures
        0 < limit <= names.len() ==> limited(names, limit).len() == limit,
        0 <= i < limited(names, limit).len() ==> limited(names, limit)[i] == names[i],
{
}

} // verus!
