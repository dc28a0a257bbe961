//! Which chunks answer a request for series, and how they are put together.

use vstd::prelude::*;
use vstd::utf8::encode_utf8;

use crate::block_choice::{
    admitted_blocks, find_spans, marks, read_blocks, read_hints, BlockHints, BlockQuery, Span,
    StoreBlock,
};
#[allow(unused_imports)]
use crate::block_choice::{
    are_queried, block_spans, eligible, fills, hinted, is_coarser, is_covering, is_read,
    law_blocks_hold_their_chunks, law_no_covered_time_is_lost, read_before, same_set,
};
use crate::digest::{push_all, xxh64_hash};
#[allow(unused_imports)]
use crate::digest::xxh64;
#[allow(unused_imports)]
use crate::labels::{
    labels_without, lemma_pairs_lt_asymmetric, lemma_pairs_lt_total, lemma_pairs_lt_transitive,
    names_contain, pairs_lt,
};
use crate::labels::{compare_labels, copy_labels, list_contains, without_names, Labels};
#[allow(unused_imports)]
use crate::name_set::name_views;
use crate::sort::{stable_sort, Ranked};
#[allow(unused_imports)]
use crate::sort::{
    is_stable_sort, law_orders_are_unique, law_sort_keeps_values, sorted_by_places, stands_before,
    strictly_ordered,
};
#[allow(unused_imports)]
use crate::sorted_map::sorted_pairs;
use crate::store_service::{
    compile_matchers, keep_marked, matching_descriptors, ChunkDescriptor, LabelMatcher, StoreError,
};
#[allow(unused_imports)]
use crate::store_service::{
    compiled_all, increasing, matcher_models, selects, MatcherModel, StoreErrorModel,
};
use crate::text::Order;

verus! {

/// One of several parts that series are divided into by a hash of some of their labels.
pub struct ShardInfo {
    pub index: i64,
    pub total: i64,
    pub by: bool,
    pub labels: Vec<String>,
}

impl ShardInfo {
    /// A label takes part in the hash.
    pub open spec fn hashes(&self, name: Seq<char>) -> bool {
        self.by == names_contain(self.labels@, name)
    }

    /// The bytes that are hashed: the names and values of the labels that take part.
    pub open spec fn hashed_bytes(&self, pairs: Seq<(Seq<char>, Seq<char>)>) -> Seq<u8>
        decreases pairs.len(),
    {
        if pairs.len() == 0 {
            Seq::empty()
        } else {
            let rest = self.hashed_bytes(pairs.drop_last());
            if self.hashes(pairs.last().0) {
                rest + encode_utf8(pairs.last().0) + seq![0xffu8] + encode_utf8(pairs.last().1)
                    + seq![0xffu8]
            } else {
                rest
            }
        }
    }

    /// The hash of labels.
    pub open spec fn hash(&self, labels: Map<Seq<char>, Seq<char>>) -> u64 {
        xxh64(self.hashed_bytes(sorted_pairs(labels)))
    }

    /// A series belongs to the part. There are no parts where their number is not positive.
    pub open spec fn holds(&self, labels: Map<Seq<char>, Seq<char>>) -> bool {
        self.total <= 0 || self.hash(labels) as int % self.total as int == self.index
    }

    /// Whether a series belongs to the part.
    fn matches(&self, labels: &Labels) -> (result: bool)
        ensures
            result == self.holds(labels@),
    {
        if self.total <= 0 {
            return true;
        }
        let count: usize = labels.len();
        let ghost pairs = labels.pairs();
        let mut bytes: Vec<u8> = Vec::new();
        let mut i: usize = 0;
        assert(bytes@ =~= self.hashed_bytes(pairs.take(0)));
        while i < count
            invariant
                i <= count == pairs.len(),
                pairs == labels.pairs(),
                bytes@ == self.hashed_bytes(pairs.take(i as int)),
            decreases count - i,
        {
            assert(pairs.take(i + 1).drop_last() =~= pairs.take(i as int));
            assert(pairs.take(i + 1).last() == pairs[i as int]);
            let name = labels.key_at(i);
            if self.by == list_contains(&self.labels, name.as_str()) {
                let ghost before = bytes@;
                push_all(&mut bytes, name.as_str().as_bytes());
                bytes.push(0xff);
                push_all(&mut bytes, labels.value_at(i).as_str().as_bytes());
                bytes.push(0xff);
                assert(bytes@ =~= before + encode_utf8(pairs[i as int].0) + seq![0xffu8]
                    + encode_utf8(pairs[i as int].1) + seq![0xffu8]);
            }
            i = i + 1;
        }
        assert(pairs.take(count as int) =~= pairs);
        let hash: u64 = xxh64_hash(bytes.as_slice());
        if self.index < 0 {
            return false;
        }
        hash % (self.total as u64) == self.index as u64
    }
}

/// The parts divide the series: every series belongs to one part, and to no other.
pub proof fn law_shards_divide_series(
    total: i64,
    by: bool,
    names: Vec<String>,
    labels: Map<Seq<char>, Seq<char>>,
)
    requires
        total > 0,
    ensures
        exists|index: i64|
            0 <= index < total && #[trigger] (ShardInfo { index, total, by, labels: names }).holds(
                labels,
            ),
        forall|first: i64, second: i64|
            (#[trigger] (ShardInfo { index: first, total, by, labels: names }).holds(labels))
                && #[trigger] (ShardInfo { index: second, total, by, labels: names }).holds(labels)
                ==> first == second && 0 <= first < total,
{
    let any = ShardInfo { index: 0, total, by, labels: names };
    let index = (any.hash(labels) as int % total as int) as i64;
    assert forall|other: i64|
        (#[trigger] (ShardInfo { index: other, total, by, labels: names }).holds(labels)) == (other
            == index) by {
        let shard = ShardInfo { index: other, total, by, labels: names };
        lemma_index_is_not_hashed(any, shard, sorted_pairs(labels));
    }
    assert((ShardInfo { index, total, by, labels: names }).holds(labels));
}

proof fn lemma_index_is_not_hashed(
    first: ShardInfo,
    second: ShardInfo,
    pairs: Seq<(Seq<char>, Seq<char>)>,
)
    requires
        first.by == second.by,
        first.labels == second.labels,
    ensures
        first.hashed_bytes(pairs) == second.hashed_bytes(pairs),
    decreases pairs.len(),
{
    if pairs.len() > 0 {
        lemma_index_is_not_hashed(first, second, pairs.drop_last());
    }
}

/// Without a positive number of parts every series belongs to each part, and no series belongs to
/// a part with a number outside of the range.
pub proof fn law_shard_edges(shard: ShardInfo, labels: Map<Seq<char>, Seq<char>>)
    ensures
        shard.total <= 0 ==> shard.holds(labels),
        shard.total > 0 && !(0 <= shard.index < shard.total) ==> !shard.holds(labels),
{
}

/// The aggregates that a request asks for.
#[derive(Clone, Copy, Debug, PartialEq, Eq, Structural)]
pub struct AggregateSet {
    pub raw: bool,
    pub count: bool,
    pub sum: bool,
    pub min: bool,
    pub max: bool,
    pub counter: bool,
}

/// The aggregates that numbers stand for. Without a number the raw samples are asked for.
pub open spec fn requested(values: Seq<i32>) -> Result<AggregateSet, StoreErrorModel> {
    if exists|i: int| 0 <= i < values.len() && !(0 <= #[trigger] values[i] <= 5) {
        Err(StoreErrorModel::UnknownAggregate)
    } else {
        Ok(
            AggregateSet {
                raw: values.len() == 0 || values.contains(0),
                count: values.contains(1),
                sum: values.contains(2),
                min: values.contains(3),
                max: values.contains(4),
                counter: values.contains(5),
            },
        )
    }
}

/// Reads the aggregates that a request asks for.
pub fn aggregates(values: &Vec<i32>) -> (result: Result<AggregateSet, StoreError>)
    ensures
        match result {
            Ok(set) => requested(values@) == Ok::<AggregateSet, StoreErrorModel>(set),
            Err(error) => requested(values@) == Err::<AggregateSet, StoreErrorModel>(error@),
        },
{
    let mut set = AggregateSet {
        raw: values.len() == 0,
        count: false,
        sum: false,
        min: false,
        max: false,
        counter: false,
    };
    let mut i: usize = 0;
    while i < values.len()
        invariant
            i <= values@.len(),
            forall|k: int| 0 <= k < i ==> 0 <= #[trigger] values@[k] <= 5,
            set.raw == (values@.len() == 0 || values@.take(i as int).contains(0)),
            set.count == values@.take(i as int).contains(1),
            set.sum == values@.take(i as int).contains(2),
            set.min == values@.take(i as int).contains(3),
            set.max == values@.take(i as int).contains(4),
            set.counter == values@.take(i as int).contains(5),
        decreases values.len() - i,
    {
        let value: i32 = values[i];
        proof {
            let shorter = values@.take(i as int);
            let longer = values@.take(i + 1);
            assert(longer =~= shorter.push(value));
            assert forall|other: i32| longer.contains(other) == (shorter.contains(other) || other
                == value) by {
                if shorter.contains(other) {
                    assert(longer[shorter.index_of(other)] == other);
                }
                assert(longer[i as int] == value);
                if longer.contains(other) && other != value {
                    let k = longer.index_of(other);
                    assert(shorter[k] == other);
                }
            }
        }
        if value == 0 {
            set.raw = true;
        } else if value == 1 {
            set.count = true;
        } else if value == 2 {
            set.sum = true;
        } else if value == 3 {
            set.min = true;
        } else if value == 4 {
            set.max = true;
        } else if value == 5 {
            set.counter = true;
        } else {
            return Err(StoreError::UnknownAggregate);
        }
        i = i + 1;
    }
    assert(values@.take(values@.len() as int) =~= values@);
    Ok(set)
}

/// How many series a request lets pass. Zero lets all pass.
pub open spec fn series_limit(limit: i64) -> Result<u64, StoreErrorModel> {
    if limit < 0 {
        Err(StoreErrorModel::NegativeLimit)
    } else if limit == 0 {
        Ok(u64::MAX)
    } else {
        Ok(limit as u64)
    }
}

/// Reads how many series a request lets pass.
pub fn limit(value: i64) -> (result: Result<u64, StoreError>)
    ensures
        match result {
            Ok(count) => series_limit(value) == Ok::<u64, StoreErrorModel>(count),
            Err(error) => series_limit(value) == Err::<u64, StoreErrorModel>(error@),
        },
{
    if value < 0 {
        Err(StoreError::NegativeLimit)
    } else if value == 0 {
        Ok(u64::MAX)
    } else {
        Ok(value as u64)
    }
}

/// A request for series.
pub struct SeriesRequest {
    pub min_time: i64,
    pub max_time: i64,
    pub matchers: Vec<LabelMatcher>,
    pub aggregates: Vec<i32>,
    pub limit: i64,
    pub max_resolution_window: i64,
    pub without_replica_labels: Vec<String>,
    pub shard: Option<ShardInfo>,
    pub hints: BlockHints,
}

/// The chunks of one series, in the order of their times.
pub struct SeriesGroup {
    pub labels: Labels,
    pub chunks: Vec<usize>,
}

/// The series that answer a request, in the order of their labels, and the places of the blocks that
/// are read for them.
pub struct SeriesPlan {
    pub groups: Vec<SeriesGroup>,
    pub blocks: Vec<usize>,
    pub aggregates: AggregateSet,
    pub limit: u64,
}

/// The labels under which a request sees a chunk.
pub open spec fn series_key(descriptor: ChunkDescriptor, request: SeriesRequest) -> Map<
    Seq<char>,
    Seq<char>,
> {
    labels_without(descriptor.labels@, request.without_replica_labels@)
}

/// A series belongs to the part that is asked for, if one is.
pub open spec fn in_shard(labels: Map<Seq<char>, Seq<char>>, shard: Option<ShardInfo>) -> bool {
    match shard {
        Some(shard) => shard.holds(labels),
        None => true,
    }
}

/// A request selects a chunk. The conditions are those on all labels, the parts go by the labels
/// that the request sees.
pub open spec fn takes_part(
    descriptor: ChunkDescriptor,
    request: SeriesRequest,
    conditions: Seq<MatcherModel>,
) -> bool {
    &&& selects(descriptor, request.min_time, request.max_time, conditions)
    &&& in_shard(series_key(descriptor, request), request.shard)
}

/// The part of a request that goes to the blocks.
pub open spec fn block_query(request: SeriesRequest, raw: bool) -> BlockQuery {
    BlockQuery {
        times: Span::between(request.min_time, request.max_time),
        raw,
        window: request.max_resolution_window,
    }
}

/// A request for series with all that it goes by: the blocks and chunks that there are, the
/// conditions on series and on blocks, and whether raw samples are asked for.
pub struct SeriesQuery {
    pub blocks: Seq<StoreBlock>,
    pub descriptors: Seq<ChunkDescriptor>,
    pub request: SeriesRequest,
    pub conditions: Seq<MatcherModel>,
    pub hints: Seq<MatcherModel>,
    pub raw: bool,
}

impl SeriesQuery {
    /// The times that each of the blocks holds.
    pub open spec fn spans(&self) -> Seq<Span> {
        block_spans(self.blocks, self.descriptors)
    }

    /// The request reads a block.
    pub open spec fn reads_block(&self, b: int) -> bool {
        is_read(self.blocks, self.spans(), b, block_query(self.request, self.raw), self.hints)
    }

    /// A chunk answers the request: it takes part, and its block is one of those that are read.
    pub open spec fn is_chosen(&self, p: int) -> bool {
        &&& 0 <= p < self.descriptors.len()
        &&& takes_part(self.descriptors[p], self.request, self.conditions)
        &&& self.reads_block(self.descriptors[p].block as int)
    }

    /// The labels under which the request sees a chunk.
    pub open spec fn key(&self, p: int) -> Map<Seq<char>, Seq<char>> {
        series_key(self.descriptors[p], self.request)
    }
}

/// A chunk comes before another one: by its start, by its end, or by its place.
pub open spec fn chunk_before(descriptors: Seq<ChunkDescriptor>, p: usize, q: usize) -> bool {
    let a = descriptors[p as int];
    let b = descriptors[q as int];
    ||| a.chunk_mint < b.chunk_mint
    ||| a.chunk_mint == b.chunk_mint && a.chunk_maxt < b.chunk_maxt
    ||| a.chunk_mint == b.chunk_mint && a.chunk_maxt == b.chunk_maxt && p < q
}

/// The groups hold the chunks that answer a request: one group for each series, in the order of the
/// labels, and in it the chunks of the series in the order of their times.
pub open spec fn are_groups(groups: Seq<SeriesGroup>, query: SeriesQuery) -> bool {
    &&& forall|g: int|
        0 <= g < groups.len() ==> (#[trigger] groups[g]).chunks@.len() > 0
            && groups[g].labels.pairs() == sorted_pairs(groups[g].labels@)
    &&& forall|g: int, h: int|
        0 <= g < h < groups.len() ==> pairs_lt(
            (#[trigger] groups[g]).labels.pairs(),
            (#[trigger] groups[h]).labels.pairs(),
        )
    &&& forall|g: int, p: usize|
        0 <= g < groups.len() ==> (#[trigger] groups[g].chunks@.contains(p) <==> query.is_chosen(
            p as int,
        ) && query.key(p as int) == groups[g].labels@)
    &&& forall|p: int| #[trigger]
        query.is_chosen(p) ==> exists|g: int|
            0 <= g < groups.len() && (#[trigger] groups[g]).labels@ == query.key(p)
    &&& forall|g: int, i: int, j: int|
        0 <= g < groups.len() && 0 <= i < j < groups[g].chunks@.len() ==> chunk_before(
            query.descriptors,
            #[trigger] groups[g].chunks@[i],
            #[trigger] groups[g].chunks@[j],
        )
}

struct Candidate {
    labels: Labels,
    position: usize,
    mint: i64,
    maxt: i64,
}

impl Ranked for Candidate {
    closed spec fn before(&self, other: &Self) -> bool {
        ||| pairs_lt(self.labels.pairs(), other.labels.pairs())
        ||| {
            &&& self.labels.pairs() == other.labels.pairs()
            &&& self.mint < other.mint || self.mint == other.mint && self.maxt <= other.maxt
        }
    }

    proof fn lemma_total(a: &Self, b: &Self) {
        lemma_pairs_lt_total(a.labels.pairs(), b.labels.pairs());
    }

    proof fn lemma_transitive(a: &Self, b: &Self, c: &Self) {
        if pairs_lt(a.labels.pairs(), b.labels.pairs()) && pairs_lt(
            b.labels.pairs(),
            c.labels.pairs(),
        ) {
            lemma_pairs_lt_transitive(a.labels.pairs(), b.labels.pairs(), c.labels.pairs());
        }
    }

    fn may_precede(&self, other: &Self) -> (result: bool) {
        match compare_labels(&self.labels, &other.labels) {
            Order::Less => true,
            Order::Greater => {
                proof {
                    lemma_pairs_lt_asymmetric(other.labels.pairs(), self.labels.pairs());
                }
                false
            },
            Order::Equal => {
                proof {
                    lemma_pairs_lt_asymmetric(self.labels.pairs(), other.labels.pairs());
                }
                self.mint < other.mint || self.mint == other.mint && self.maxt <= other.maxt
            },
        }
    }
}

/// A candidate stands for a chunk that answers a request.
spec fn stands_for(candidate: Candidate, query: SeriesQuery) -> bool {
    let p = candidate.position as int;
    &&& query.is_chosen(p)
    &&& candidate.labels@ == query.key(p)
    &&& candidate.labels.pairs() == sorted_pairs(candidate.labels@)
    &&& candidate.mint == query.descriptors[p].chunk_mint
    &&& candidate.maxt == query.descriptors[p].chunk_maxt
}

/// The candidates are the chunks that answer a request.
spec fn are_candidates(candidates: Seq<Candidate>, query: SeriesQuery) -> bool {
    &&& forall|k: int| 0 <= k < candidates.len() ==> stands_for(#[trigger] candidates[k], query)
    &&& forall|p: int| #[trigger]
        query.is_chosen(p) ==> exists|k: int|
            0 <= k < candidates.len() && (#[trigger] candidates[k]).position == p
}

/// The positions are those of the chunks whose blocks are read and that a request selects.
spec fn are_read(positions: Seq<usize>, query: SeriesQuery) -> bool {
    &&& increasing(positions)
    &&& forall|p: usize|
        #[trigger] positions.contains(p) <==> p < query.descriptors.len() && selects(
            query.descriptors[p as int],
            query.request.min_time,
            query.request.max_time,
            query.conditions,
        ) && query.reads_block(query.descriptors[p as int].block as int)
}

fn candidate_at(
    descriptors: &Vec<ChunkDescriptor>,
    p: usize,
    request: &SeriesRequest,
    Ghost(query): Ghost<SeriesQuery>,
) -> (candidate: Option<Candidate>)
    requires
        p < descriptors@.len(),
        query.descriptors == descriptors@,
        query.request == *request,
        selects(
            descriptors@[p as int],
            request.min_time,
            request.max_time,
            query.conditions,
        ),
        query.reads_block(descriptors@[p as int].block as int),
    ensures
        match candidate {
            Some(candidate) => candidate.position == p && stands_for(candidate, query),
            None => !query.is_chosen(p as int),
        },
{
    let descriptor = &descriptors[p];
    let labels = without_names(&descriptor.labels, &request.without_replica_labels);
    let _size: usize = labels.len();
    let inside: bool = match &request.shard {
        Some(shard) => shard.matches(&labels),
        None => true,
    };
    if inside {
        Some(
            Candidate {
                labels,
                position: p,
                mint: descriptor.chunk_mint,
                maxt: descriptor.chunk_maxt,
            },
        )
    } else {
        None
    }
}

fn collect_candidates(
    descriptors: &Vec<ChunkDescriptor>,
    positions: &Vec<usize>,
    request: &SeriesRequest,
    Ghost(query): Ghost<SeriesQuery>,
) -> (candidates: Vec<Candidate>)
    requires
        query.descriptors == descriptors@,
        query.request == *request,
        are_read(positions@, query),
    ensures
        are_candidates(candidates@, query),
        forall|i: int, j: int|
            0 <= i < j < candidates@.len() ==> (#[trigger] candidates@[i]).position < (
            #[trigger] candidates@[j]).position,
{
    let mut candidates: Vec<Candidate> = Vec::new();
    let ghost mut from: Seq<int> = Seq::empty();
    let mut i: usize = 0;
    let _count: usize = descriptors.len();
    while i < positions.len()
        invariant
            i <= positions@.len(),
            query.descriptors == descriptors@,
            query.request == *request,
            are_read(positions@, query),
            from.len() == candidates@.len(),
            forall|k: int|
                0 <= k < from.len() ==> 0 <= #[trigger] from[k] < i && candidates@[k].position
                    == positions@[from[k]],
            forall|a: int, b: int|
                0 <= a < b < from.len() ==> #[trigger] from[a] < #[trigger] from[b],
            forall|k: int|
                0 <= k < candidates@.len() ==> stands_for(#[trigger] candidates@[k], query),
            forall|m: int|
                0 <= m < i && query.is_chosen((#[trigger] positions@[m]) as int) ==> from.contains(
                    m,
                ),
        decreases positions.len() - i,
    {
        let p: usize = positions[i];
        assert(positions@.contains(p));
        let ghost before = from;
        match candidate_at(descriptors, p, request, Ghost(query)) {
            Some(candidate) => {
                candidates.push(candidate);
                proof {
                    from = from.push(i as int);
                    assert(from[before.len() as int] == i);
                    assert forall|m: int| before.contains(m) implies from.contains(m) by {
                        assert(from[before.index_of(m)] == m);
                    }
                }
            },
            None => {},
        }
        i = i + 1;
    }
    proof {
        assert forall|p: int| #[trigger] query.is_chosen(p) implies exists|k: int|
            0 <= k < candidates@.len() && (#[trigger] candidates@[k]).position == p by {
            assert(positions@.contains(p as usize));
            let m = positions@.index_of(p as usize);
            assert(positions@[m] == p as usize);
            let k = from.index_of(m);
            assert(from[k] == m);
            assert(candidates@[k].position == p);
        }
        assert forall|a: int, b: int| 0 <= a < b < candidates@.len() implies (
        #[trigger] candidates@[a]).position < (#[trigger] candidates@[b]).position by {
            assert(from[a] < from[b]);
            assert(positions@[from[a]] < positions@[from[b]]);
        }
    }
    candidates
}

/// Of two candidates the first comes before the second.
spec fn comes_first(a: Candidate, b: Candidate) -> bool {
    ||| pairs_lt(a.labels.pairs(), b.labels.pairs())
    ||| {
        &&& a.labels.pairs() == b.labels.pairs()
        &&& a.mint < b.mint || a.mint == b.mint && (a.maxt < b.maxt || a.maxt == b.maxt
            && a.position < b.position)
    }
}

spec fn in_order(candidates: Seq<Candidate>) -> bool {
    forall|i: int, j: int|
        0 <= i < j < candidates.len() ==> comes_first(
            #[trigger] candidates[i],
            #[trigger] candidates[j],
        )
}

proof fn lemma_sorted_candidates(
    candidates: Seq<Candidate>,
    sorted: Seq<Candidate>,
    query: SeriesQuery,
)
    requires
        are_candidates(candidates, query),
        is_stable_sort(candidates, sorted),
        forall|i: int, j: int|
            0 <= i < j < candidates.len() ==> (#[trigger] candidates[i]).position < (
            #[trigger] candidates[j]).position,
    ensures
        in_order(sorted),
        are_candidates(sorted, query),
{
    let places = choose|places: Seq<int>| #[trigger] sorted_by_places(candidates, sorted, places);
    law_sort_keeps_values(candidates, sorted, places);
    assert forall|i: int, j: int| 0 <= i < j < sorted.len() implies comes_first(
        #[trigger] sorted[i],
        #[trigger] sorted[j],
    ) by {
        let a = sorted[i];
        let b = sorted[j];
        assert(stands_before(a, places[i], b, places[j]));
        assert(a == candidates[places[i]] && b == candidates[places[j]]);
        if b.before(&a) {
            assert(candidates[places[i]].position < candidates[places[j]].position);
        }
    }
    assert forall|k: int| 0 <= k < sorted.len() implies stands_for(#[trigger] sorted[k], query) by {
        assert(sorted[k] == candidates[places[k]]);
    }
    assert forall|p: int| #[trigger] query.is_chosen(p) implies exists|k: int|
        0 <= k < sorted.len() && (#[trigger] sorted[k]).position == p by {
        let m = choose|m: int|
            0 <= m < candidates.len() && (#[trigger] candidates[m]).position == p;
        assert(places.contains(m));
        let k = places.index_of(m);
        assert(sorted[k] == candidates[places[k]]);
    }
}

/// The candidates from `start` up to `end` are those of one series.
spec fn is_run(sorted: Seq<Candidate>, start: int, end: int) -> bool {
    &&& 0 <= start < end <= sorted.len()
    &&& forall|k: int|
        0 <= k < sorted.len() ==> ((#[trigger] sorted[k]).labels.pairs()
            == sorted[start].labels.pairs() <==> start <= k < end)
}

fn find_run(sorted: &Vec<Candidate>, start: usize) -> (end: usize)
    requires
        in_order(sorted@),
        start < sorted@.len(),
        forall|k: int|
            0 <= k < start ==> (#[trigger] sorted@[k]).labels.pairs()
                != sorted@[start as int].labels.pairs(),
    ensures
        is_run(sorted@, start as int, end as int),
{
    let ghost first = sorted@[start as int].labels.pairs();
    let count: usize = sorted.len();
    let mut end: usize = start + 1;
    while end < count
        invariant_except_break
            start < end <= sorted@.len(),
        invariant
            in_order(sorted@),
            start < sorted@.len() == count,
            first == sorted@[start as int].labels.pairs(),
            start < end <= sorted@.len(),
            forall|k: int| start <= k < end ==> (#[trigger] sorted@[k]).labels.pairs() == first,
        ensures
            end < sorted@.len() ==> sorted@[end as int].labels.pairs() != first,
        decreases count - end,
    {
        match compare_labels(&sorted[start].labels, &sorted[end].labels) {
            Order::Equal => {},
            Order::Less => {
                proof {
                    lemma_pairs_lt_asymmetric(first, sorted@[end as int].labels.pairs());
                }
                break;
            },
            Order::Greater => {
                proof {
                    lemma_pairs_lt_asymmetric(sorted@[end as int].labels.pairs(), first);
                }
                break;
            },
        }
        end = end + 1;
    }
    proof {
        assert forall|k: int| end <= k < sorted@.len() implies (
        #[trigger] sorted@[k]).labels.pairs() != first by {
            let next = sorted@[end as int].labels.pairs();
            assert(comes_first(sorted@[start as int], sorted@[end as int]));
            assert(pairs_lt(first, next));
            if k > end {
                assert(comes_first(sorted@[end as int], sorted@[k]));
                let other = sorted@[k].labels.pairs();
                if pairs_lt(next, other) {
                    lemma_pairs_lt_transitive(first, next, other);
                }
                lemma_pairs_lt_asymmetric(first, other);
            } else {
                lemma_pairs_lt_asymmetric(first, next);
            }
        }
    }
    end
}

/// One of the candidates from `start` up to `end` has a position and labels.
spec fn found_in(
    sorted: Seq<Candidate>,
    start: int,
    end: int,
    p: usize,
    pairs: Seq<(Seq<char>, Seq<char>)>,
) -> bool {
    exists|k: int|
        {
            &&& start <= k < end
            &&& (#[trigger] sorted[k]).position == p
            &&& sorted[k].labels.pairs() == pairs
        }
}

fn group_of_run(sorted: &Vec<Candidate>, start: usize, end: usize) -> (group: SeriesGroup)
    requires
        is_run(sorted@, start as int, end as int),
    ensures
        group.labels.pairs() == sorted@[start as int].labels.pairs(),
        group.labels@ == sorted@[start as int].labels@,
        group.chunks@.len() == end - start,
        forall|i: int|
            0 <= i < group.chunks@.len() ==> #[trigger] group.chunks@[i] == sorted@[start
                + i].position,
{
    let mut chunks: Vec<usize> = Vec::new();
    let mut i: usize = start;
    while i < end
        invariant
            start <= i <= end <= sorted@.len(),
            chunks@.len() == i - start,
            forall|k: int|
                0 <= k < chunks@.len() ==> #[trigger] chunks@[k] == sorted@[start + k].position,
        decreases end - i,
    {
        chunks.push(sorted[i].position);
        i = i + 1;
    }
    SeriesGroup { labels: copy_labels(&sorted[start].labels), chunks }
}

/// A candidate before `end` has labels.
spec fn seen_before(
    sorted: Seq<Candidate>,
    end: int,
    pairs: Seq<(Seq<char>, Seq<char>)>,
) -> bool {
    exists|k: int| 0 <= k < end && (#[trigger] sorted[k]).labels.pairs() == pairs
}

/// The groups hold the candidates before `end`.
spec fn groups_hold(groups: Seq<SeriesGroup>, sorted: Seq<Candidate>, end: int) -> bool {
    &&& forall|g: int|
        0 <= g < groups.len() ==> (#[trigger] groups[g]).chunks@.len() > 0
            && groups[g].labels.pairs() == sorted_pairs(groups[g].labels@)
    &&& forall|g: int, h: int|
        0 <= g < h < groups.len() ==> pairs_lt(
            (#[trigger] groups[g]).labels.pairs(),
            (#[trigger] groups[h]).labels.pairs(),
        )
    &&& forall|g: int|
        0 <= g < groups.len() ==> seen_before(sorted, end, (#[trigger] groups[g]).labels.pairs())
    &&& forall|g: int, p: usize|
        0 <= g < groups.len() ==> (#[trigger] groups[g].chunks@.contains(p) <==> found_in(
            sorted,
            0,
            end,
            p,
            groups[g].labels.pairs(),
        ))
    &&& forall|k: int|
        0 <= k < end ==> exists|g: int|
            0 <= g < groups.len() && (#[trigger] groups[g]).labels.pairs() == (
            #[trigger] sorted[k]).labels.pairs()
    &&& forall|g: int, i: int, j: int|
        0 <= g < groups.len() && 0 <= i < j < groups[g].chunks@.len() ==> found_with(
            sorted,
            groups[g].labels.pairs(),
            #[trigger] groups[g].chunks@[i],
            #[trigger] groups[g].chunks@[j],
        )
}

/// Two positions of candidates of a series stand in this order.
spec fn found_with(
    sorted: Seq<Candidate>,
    pairs: Seq<(Seq<char>, Seq<char>)>,
    p: usize,
    q: usize,
) -> bool {
    exists|k: int, m: int|
        {
            &&& 0 <= k < m < sorted.len()
            &&& (#[trigger] sorted[k]).position == p
            &&& (#[trigger] sorted[m]).position == q
            &&& sorted[k].labels.pairs() == pairs
            &&& sorted[m].labels.pairs() == pairs
        }
}

proof fn lemma_add_group(
    groups: Seq<SeriesGroup>,
    group: SeriesGroup,
    sorted: Seq<Candidate>,
    start: int,
    end: int,
)
    requires
        in_order(sorted),
        groups_hold(groups, sorted, start),
        is_run(sorted, start, end),
        group.labels.pairs() == sorted[start].labels.pairs(),
        group.labels.pairs() == sorted_pairs(group.labels@),
        group.chunks@.len() == end - start,
        forall|i: int|
            0 <= i < group.chunks@.len() ==> #[trigger] group.chunks@[i] == sorted[start
                + i].position,
    ensures
        groups_hold(groups.push(group), sorted, end),
{
    let grown = groups.push(group);
    let last = groups.len() as int;
    let pairs = group.labels.pairs();
    assert forall|g: int, h: int| 0 <= g < h < grown.len() implies pairs_lt(
        (#[trigger] grown[g]).labels.pairs(),
        (#[trigger] grown[h]).labels.pairs(),
    ) by {
        if h == last {
            let k = choose|k: int|
                0 <= k < start && (#[trigger] sorted[k]).labels.pairs() == groups[g].labels.pairs();
            assert(comes_first(sorted[k], sorted[start]));
        }
    }
    assert forall|g: int| 0 <= g < grown.len() implies seen_before(
        sorted,
        end,
        (#[trigger] grown[g]).labels.pairs(),
    ) by {
        if g < last {
            assert(seen_before(sorted, start, groups[g].labels.pairs()));
            let k = choose|k: int|
                0 <= k < start && (#[trigger] sorted[k]).labels.pairs() == groups[g].labels.pairs();
            assert(sorted[k].labels.pairs() == grown[g].labels.pairs());
        } else {
            assert(sorted[start].labels.pairs() == grown[g].labels.pairs());
        }
    }
    assert forall|g: int, p: usize| 0 <= g < grown.len() implies (
    #[trigger] grown[g].chunks@.contains(p) == found_in(
        sorted,
        0,
        end,
        p,
        grown[g].labels.pairs(),
    )) by {
        if g < last {
            let other = groups[g].labels.pairs();
            let k = choose|k: int|
                0 <= k < start && (#[trigger] sorted[k]).labels.pairs() == groups[g].labels.pairs();
            assert(other != pairs);
            assert(groups[g].chunks@.contains(p) == found_in(sorted, 0, start, p, other));
        } else {
            if group.chunks@.contains(p) {
                let i = group.chunks@.index_of(p);
                assert(group.chunks@[i] == p);
                assert(sorted[start + i].position == p);
                assert(sorted[start + i].labels.pairs() == pairs);
            }
            if found_in(sorted, 0, end, p, pairs) {
                let k = choose|k: int|
                    {
                        &&& 0 <= k < end
                        &&& (#[trigger] sorted[k]).position == p
                        &&& sorted[k].labels.pairs() == pairs
                    };
                assert(start <= k);
                assert(group.chunks@[k - start] == p);
            }
        }
    }
    assert forall|k: int| 0 <= k < end implies exists|g: int|
        0 <= g < grown.len() && (#[trigger] grown[g]).labels.pairs() == (
        #[trigger] sorted[k]).labels.pairs() by {
        if k < start {
            let g = choose|g: int|
                0 <= g < groups.len() && (#[trigger] groups[g]).labels.pairs() == (
                sorted[k]).labels.pairs();
            assert(grown[g] == groups[g]);
        } else {
            assert(grown[last].labels.pairs() == sorted[k].labels.pairs());
        }
    }
    assert forall|g: int, i: int, j: int|
        0 <= g < grown.len() && 0 <= i < j < grown[g].chunks@.len() implies found_with(
        sorted,
        grown[g].labels.pairs(),
        #[trigger] grown[g].chunks@[i],
        #[trigger] grown[g].chunks@[j],
    ) by {
        if g < last {
            assert(grown[g] == groups[g]);
            assert(found_with(
                sorted,
                groups[g].labels.pairs(),
                groups[g].chunks@[i],
                groups[g].chunks@[j],
            ));
        } else {
            assert(sorted[start + i].position == group.chunks@[i]);
            assert(sorted[start + j].position == group.chunks@[j]);
            assert(sorted[start + i].labels.pairs() == pairs);
            assert(sorted[start + j].labels.pairs() == pairs);
        }
    }
}

fn group_candidates(sorted: &Vec<Candidate>) -> (groups: Vec<SeriesGroup>)
    requires
        in_order(sorted@),
    ensures
        groups_hold(groups@, sorted@, sorted@.len() as int),
{
    let mut groups: Vec<SeriesGroup> = Vec::new();
    let mut start: usize = 0;
    while start < sorted.len()
        invariant
            start <= sorted@.len(),
            in_order(sorted@),
            groups_hold(groups@, sorted@, start as int),
            start < sorted@.len() ==> forall|k: int|
                0 <= k < start ==> (#[trigger] sorted@[k]).labels.pairs()
                    != sorted@[start as int].labels.pairs(),
        decreases sorted.len() - start,
    {
        let end: usize = find_run(sorted, start);
        let group = group_of_run(sorted, start, end);
        let _size: usize = group.labels.len();
        proof {
            lemma_add_group(groups@, group, sorted@, start as int, end as int);
        }
        groups.push(group);
        proof {
            if end < sorted@.len() {
                assert forall|k: int| 0 <= k < end implies (#[trigger] sorted@[k]).labels.pairs()
                    != sorted@[end as int].labels.pairs() by {
                    let next = sorted@[end as int].labels.pairs();
                    if k < start {
                        assert(comes_first(sorted@[k], sorted@[start as int]));
                        assert(comes_first(sorted@[start as int], sorted@[end as int]));
                        lemma_pairs_lt_transitive(
                            sorted@[k].labels.pairs(),
                            sorted@[start as int].labels.pairs(),
                            next,
                        );
                        lemma_pairs_lt_asymmetric(sorted@[k].labels.pairs(), next);
                    }
                }
            }
        }
        start = end;
    }
    groups
}

proof fn lemma_groups(groups: Seq<SeriesGroup>, sorted: Seq<Candidate>, query: SeriesQuery)
    requires
        query.descriptors.len() <= usize::MAX,
        in_order(sorted),
        are_candidates(sorted, query),
        groups_hold(groups, sorted, sorted.len() as int),
    ensures
        are_groups(groups, query),
{
    let n = sorted.len() as int;
    assert forall|g: int, p: usize| 0 <= g < groups.len() implies (
    #[trigger] groups[g].chunks@.contains(p) == (query.is_chosen(p as int) && query.key(p as int)
        == groups[g].labels@)) by {
        let pairs = groups[g].labels.pairs();
        assert(groups[g].chunks@.contains(p) == found_in(sorted, 0, n, p, pairs));
        if groups[g].chunks@.contains(p) {
            let k = choose|k: int|
                {
                    &&& 0 <= k < n
                    &&& (#[trigger] sorted[k]).position == p
                    &&& sorted[k].labels.pairs() == pairs
                };
            assert(stands_for(sorted[k], query));
            lemma_same_pairs(sorted[k].labels, groups[g].labels);
        }
        if query.is_chosen(p as int) && query.key(p as int) == groups[g].labels@ {
            let k = choose|k: int| 0 <= k < n && (#[trigger] sorted[k]).position == p as int;
            assert(stands_for(sorted[k], query));
            assert(sorted[k].labels.pairs() == pairs);
        }
    }
    assert forall|p: int| #[trigger] query.is_chosen(p) implies exists|g: int|
        0 <= g < groups.len() && (#[trigger] groups[g]).labels@ == query.key(p) by {
        let k = choose|k: int| 0 <= k < n && (#[trigger] sorted[k]).position == p;
        assert(stands_for(sorted[k], query));
        let g = choose|g: int|
            0 <= g < groups.len() && (#[trigger] groups[g]).labels.pairs() == (
            sorted[k]).labels.pairs();
        lemma_same_pairs(sorted[k].labels, groups[g].labels);
        assert(groups[g].labels@ == query.key(p));
    }
    assert forall|g: int, i: int, j: int|
        0 <= g < groups.len() && 0 <= i < j < groups[g].chunks@.len() implies chunk_before(
        query.descriptors,
        #[trigger] groups[g].chunks@[i],
        #[trigger] groups[g].chunks@[j],
    ) by {
        let pairs = groups[g].labels.pairs();
        let p = groups[g].chunks@[i];
        let q = groups[g].chunks@[j];
        assert(found_with(sorted, pairs, p, q));
        let (k, m) = choose|k: int, m: int|
            {
                &&& 0 <= k < m < sorted.len()
                &&& (#[trigger] sorted[k]).position == p
                &&& (#[trigger] sorted[m]).position == q
                &&& sorted[k].labels.pairs() == pairs
                &&& sorted[m].labels.pairs() == pairs
            };
        assert(comes_first(sorted[k], sorted[m]));
        lemma_pairs_lt_asymmetric(pairs, pairs);
        assert(stands_for(sorted[k], query));
        assert(stands_for(sorted[m], query));
    }
}

proof fn lemma_same_pairs(first: Labels, second: Labels)
    requires
        first.pairs() == second.pairs(),
    ensures
        first@ == second@,
{
}

/// What a request asks for.
pub struct RequestParts {
    pub conditions: Seq<MatcherModel>,
    pub hints: Seq<MatcherModel>,
    pub aggregates: AggregateSet,
    pub limit: u64,
}

/// What a request asks for, or why it is refused.
pub open spec fn request_parts(request: SeriesRequest) -> Result<RequestParts, StoreErrorModel> {
    match hinted(request.hints, "series"@) {
        Err(error) => Err(error),
        Ok(hints) => match compiled_all(request.matchers@) {
            Err(error) => Err(error),
            Ok(conditions) => match requested(request.aggregates@) {
                Err(error) => Err(error),
                Ok(aggregates) => match series_limit(request.limit) {
                    Err(error) => Err(error),
                    Ok(limit) => Ok(RequestParts { conditions, hints, aggregates, limit }),
                },
            },
        },
    }
}

/// The request with all that it goes by.
pub open spec fn series_query(
    blocks: Seq<StoreBlock>,
    descriptors: Seq<ChunkDescriptor>,
    request: SeriesRequest,
    parts: RequestParts,
) -> SeriesQuery {
    SeriesQuery {
        blocks,
        descriptors,
        request,
        conditions: parts.conditions,
        hints: parts.hints,
        raw: parts.aggregates.raw,
    }
}

/// The plan is the one that answers a request.
pub open spec fn is_plan(
    plan: SeriesPlan,
    blocks: Seq<StoreBlock>,
    descriptors: Seq<ChunkDescriptor>,
    request: SeriesRequest,
    parts: RequestParts,
) -> bool {
    &&& plan.aggregates == parts.aggregates
    &&& plan.limit == parts.limit
    &&& are_queried(
        plan.blocks@,
        blocks,
        block_spans(blocks, descriptors),
        block_query(request, parts.aggregates.raw),
        parts.conditions,
        parts.hints,
    )
    &&& are_groups(plan.groups@, series_query(blocks, descriptors, request, parts))
}

/// Finds the blocks and the chunks that answer a request.
pub fn plan_series(
    blocks: &Vec<StoreBlock>,
    descriptors: &Vec<ChunkDescriptor>,
    request: &SeriesRequest,
) -> (result: Result<SeriesPlan, StoreError>)
    ensures
        match result {
            Ok(plan) => {
                &&& request_parts(*request) matches Ok(parts)
                &&& is_plan(plan, blocks@, descriptors@, *request, parts)
            },
            Err(error) => request_parts(*request) == Err::<RequestParts, StoreErrorModel>(error@),
        },
{
    let hints = read_hints(&request.hints, "series")?;
    let matchers = compile_matchers(&request.matchers)?;
    let aggregates = aggregates(&request.aggregates)?;
    let limit: u64 = limit(request.limit)?;
    let ghost parts = RequestParts {
        conditions: matcher_models(matchers@),
        hints: matcher_models(hints@),
        aggregates,
        limit,
    };
    let ghost query = series_query(blocks@, descriptors@, *request, parts);
    let asked = BlockQuery {
        times: Span::of(request.min_time, request.max_time),
        raw: aggregates.raw,
        window: request.max_resolution_window,
    };
    let spans = find_spans(blocks, descriptors);
    let places = read_blocks(blocks, &spans, &asked, &hints);
    let marked = marks(&places, blocks.len());
    let selected = matching_descriptors(
        descriptors,
        request.min_time,
        request.max_time,
        &matchers,
    );
    let _count: usize = descriptors.len();
    assert forall|i: int| 0 <= i < selected@.len() implies (#[trigger] selected@[i])
        < descriptors@.len() by {
        assert(selected@.contains(selected@[i]));
    }
    let positions = keep_marked(descriptors, &selected, &marked);
    proof {
        assert forall|p: usize| #[trigger] positions@.contains(p) == (p < descriptors@.len()
            && selects(
            descriptors@[p as int],
            request.min_time,
            request.max_time,
            query.conditions,
        ) && query.reads_block(descriptors@[p as int].block as int)) by {
            assert(selected@.contains(p) == (p < descriptors@.len() && selects(
                descriptors@[p as int],
                request.min_time,
                request.max_time,
                query.conditions,
            )));
            if p < descriptors@.len() {
                let block = descriptors@[p as int].block;
                assert(places@.contains(block) == query.reads_block(block as int));
                if block < blocks@.len() {
                    assert(marked@[block as int] == places@.contains(block));
                }
            }
        }
    }
    let candidates = collect_candidates(descriptors, &positions, request, Ghost(query));
    let ghost unsorted = candidates@;
    let sorted = stable_sort(candidates);
    proof {
        lemma_sorted_candidates(unsorted, sorted@, query);
    }
    let groups = group_candidates(&sorted);
    proof {
        lemma_groups(groups@, sorted@, query);
    }
    let queried = admitted_blocks(
        blocks,
        &places,
        &matchers,
        Ghost(spans@),
        Ghost(asked),
        Ghost(parts.hints),
    );
    Ok(SeriesPlan { groups, blocks: queried, aggregates, limit })
}

/// Raw queries choose chunks of raw blocks only.
pub proof fn law_raw_queries_choose_raw_chunks(query: SeriesQuery, p: int)
    requires
        query.raw,
        query.is_chosen(p),
    ensures
        query.blocks[query.descriptors[p].block as int].resolution == 0,
{
}

/// No chunk is coarser than the request lets it be.
pub proof fn law_chunks_are_not_too_coarse(query: SeriesQuery, p: int)
    requires
        !query.raw,
        query.is_chosen(p),
    ensures
        query.blocks[query.descriptors[p].block as int].resolution
            <= query.request.max_resolution_window,
{
}

/// No time of a series is lost: where a block that may be used holds a time of the request, the
/// chunks of a block that is not finer, has the same external labels and holds that time are among
/// those that answer the request, as far as they take part. Hints may leave that block out.
pub proof fn law_gaps_are_filled(query: SeriesQuery, b: int, time: int)
    requires
        0 <= b < query.blocks.len(),
        eligible(
            query.blocks[b].resolution,
            query.raw,
            query.request.max_resolution_window,
        ),
        Span::between(query.request.min_time, query.request.max_time).holds(time),
        query.spans()[b].holds(time),
        query.hints.len() == 0,
    ensures
        exists|c: int|
            #![trigger query.reads_block(c)]
            {
                &&& query.reads_block(c)
                &&& same_set(query.blocks[c], query.blocks[b])
                &&& query.spans()[c].holds(time)
                &&& query.blocks[c].resolution >= query.blocks[b].resolution
                &&& forall|p: int|
                    {
                        &&& 0 <= p < query.descriptors.len()
                        &&& (#[trigger] query.descriptors[p]).block == c
                        &&& takes_part(query.descriptors[p], query.request, query.conditions)
                    } ==> query.is_chosen(p)
            },
{
    let asked = block_query(query.request, query.raw);
    let spans = query.spans();
    law_no_covered_time_is_lost(query.blocks, spans, b, asked, time);
    let c = choose|c: int|
        #![trigger is_covering(query.blocks, spans, c, asked)]
        {
            &&& is_covering(query.blocks, spans, c, asked)
            &&& same_set(query.blocks[c], query.blocks[b])
            &&& spans[c].holds(time)
            &&& query.blocks[c].resolution >= query.blocks[b].resolution
        };
    assert(query.reads_block(c));
}

/// Without hints a raw query is answered with every raw chunk that takes part, whatever its block
/// says of its times.
pub proof fn law_raw_chunks_are_chosen(query: SeriesQuery, p: int)
    requires
        query.raw,
        query.hints.len() == 0,
        0 <= p < query.descriptors.len(),
        query.descriptors[p].block < query.blocks.len(),
        query.blocks[query.descriptors[p].block as int].resolution == 0,
        takes_part(query.descriptors[p], query.request, query.conditions),
    ensures
        query.is_chosen(p),
{
    let chunk = query.descriptors[p];
    let b = chunk.block as int;
    let asked = block_query(query.request, query.raw);
    let times = asked.times;
    let span = Span::between(chunk.chunk_mint, chunk.chunk_maxt);
    let time = if span.first > times.first {
        span.first as int
    } else {
        times.first as int
    };
    law_blocks_hold_their_chunks(query.blocks, query.descriptors, p, time);
    assert forall|q: int| !#[trigger] is_coarser(query.blocks, q, b, asked) by {}
    assert(fills(query.blocks, query.spans(), b, asked, time));
    assert(is_covering(query.blocks, query.spans(), b, asked));
}

/// What a group of chunks holds.
pub struct GroupModel {
    pub labels: Seq<(Seq<char>, Seq<char>)>,
    pub chunks: Seq<usize>,
}

impl View for SeriesGroup {
    type V = GroupModel;

    open spec fn view(&self) -> GroupModel {
        GroupModel { labels: self.labels.pairs(), chunks: self.chunks@ }
    }
}

/// What the groups of a list hold.
pub open spec fn group_models(groups: Seq<SeriesGroup>) -> Seq<GroupModel> {
    groups.map_values(|group: SeriesGroup| group@)
}

/// The labels of one group come before those of another one.
spec fn group_order() -> spec_fn(GroupModel, GroupModel) -> bool {
    |a: GroupModel, b: GroupModel| pairs_lt(a.labels, b.labels)
}

proof fn lemma_group_found(
    first: Seq<SeriesGroup>,
    second: Seq<SeriesGroup>,
    query: SeriesQuery,
    g: int,
)
    requires
        query.descriptors.len() <= usize::MAX,
        are_groups(first, query),
        are_groups(second, query),
        0 <= g < first.len(),
    ensures
        group_models(second).contains(first[g]@),
{
    let p = first[g].chunks@[0];
    assert(first[g].chunks@.contains(p));
    assert(query.is_chosen(p as int));
    let h = choose|h: int|
        0 <= h < second.len() && (#[trigger] second[h]).labels@ == query.key(p as int);
    assert(second[h].labels@ == first[g].labels@);
    assert(second[h].labels.pairs() == first[g].labels.pairs());
    let before = |a: usize, b: usize| chunk_before(query.descriptors, a, b);
    assert forall|c: usize| #[trigger]
        first[g].chunks@.contains(c) == second[h].chunks@.contains(c) by {}
    assert(strictly_ordered(first[g].chunks@, before));
    assert(strictly_ordered(second[h].chunks@, before));
    law_orders_are_unique(first[g].chunks@, second[h].chunks@, before);
    assert(group_models(second)[h] == first[g]@);
}

/// A request has one answer: all plans for it have the same series with the same chunks, and the
/// same blocks, in the same order.
pub proof fn law_plans_are_unique(
    first: SeriesPlan,
    second: SeriesPlan,
    blocks: Seq<StoreBlock>,
    descriptors: Seq<ChunkDescriptor>,
    request: SeriesRequest,
    parts: RequestParts,
)
    requires
        blocks.len() <= usize::MAX,
        descriptors.len() <= usize::MAX,
        is_plan(first, blocks, descriptors, request, parts),
        is_plan(second, blocks, descriptors, request, parts),
    ensures
        group_models(first.groups@) == group_models(second.groups@),
        first.blocks@ == second.blocks@,
        first.aggregates == second.aggregates,
        first.limit == second.limit,
{
    let query = series_query(blocks, descriptors, request, parts);
    let a = group_models(first.groups@);
    let b = group_models(second.groups@);
    assert forall|i: int, j: int| 0 <= i < j < a.len() implies group_order()(
        #[trigger] a[i],
        #[trigger] a[j],
    ) && !group_order()(a[j], a[i]) by {
        assert(pairs_lt(first.groups@[i].labels.pairs(), first.groups@[j].labels.pairs()));
        lemma_pairs_lt_asymmetric(a[i].labels, a[j].labels);
    }
    assert forall|i: int, j: int| 0 <= i < j < b.len() implies group_order()(
        #[trigger] b[i],
        #[trigger] b[j],
    ) && !group_order()(b[j], b[i]) by {
        assert(pairs_lt(second.groups@[i].labels.pairs(), second.groups@[j].labels.pairs()));
        lemma_pairs_lt_asymmetric(b[i].labels, b[j].labels);
    }
    assert forall|model: GroupModel| #[trigger] a.contains(model) == b.contains(model) by {
        if a.contains(model) {
            lemma_group_found(first.groups@, second.groups@, query, a.index_of(model));
        }
        if b.contains(model) {
            lemma_group_found(second.groups@, first.groups@, query, b.index_of(model));
        }
    }
    law_orders_are_unique(a, b, group_order());
    let asked = block_query(request, parts.aggregates.raw);
    let spans = block_spans(blocks, descriptors);
    let before = |p: usize, q: usize| read_before(blocks, spans, asked, p, q);
    assert(strictly_ordered(first.blocks@, before));
    assert(strictly_ordered(second.blocks@, before));
    assert forall|p: usize| #[trigger] first.blocks@.contains(p) == second.blocks@.contains(
        p,
    ) by {}
    law_orders_are_unique(first.blocks@, second.blocks@, before);
}

/// A limit does not change which series there are to answer a request with: the plan for a request is
/// the plan for the same request with another limit, but for the limit.
pub proof fn law_limit_does_not_change_the_plan(
    first: SeriesPlan,
    second: SeriesPlan,
    blocks: Seq<StoreBlock>,
    descriptors: Seq<ChunkDescriptor>,
    request: SeriesRequest,
    other: SeriesRequest,
    parts: RequestParts,
    other_parts: RequestParts,
)
    requires
        blocks.len() <= usize::MAX,
        descriptors.len() <= usize::MAX,
        other == (SeriesRequest { limit: other.limit, ..request }),
        request_parts(request) == Ok::<RequestParts, StoreErrorModel>(parts),
        request_parts(other) == Ok::<RequestParts, StoreErrorModel>(other_parts),
        is_plan(first, blocks, descriptors, request, parts),
        is_plan(second, blocks, descriptors, other, other_parts),
    ensures
        group_models(first.groups@) == group_models(second.groups@),
        first.blocks@ == second.blocks@,
        first.aggregates == second.aggregates,
        second.limit == series_limit(other.limit)->Ok_0,
{
    let query = series_query(blocks, descriptors, request, parts);
    let changed = series_query(blocks, descriptors, other, other_parts);
    assert forall|p: int| #[trigger] query.is_chosen(p) == changed.is_chosen(p) by {}
    assert forall|p: int| #[trigger] query.key(p) == changed.key(p) by {}
    let same = SeriesPlan { limit: first.limit, ..second };
    assert(are_groups(second.groups@, query)) by {
        let groups = second.groups@;
        assert forall|g: int, p: usize| 0 <= g < groups.len() implies (
        #[trigger] groups[g].chunks@.contains(p) == (query.is_chosen(p as int) && query.key(
            p as int,
        ) == groups[g].labels@)) by {
            assert(query.is_chosen(p as int) == changed.is_chosen(p as int));
            assert(query.key(p as int) == changed.key(p as int));
        }
        assert forall|p: int| #[trigger] query.is_chosen(p) implies exists|g: int|
            0 <= g < groups.len() && (#[trigger] groups[g]).labels@ == query.key(p) by {
            assert(changed.is_chosen(p));
            let g = choose|g: int|
                0 <= g < groups.len() && (#[trigger] groups[g]).labels@ == changed.key(p);
            assert(groups[g].labels@ == query.key(p));
        }
    }
    assert(is_plan(same, blocks, descriptors, request, parts));
    law_plans_are_unique(first, same, blocks, descriptors, request, parts);
}

/// A label that a request leaves out is not a label of any series of the answer.
pub proof fn law_left_out_labels_do_not_appear(
    descriptor: ChunkDescriptor,
    request: SeriesRequest,
    name: Seq<char>,
)
    ensures
        names_contain(request.without_replica_labels@, name) ==> !series_key(
            descriptor,
            request,
        ).contains_key(name),
        !names_contain(request.without_replica_labels@, name) ==> series_key(
            descriptor,
            request,
        ).contains_key(name) == descriptor.labels@.contains_key(name),
{
}

/// The part that a series belongs to goes by the labels that a request sees: a label that it leaves
/// out is not hashed.
pub proof fn law_left_out_labels_are_not_hashed(
    first: ChunkDescriptor,
    second: ChunkDescriptor,
    request: SeriesRequest,
)
    requires
        labels_without(first.labels@, request.without_replica_labels@) == labels_without(
            second.labels@,
            request.without_replica_labels@,
        ),
    ensures
        in_shard(series_key(first, request), request.shard) == in_shard(
            series_key(second, request),
            request.shard,
        ),
{
}

/// The numbers of the aggregates: 0 asks for raw samples, 1 for the count, 2 for the sum, 3 for the
/// minimum, 4 for the maximum and 5 for the counter; no number at all asks for raw samples, and any
/// other number is refused.
pub proof fn law_numbers_ask_for_aggregates(values: Seq<i32>)
    ensures
        match requested(values) {
            Ok(set) => {
                &&& forall|i: int| 0 <= i < values.len() ==> 0 <= #[trigger] values[i] <= 5
                &&& set.raw <==> values.len() == 0 || values.contains(0)
                &&& set.count <==> values.contains(1)
                &&& set.sum <==> values.contains(2)
                &&& set.min <==> values.contains(3)
                &&& set.max <==> values.contains(4)
                &&& set.counter <==> values.contains(5)
            },
            Err(error) => error is UnknownAggregate && exists|i: int|
                0 <= i < values.len() && !(0 <= #[trigger] values[i] <= 5),
        },
{
}

/// A limit of zero lets all series pass, a positive one so many, and a negative one is refused.
pub proof fn law_limits_count_series(limit: i64)
    ensures
        limit < 0 ==> series_limit(limit) == Err::<u64, StoreErrorModel>(
            StoreErrorModel::NegativeLimit,
        ),
        limit == 0 ==> series_limit(limit) == Ok::<u64, StoreErrorModel>(u64::MAX),
        limit > 0 ==> (series_limit(limit) matches Ok(count) && count == limit),
{
}

/// What the hash of a part goes by: each label that takes part adds its name and its value, each with
/// a byte 255 behind it. By some labels means that only these take part, without them that all others
/// do.
pub proof fn law_labels_that_take_part_are_hashed(
    shard: ShardInfo,
    pairs: Seq<(Seq<char>, Seq<char>)>,
    name: Seq<char>,
    value: Seq<char>,
)
    ensures
        shard.hashed_bytes(Seq::empty()) == Seq::<u8>::empty(),
        shard.hashed_bytes(pairs.push((name, value))) == (if shard.by == name_views(
            shard.labels@,
        ).contains(name) {
            shard.hashed_bytes(pairs) + encode_utf8(name) + seq![255u8] + encode_utf8(value)
                + seq![255u8]
        } else {
            shard.hashed_bytes(pairs)
        }),
{
    assert(pairs.push((name, value)).drop_last() =~= pairs);
    let listed = shard.labels@;
    let views = name_views(listed);
    if names_contain(listed, name) {
        let i = choose|i: int| 0 <= i < listed.len() && (#[trigger] listed[i])@ == name;
        assert(views[i] == name);
    }
    if views.contains(name) {
        assert(listed[views.index_of(name)]@ == name);
    }
}

/// A series belongs to a part exactly if the hash leaves the number of the part when divided by the
/// number of parts.
pub proof fn law_parts_go_by_the_hash(shard: ShardInfo, labels: Map<Seq<char>, Seq<char>>)
    requires
        shard.total > 0,
    ensures
        shard.holds(labels) <==> xxh64(shard.hashed_bytes(sorted_pairs(labels))) as int
            % shard.total as int == shard.index,
{
}

/// A chunk that answers a request overlaps its times, satisfies its conditions with all its labels,
/// lies in the part that is asked for with the labels that the request sees, and belongs to a block
/// that satisfies the conditions on blocks; and it answers where its block is read.
pub proof fn law_chosen_chunks_are_asked_for(query: SeriesQuery, p: int)
    requires
        0 <= p < query.descriptors.len(),
    ensures
        ({
            let chunk = query.descriptors[p];
            let wanted = {
                &&& chunk.chunk_mint <= query.request.max_time
                &&& query.request.min_time <= chunk.chunk_maxt
                &&& forall|i: int|
                    0 <= i < query.conditions.len() ==> (#[trigger] query.conditions[i]).holds(
                        chunk.labels@,
                    )
                &&& query.request.shard matches Some(shard) ==> shard.holds(
                    labels_without(chunk.labels@, query.request.without_replica_labels@),
                )
            };
            &&& query.is_chosen(p) ==> wanted && chunk.block < query.blocks.len()
            &&& wanted && query.reads_block(chunk.block as int) ==> query.is_chosen(p)
        }),
{
}

/// The labels of a series of an answer are those of its chunks without the labels that the request
/// leaves out, and with their values.
pub proof fn law_answers_keep_the_values_of_labels(
    descriptor: ChunkDescriptor,
    request: SeriesRequest,
    name: Seq<char>,
)
    ensures
        series_key(descriptor, request).contains_key(name) <==> descriptor.labels@.contains_key(
            name,
        ) && !name_views(request.without_replica_labels@).contains(name),
        series_key(descriptor, request).contains_key(name) ==> series_key(
            descriptor,
            request,
        )[name] == descriptor.labels@[name],
{
    let listed = request.without_replica_labels@;
    let views = name_views(listed);
    if names_contain(listed, name) {
        let i = choose|i: int| 0 <= i < listed.len() && (#[trigger] listed[i])@ == name;
        assert(views[i] == name);
    }
    if views.contains(name) {
        assert(listed[views.index_of(name)]@ == name);
    }
}

/// Every chunk that answers a request stands in exactly one series of the plan, the one with the
/// labels under which the request sees it; the series of a plan have different labels and none is
/// empty; and the chunks of a series stand in the order of their starts, then of their ends.
pub proof fn law_plans_hold_all_chosen_chunks(
    groups: Seq<SeriesGroup>,
    query: SeriesQuery,
    p: usize,
    g: int,
    h: int,
)
    requires
        are_groups(groups, query),
        0 <= g < groups.len(),
        0 <= h < groups.len(),
    ensures
        groups[g].chunks@.len() > 0,
        groups[g].chunks@.contains(p) ==> query.is_chosen(p as int) && groups[g].labels@
            == query.key(p as int),
        query.is_chosen(p as int) ==> exists|k: int|
            0 <= k < groups.len() && (#[trigger] groups[k]).chunks@.contains(p),
        groups[g].chunks@.contains(p) && groups[h].chunks@.contains(p) ==> g == h,
        g < h ==> groups[g].labels@ != groups[h].labels@,
        forall|i: int, j: int|
            0 <= i < j < groups[g].chunks@.len() ==> {
                let a = query.descriptors[(#[trigger] groups[g].chunks@[i]) as int];
                let b = query.descriptors[(#[trigger] groups[g].chunks@[j]) as int];
                a.chunk_mint < b.chunk_mint || a.chunk_mint == b.chunk_mint && a.chunk_maxt
                    <= b.chunk_maxt
            },
{
    if query.is_chosen(p as int) {
        let k = choose|k: int|
            0 <= k < groups.len() && (#[trigger] groups[k]).labels@ == query.key(p as int);
        assert(groups[k].chunks@.contains(p));
    }
    assert forall|a: int, b: int| 0 <= a < b < groups.len() implies (#[trigger] groups[a]).labels@
        != (#[trigger] groups[b]).labels@ by {
        lemma_pairs_lt_asymmetric(groups[a].labels.pairs(), groups[b].labels.pairs());
    }
    assert forall|i: int, j: int| 0 <= i < j < groups[g].chunks@.len() implies {
        let a = query.descriptors[(#[trigger] groups[g].chunks@[i]) as int];
        let b = query.descriptors[(#[trigger] groups[g].chunks@[j]) as int];
        a.chunk_mint < b.chunk_mint || a.chunk_mint == b.chunk_mint && a.chunk_maxt <= b.chunk_maxt
    } by {
        assert(chunk_before(query.descriptors, groups[g].chunks@[i], groups[g].chunks@[j]));
    }
}

/// The blocks are asked for the times between the two times of a request, whichever comes first, and
/// for its coarsest resolution.
pub proof fn law_blocks_are_asked_for_the_times_of_the_request(
    request: SeriesRequest,
    raw: bool,
    time: int,
)
    ensures
        block_query(request, raw).times.holds(time) <==> request.min_time <= time
            <= request.max_time || request.max_time <= time <= request.min_time,
        block_query(request, raw).raw == raw,
        block_query(request, raw).window == request.max_resolution_window,
{
}

/// The series of a plan stand in the order of their labels, and the chunks of a series in the order of
/// their first times; chunks with the same first time stand in the order of their last times, and
/// chunks with the same times in the order of their places.
pub proof fn law_plans_are_in_order(
    plan: SeriesPlan,
    blocks: Seq<StoreBlock>,
    descriptors: Seq<ChunkDescriptor>,
    request: SeriesRequest,
    parts: RequestParts,
    g: int,
    h: int,
    i: int,
    j: int,
)
    requires
        is_plan(plan, blocks, descriptors, request, parts),
    ensures
        0 <= g < h < plan.groups@.len() ==> pairs_lt(
            plan.groups@[g].labels.pairs(),
            plan.groups@[h].labels.pairs(),
        ),
        0 <= g < plan.groups@.len() && 0 <= i < j < plan.groups@[g].chunks@.len() ==> {
            let p = plan.groups@[g].chunks@[i];
            let q = plan.groups@[g].chunks@[j];
            let a = descriptors[p as int];
            let b = descriptors[q as int];
            &&& a.chunk_mint <= b.chunk_mint
            &&& a.chunk_mint == b.chunk_mint ==> a.chunk_maxt <= b.chunk_maxt
            &&& a.chunk_mint == b.chunk_mint && a.chunk_maxt == b.chunk_maxt ==> p < q
        },
        plan.aggregates == parts.aggregates,
        plan.limit == parts.limit,
{
    if 0 <= g < plan.groups@.len() && 0 <= i < j < plan.groups@[g].chunks@.len() {
        assert(chunk_before(
            descriptors,
            plan.groups@[g].chunks@[i],
            plan.groups@[g].chunks@[j],
        ));
    }
}

/// A request is refused for its hints first, then for its conditions, then for its aggregates, and at
/// last for its limit; and it is not refused for anything else.
pub proof fn law_requests_are_refused_in_order(request: SeriesRequest)
    ensures
        ({
            let result = request_parts(request);
            let hints = hinted(request.hints, "series"@);
            let conditions = compiled_all(request.matchers@);
            let aggregates = requested(request.aggregates@);
            let limit = series_limit(request.limit);
            if hints is Err {
                result is Err && result->Err_0 == hints->Err_0
            } else if conditions is Err {
                result is Err && result->Err_0 == conditions->Err_0
            } else if aggregates is Err {
                result is Err && result->Err_0 == aggregates->Err_0
            } else if limit is Err {
                result is Err && result->Err_0 == limit->Err_0
            } else {
                &&& result is Ok
                &&& result->Ok_0.hints == hints->Ok_0
                &&& result->Ok_0.conditions == conditions->Ok_0
                &&& result->Ok_0.aggregates == aggregates->Ok_0
                &&& result->Ok_0.limit == limit->Ok_0
            }
        }),
{
}

} // verus!
