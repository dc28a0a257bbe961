//! Which blocks answer a request: over each stretch of time the coarsest blocks that may be used,
//! and finer ones where these leave gaps.

use vstd::prelude::*;

use crate::labels::{copy_labels, labels_from_json, value_or_empty, Labels};
#[allow(unused_imports)]
use crate::labels::{json_entries, label_value};
use crate::sort::{stable_sort, Ranked};
#[allow(unused_imports)]
use crate::sort::{is_stable_sort, law_sort_keeps_values, sorted_by_places, stands_before};
use crate::store_info::same_labels;
use crate::store_service::{
    compile_matchers, matcher_holds, matches_all, ChunkDescriptor, LabelMatcher, Matcher, StoreError,
};
#[allow(unused_imports)]
use crate::store_service::{
    all_hold, compiled_all, matcher_models, MatcherModel, StoreErrorModel,
};
use crate::text::{rsplit_once, same};
#[allow(unused_imports)]
use crate::text::{find_last, split_at_last};

verus! {

/// A block that can be asked for. It says that it holds the times from `min_time` on and before
/// `max_time`; where a chunk of it goes beyond these, it holds the times of the chunk too.
pub struct StoreBlock {
    pub repository_uri: String,
    pub id: String,
    pub resolution: i64,
    pub min_time: i64,
    pub max_time: i64,
    pub external_labels: Labels,
}

/// Makes a block from a row of the block index.
pub fn store_block(
    repository_uri: String,
    id: String,
    resolution: i64,
    min_time: i64,
    max_time: i64,
    labels_json: &str,
) -> (result: Result<StoreBlock, StoreError>)
    ensures
        match result {
            Ok(block) => {
                &&& block.repository_uri == repository_uri
                &&& block.id == id
                &&& block.resolution == resolution
                &&& block.min_time == min_time
                &&& block.max_time == max_time
                &&& json_entries(labels_json@) == Some(block.external_labels.pairs())
            },
            Err(error) => error is InvalidLabels && json_entries(labels_json@) is None,
        },
{
    match labels_from_json(labels_json) {
        Some(external_labels) => Ok(
            StoreBlock { repository_uri, id, resolution, min_time, max_time, external_labels },
        ),
        None => Err(StoreError::InvalidLabels),
    }
}

/// A block has an id in a repository.
pub open spec fn is_named(block: StoreBlock, repository_uri: Seq<char>, id: Seq<char>) -> bool {
    block.repository_uri@ == repository_uri && block.id@ == id
}

/// The place of the first block with an id in a repository.
pub fn block_position(blocks: &Vec<StoreBlock>, repository_uri: &str, id: &str) -> (position: Option<
    usize,
>)
    ensures
        match position {
            Some(position) => {
                &&& position < blocks@.len()
                &&& is_named(blocks@[position as int], repository_uri@, id@)
                &&& forall|b: int|
                    0 <= b < position ==> !is_named(#[trigger] blocks@[b], repository_uri@, id@)
            },
            None => forall|b: int|
                0 <= b < blocks@.len() ==> !is_named(#[trigger] blocks@[b], repository_uri@, id@),
        },
{
    let mut b: usize = 0;
    while b < blocks.len()
        invariant
            b <= blocks@.len(),
            forall|k: int| 0 <= k < b ==> !is_named(#[trigger] blocks@[k], repository_uri@, id@),
        decreases blocks.len() - b,
    {
        if same(blocks[b].id.as_str(), id) && same(
            blocks[b].repository_uri.as_str(),
            repository_uri,
        ) {
            return Some(b);
        }
        b = b + 1;
    }
    None
}

/// The part of a request that goes to the blocks: the times, whether raw samples are asked for, and
/// the coarsest resolution otherwise.
#[derive(Clone, Copy, Debug, PartialEq, Eq, Structural)]
pub struct BlockQuery {
    pub times: Span,
    pub raw: bool,
    pub window: i64,
}

/// A resolution may be used: the raw one where raw samples are asked for, and else any that is not
/// coarser than the request lets it be.
pub open spec fn eligible(resolution: i64, raw: bool, window: i64) -> bool {
    if raw {
        resolution == 0
    } else {
        resolution <= window
    }
}

fn is_eligible(resolution: i64, raw: bool, window: i64) -> (result: bool)
    ensures
        result == eligible(resolution, raw, window),
{
    if raw {
        resolution == 0
    } else {
        resolution <= window
    }
}

/// A stretch of time from a first to a last time. It is empty where the last one comes first.
#[derive(Clone, Copy, Debug, PartialEq, Eq, Structural)]
pub struct Span {
    pub first: i64,
    pub last: i64,
}

impl Span {
    /// A time lies in the stretch.
    pub open spec fn holds(&self, time: int) -> bool {
        self.first <= time <= self.last
    }

    /// The stretch from the first to the last time of two stretches.
    pub open spec fn joined(&self, other: Span) -> Span {
        Span {
            first: if other.first < self.first {
                other.first
            } else {
                self.first
            },
            last: if other.last > self.last {
                other.last
            } else {
                self.last
            },
        }
    }

    fn join(&self, other: Span) -> (span: Span)
        ensures
            span == self.joined(other),
    {
        Span {
            first: if other.first < self.first {
                other.first
            } else {
                self.first
            },
            last: if other.last > self.last {
                other.last
            } else {
                self.last
            },
        }
    }

    /// The stretch between two times, whichever comes first.
    pub open spec fn between(a: i64, b: i64) -> Span {
        if a <= b {
            Span { first: a, last: b }
        } else {
            Span { first: b, last: a }
        }
    }

    pub(crate) fn of(a: i64, b: i64) -> (span: Span)
        ensures
            span == Span::between(a, b),
    {
        if a <= b {
            Span { first: a, last: b }
        } else {
            Span { first: b, last: a }
        }
    }
}

/// The times that a block says it holds.
pub open spec fn stated_span(block: StoreBlock) -> Span {
    if block.min_time < block.max_time {
        Span { first: block.min_time, last: (block.max_time - 1) as i64 }
    } else {
        Span { first: i64::MAX, last: i64::MIN }
    }
}

/// The times that a block holds, going by what it says and by its chunks.
pub open spec fn block_span(block: StoreBlock, b: int, descriptors: Seq<ChunkDescriptor>) -> Span
    decreases descriptors.len(),
{
    if descriptors.len() == 0 {
        stated_span(block)
    } else {
        let before = block_span(block, b, descriptors.drop_last());
        let chunk = descriptors.last();
        if chunk.block == b {
            before.joined(Span::between(chunk.chunk_mint, chunk.chunk_maxt))
        } else {
            before
        }
    }
}

/// The times that each of the blocks holds.
pub open spec fn block_spans(
    blocks: Seq<StoreBlock>,
    descriptors: Seq<ChunkDescriptor>,
) -> Seq<Span> {
    Seq::new(blocks.len(), |b: int| block_span(blocks[b], b, descriptors))
}

/// Finds the times that each of the blocks holds.
pub fn find_spans(blocks: &Vec<StoreBlock>, descriptors: &Vec<ChunkDescriptor>) -> (spans: Vec<Span>)
    ensures
        spans@ == block_spans(blocks@, descriptors@),
{
    let mut spans: Vec<Span> = Vec::new();
    let mut b: usize = 0;
    while b < blocks.len()
        invariant
            b <= blocks@.len(),
            spans@.len() == b,
            forall|k: int| 0 <= k < b ==> #[trigger] spans@[k] == stated_span(blocks@[k]),
        decreases blocks.len() - b,
    {
        let block = &blocks[b];
        if block.min_time < block.max_time {
            spans.push(Span { first: block.min_time, last: block.max_time - 1 });
        } else {
            spans.push(Span { first: i64::MAX, last: i64::MIN });
        }
        b = b + 1;
    }
    assert(spans@ =~= block_spans(blocks@, descriptors@.take(0)));
    let mut i: usize = 0;
    while i < descriptors.len()
        invariant
            i <= descriptors@.len(),
            spans@ == block_spans(blocks@, descriptors@.take(i as int)),
        decreases descriptors.len() - i,
    {
        let descriptor = &descriptors[i];
        let place: usize = descriptor.block;
        let ghost before = spans@;
        assert(descriptors@.take(i + 1).drop_last() =~= descriptors@.take(i as int));
        assert(descriptors@.take(i + 1).last() == *descriptor);
        if place < spans.len() {
            let span = spans[place].join(Span::of(descriptor.chunk_mint, descriptor.chunk_maxt));
            spans.set(place, span);
        }
        assert(spans@ =~= block_spans(blocks@, descriptors@.take(i + 1)));
        i = i + 1;
    }
    assert(descriptors@.take(descriptors@.len() as int) =~= descriptors@);
    spans
}

/// A block holds the times that it says it holds, and those of its chunks.
pub proof fn law_blocks_hold_their_chunks(
    blocks: Seq<StoreBlock>,
    descriptors: Seq<ChunkDescriptor>,
    p: int,
    time: int,
)
    requires
        0 <= p < descriptors.len(),
        descriptors[p].block < blocks.len(),
    ensures
        ({
            let b = descriptors[p].block as int;
            let chunk = Span::between(descriptors[p].chunk_mint, descriptors[p].chunk_maxt);
            stated_span(blocks[b]).holds(time) || chunk.holds(time) ==> block_spans(
                blocks,
                descriptors,
            )[b].holds(time)
        }),
{
    let b = descriptors[p].block as int;
    lemma_span_grows(blocks[b], b, descriptors, p);
}

proof fn lemma_span_grows(block: StoreBlock, b: int, descriptors: Seq<ChunkDescriptor>, p: int)
    requires
        0 <= p < descriptors.len(),
        descriptors[p].block == b,
    ensures
        ({
            let span = block_span(block, b, descriptors);
            let chunk = Span::between(descriptors[p].chunk_mint, descriptors[p].chunk_maxt);
            &&& span.first <= stated_span(block).first && stated_span(block).last <= span.last
            &&& span.first <= chunk.first && chunk.last <= span.last
        }),
    decreases descriptors.len(),
{
    lemma_span_holds_stated(block, b, descriptors.drop_last());
    if p < descriptors.len() - 1 {
        lemma_span_grows(block, b, descriptors.drop_last(), p);
        assert(descriptors.drop_last()[p] == descriptors[p]);
    }
}

proof fn lemma_span_holds_stated(block: StoreBlock, b: int, descriptors: Seq<ChunkDescriptor>)
    ensures
        block_span(block, b, descriptors).first <= stated_span(block).first,
        stated_span(block).last <= block_span(block, b, descriptors).last,
    decreases descriptors.len(),
{
    if descriptors.len() > 0 {
        lemma_span_holds_stated(block, b, descriptors.drop_last());
    }
}

/// Two blocks hold the same series: they lie in one repository and have the same external labels.
pub open spec fn same_set(first: StoreBlock, second: StoreBlock) -> bool {
    &&& first.repository_uri@ == second.repository_uri@
    &&& first.external_labels.pairs() == second.external_labels.pairs()
}

/// A block may be used and is a coarser one of the same series.
pub open spec fn is_coarser(
    blocks: Seq<StoreBlock>,
    q: int,
    b: int,
    query: BlockQuery,
) -> bool {
    &&& 0 <= q < blocks.len()
    &&& same_set(blocks[q], blocks[b])
    &&& eligible(blocks[q].resolution, query.raw, query.window)
    &&& blocks[q].resolution > blocks[b].resolution
}

/// A block holds a time of a request that no coarser block holds.
pub open spec fn fills(
    blocks: Seq<StoreBlock>,
    spans: Seq<Span>,
    b: int,
    query: BlockQuery,
    time: int,
) -> bool {
    &&& query.times.holds(time)
    &&& spans[b].holds(time)
    &&& forall|q: int| #[trigger] is_coarser(blocks, q, b, query) ==> !spans[q].holds(time)
}

/// A block is one of those that cover a request: it may be used, and it fills a gap that the
/// coarser blocks leave. Where there are no coarser blocks, the whole request is such a gap.
pub open spec fn is_covering(
    blocks: Seq<StoreBlock>,
    spans: Seq<Span>,
    b: int,
    query: BlockQuery,
) -> bool {
    &&& 0 <= b < blocks.len()
    &&& eligible(blocks[b].resolution, query.raw, query.window)
    &&& exists|time: int| #[trigger] fills(blocks, spans, b, query, time)
}

/// The first time of a request that a block fills.
pub open spec fn is_first(
    blocks: Seq<StoreBlock>,
    spans: Seq<Span>,
    b: int,
    query: BlockQuery,
    time: int,
) -> bool {
    &&& fills(blocks, spans, b, query, time)
    &&& forall|other: int| #[trigger] fills(blocks, spans, b, query, other) ==> time <= other
}

/// The first time of a request that a block fills.
pub open spec fn first_time(
    blocks: Seq<StoreBlock>,
    spans: Seq<Span>,
    b: int,
    query: BlockQuery,
) -> int {
    choose|time: int| is_first(blocks, spans, b, query, time)
}

fn find_coarser(
    blocks: &Vec<StoreBlock>,
    spans: &Vec<Span>,
    b: usize,
    query: &BlockQuery,
    time: i64,
) -> (found: Option<usize>)
    requires
        spans@.len() == blocks@.len(),
        b < blocks@.len(),
    ensures
        match found {
            Some(q) => {
                &&& is_coarser(blocks@, q as int, b as int, *query)
                &&& spans@[q as int].holds(time as int)
            },
            None => forall|q: int| #[trigger]
                is_coarser(blocks@, q, b as int, *query) ==> !spans@[q].holds(time as int),
        },
{
    let mut q: usize = 0;
    while q < blocks.len()
        invariant
            q <= blocks@.len(),
            spans@.len() == blocks@.len(),
            b < blocks@.len(),
            forall|k: int|
                k < q && #[trigger] is_coarser(blocks@, k, b as int, *query) ==> !spans@[k].holds(
                    time as int,
                ),
        decreases blocks.len() - q,
    {
        let block = &blocks[q];
        if spans[q].first <= time && time <= spans[q].last && block.resolution
            > blocks[b].resolution && is_eligible(block.resolution, query.raw, query.window)
            && same(block.repository_uri.as_str(), blocks[b].repository_uri.as_str())
            && same_labels(&block.external_labels, &blocks[b].external_labels) {
            return Some(q);
        }
        q = q + 1;
    }
    None
}

fn first_filled(blocks: &Vec<StoreBlock>, spans: &Vec<Span>, b: usize, query: &BlockQuery) -> (first:
    Option<i64>)
    requires
        spans@.len() == blocks@.len(),
        b < blocks@.len(),
    ensures
        match first {
            Some(time) => is_first(blocks@, spans@, b as int, *query, time as int),
            None => forall|time: int| !#[trigger] fills(blocks@, spans@, b as int, *query, time),
        },
{
    let last: i64 = if spans[b].last < query.times.last {
        spans[b].last
    } else {
        query.times.last
    };
    let mut time: i64 = if spans[b].first > query.times.first {
        spans[b].first
    } else {
        query.times.first
    };
    while time <= last
        invariant
            spans@.len() == blocks@.len(),
            b < blocks@.len(),
            last <= spans@[b as int].last,
            last <= query.times.last,
            last == spans@[b as int].last || last == query.times.last,
            query.times.first <= time,
            spans@[b as int].first <= time,
            forall|other: int| #[trigger]
                fills(blocks@, spans@, b as int, *query, other) ==> time <= other,
        decreases if time <= last { last - time + 1 } else { 0 },
    {
        match find_coarser(blocks, spans, b, query, time) {
            Some(q) => {
                let end: i64 = spans[q].last;
                assert forall|other: int| #[trigger]
                    fills(blocks@, spans@, b as int, *query, other) implies end < other by {
                    assert(is_coarser(blocks@, q as int, b as int, *query));
                }
                if end >= last {
                    return None;
                }
                time = end + 1;
            },
            None => {
                assert(fills(blocks@, spans@, b as int, *query, time as int));
                return Some(time);
            },
        }
    }
    None
}

/// No time that a request may see is lost: each time of the request that a block holds which may be
/// used is held by a block that covers the request, has the same series, and is not finer.
pub proof fn law_no_covered_time_is_lost(
    blocks: Seq<StoreBlock>,
    spans: Seq<Span>,
    b: int,
    query: BlockQuery,
    time: int,
)
    requires
        0 <= b < blocks.len(),
        eligible(blocks[b].resolution, query.raw, query.window),
        query.times.holds(time),
        spans[b].holds(time),
    ensures
        exists|c: int|
            #![trigger is_covering(blocks, spans, c, query)]
            {
                &&& is_covering(blocks, spans, c, query)
                &&& same_set(blocks[c], blocks[b])
                &&& spans[c].holds(time)
                &&& blocks[c].resolution >= blocks[b].resolution
            },
    decreases i64::MAX - blocks[b].resolution,
{
    if fills(blocks, spans, b, query, time) {
        assert(is_covering(blocks, spans, b, query));
    } else {
        let q = choose|q: int| #[trigger] is_coarser(blocks, q, b, query) && spans[q].holds(time);
        law_no_covered_time_is_lost(blocks, spans, q, query, time);
    }
}

/// A finer block is used only for a gap: where a block covers a request, there is a time of the
/// request that it holds and that no coarser block of its series holds. So a block all of whose
/// times are held by one coarser block is not used.
pub proof fn law_finer_blocks_fill_gaps(
    blocks: Seq<StoreBlock>,
    spans: Seq<Span>,
    b: int,
    q: int,
    query: BlockQuery,
)
    requires
        0 <= b < blocks.len(),
        is_coarser(blocks, q, b, query),
        forall|time: int|
            query.times.holds(time) && #[trigger] spans[b].holds(time) ==> spans[q].holds(
                time,
            ),
    ensures
        !is_covering(blocks, spans, b, query),
{
}

/// A block of the coarsest resolution that may be used covers a request whenever it holds a time of
/// it.
pub proof fn law_coarsest_blocks_are_used(
    blocks: Seq<StoreBlock>,
    spans: Seq<Span>,
    b: int,
    query: BlockQuery,
)
    requires
        0 <= b < blocks.len(),
        eligible(blocks[b].resolution, query.raw, query.window),
        forall|q: int| !#[trigger] is_coarser(blocks, q, b, query),
    ensures
        is_covering(blocks, spans, b, query) <==> exists|time: int|
            query.times.holds(time) && #[trigger] spans[b].holds(time),
{
    if exists|time: int| query.times.holds(time) && #[trigger] spans[b].holds(time) {
        let time = choose|time: int|
            query.times.holds(time) && #[trigger] spans[b].holds(time);
        assert(fills(blocks, spans, b, query, time));
    }
}

/// What a request says of the blocks that it wants to see: nothing, conditions, or something that
/// cannot be read, with the reason.
pub enum BlockHints {
    Absent,
    Matchers(Vec<LabelMatcher>),
    Unreadable(String),
}

/// The conditions on blocks that hints state, for a kind of request.
pub open spec fn hinted(hints: BlockHints, kind: Seq<char>) -> Result<
    Seq<MatcherModel>,
    StoreErrorModel,
> {
    match hints {
        BlockHints::Absent => Ok(Seq::empty()),
        BlockHints::Matchers(matchers) => compiled_all(matchers@),
        BlockHints::Unreadable(reason) => Err(StoreErrorModel::UnreadableHints(kind, reason@)),
    }
}

/// Reads the conditions on blocks that hints state.
pub fn read_hints(hints: &BlockHints, kind: &str) -> (result: Result<Vec<Matcher>, StoreError>)
    ensures
        match result {
            Ok(conditions) => hinted(*hints, kind@) == Ok::<Seq<MatcherModel>, StoreErrorModel>(
                matcher_models(conditions@),
            ),
            Err(error) => hinted(*hints, kind@) == Err::<Seq<MatcherModel>, StoreErrorModel>(
                error@,
            ),
        },
{
    match hints {
        BlockHints::Absent => {
            let conditions: Vec<Matcher> = Vec::new();
            assert(matcher_models(conditions@) =~= Seq::<MatcherModel>::empty());
            Ok(conditions)
        },
        BlockHints::Matchers(matchers) => compile_matchers(matchers),
        BlockHints::Unreadable(reason) => Err(
            StoreError::UnreadableHints(kind.to_owned(), reason.clone()),
        ),
    }
}

/// The address of a message type names a message: the name stands behind the last slash.
pub open spec fn names_message(type_url: Seq<char>, name: Seq<char>) -> bool {
    match split_at_last(type_url, '/') {
        Some((_, last)) => last == name,
        None => false,
    }
}

/// Whether the address of a message type names a message.
pub fn is_message(type_url: &str, name: &str) -> (result: bool)
    ensures
        result == names_message(type_url@, name@),
{
    match rsplit_once(type_url, '/') {
        Some((_, last)) => same(last, name),
        None => false,
    }
}

/// The labels by which conditions on blocks go: the external labels and the id.
pub open spec fn block_labels(block: StoreBlock) -> Map<Seq<char>, Seq<char>> {
    block.external_labels@.insert("__block_id"@, block.id@)
}

/// External labels may be those of series that satisfy conditions: no condition speaks of one of
/// them and fails.
pub open spec fn admits(
    external: Map<Seq<char>, Seq<char>>,
    conditions: Seq<MatcherModel>,
) -> bool {
    forall|i: int|
        0 <= i < conditions.len() ==> label_value(
            external,
            (#[trigger] conditions[i]).label(),
        ).len() == 0 || conditions[i].holds(external)
}

fn admits_all(external: &Labels, matchers: &Vec<Matcher>) -> (result: bool)
    ensures
        result == admits(external@, matcher_models(matchers@)),
{
    let ghost models = matcher_models(matchers@);
    let mut i: usize = 0;
    while i < matchers.len()
        invariant
            i <= matchers@.len(),
            models == matcher_models(matchers@),
            forall|k: int|
                0 <= k < i ==> label_value(external@, (#[trigger] models[k]).label()).len() == 0
                    || models[k].holds(external@),
        decreases matchers.len() - i,
    {
        assert(models[i as int] == matchers@[i as int]@);
        let value = value_or_empty(external, matchers[i].label_name());
        if !same(value, "") && !matcher_holds(&matchers[i], external) {
            proof {
                reveal_strlit("");
                assert(value@.len() != 0) by {
                    if value@.len() == 0 {
                        assert(value@ =~= ""@);
                    }
                }
            }
            return false;
        }
        proof {
            reveal_strlit("");
        }
        i = i + 1;
    }
    true
}

fn is_hinted(block: &StoreBlock, hints: &Vec<Matcher>) -> (result: bool)
    ensures
        result == all_hold(block_labels(*block), matcher_models(hints@)),
{
    let mut labels = copy_labels(&block.external_labels);
    let _previous = labels.insert("__block_id".to_owned(), block.id.clone());
    matches_all(&labels, hints)
}

/// A request for series reads chunks from a block: it is one of those that cover the request, and it
/// satisfies the conditions on blocks. What hints say comes last: where they leave a block out,
/// nothing takes its place.
pub open spec fn is_read(
    blocks: Seq<StoreBlock>,
    spans: Seq<Span>,
    b: int,
    query: BlockQuery,
    hints: Seq<MatcherModel>,
) -> bool {
    is_covering(blocks, spans, b, query) && all_hold(block_labels(blocks[b]), hints)
}

/// Of two blocks that a request reads the first comes before the second: by the first time that it
/// fills, by its own times, or by its place.
pub open spec fn read_before(
    blocks: Seq<StoreBlock>,
    spans: Seq<Span>,
    query: BlockQuery,
    p: usize,
    q: usize,
) -> bool {
    let a = blocks[p as int];
    let b = blocks[q as int];
    let first = first_time(blocks, spans, p as int, query);
    let second = first_time(blocks, spans, q as int, query);
    ||| first < second
    ||| first == second && a.min_time < b.min_time
    ||| first == second && a.min_time == b.min_time && a.max_time < b.max_time
    ||| first == second && a.min_time == b.min_time && a.max_time == b.max_time && p < q
}

/// The places stand in the order in which a request reads the blocks.
pub open spec fn in_read_order(
    places: Seq<usize>,
    blocks: Seq<StoreBlock>,
    spans: Seq<Span>,
    query: BlockQuery,
) -> bool {
    forall|i: int, j: int|
        0 <= i < j < places.len() ==> read_before(
            blocks,
            spans,
            query,
            #[trigger] places[i],
            #[trigger] places[j],
        )
}

/// The places are those of the blocks that a request reads, in order.
pub open spec fn are_read_blocks(
    places: Seq<usize>,
    blocks: Seq<StoreBlock>,
    spans: Seq<Span>,
    query: BlockQuery,
    hints: Seq<MatcherModel>,
) -> bool {
    &&& in_read_order(places, blocks, spans, query)
    &&& forall|p: usize|
        #[trigger] places.contains(p) <==> is_read(blocks, spans, p as int, query, hints)
}

/// The places are those of the blocks that a request is answered from, in order: it reads them, and
/// their external labels admit the conditions on series.
pub open spec fn are_queried(
    places: Seq<usize>,
    blocks: Seq<StoreBlock>,
    spans: Seq<Span>,
    query: BlockQuery,
    conditions: Seq<MatcherModel>,
    hints: Seq<MatcherModel>,
) -> bool {
    &&& in_read_order(places, blocks, spans, query)
    &&& forall|p: usize|
        #[trigger] places.contains(p) <==> is_read(blocks, spans, p as int, query, hints) && admits(
            blocks[p as int].external_labels@,
            conditions,
        )
}

struct FoundBlock {
    position: usize,
    first: i64,
    min_time: i64,
    max_time: i64,
}

impl Ranked for FoundBlock {
    closed spec fn before(&self, other: &Self) -> bool {
        ||| self.first < other.first
        ||| self.first == other.first && self.min_time < other.min_time
        ||| self.first == other.first && self.min_time == other.min_time && self.max_time
            <= other.max_time
    }

    proof fn lemma_total(a: &Self, b: &Self) {
    }

    proof fn lemma_transitive(a: &Self, b: &Self, c: &Self) {
    }

    fn may_precede(&self, other: &Self) -> (result: bool) {
        self.first < other.first || self.first == other.first && (self.min_time < other.min_time
            || self.min_time == other.min_time && self.max_time <= other.max_time)
    }
}

spec fn stands_for_block(
    found: FoundBlock,
    blocks: Seq<StoreBlock>,
    spans: Seq<Span>,
    query: BlockQuery,
) -> bool {
    let b = found.position as int;
    &&& 0 <= b < blocks.len()
    &&& found.first == first_time(blocks, spans, b, query)
    &&& found.min_time == blocks[b].min_time
    &&& found.max_time == blocks[b].max_time
}

spec fn holds_position(found: Seq<FoundBlock>, p: usize) -> bool {
    exists|k: int| 0 <= k < found.len() && (#[trigger] found[k]).position == p
}

proof fn lemma_sorted_blocks(
    found: Seq<FoundBlock>,
    sorted: Seq<FoundBlock>,
    blocks: Seq<StoreBlock>,
    spans: Seq<Span>,
    query: BlockQuery,
)
    requires
        is_stable_sort(found, sorted),
        forall|k: int|
            0 <= k < found.len() ==> stands_for_block(#[trigger] found[k], blocks, spans, query),
        forall|i: int, j: int|
            0 <= i < j < found.len() ==> (#[trigger] found[i]).position < (
            #[trigger] found[j]).position,
    ensures
        forall|p: usize| #[trigger] holds_position(sorted, p) == holds_position(found, p),
        forall|i: int, j: int|
            0 <= i < j < sorted.len() ==> read_before(
                blocks,
                spans,
                query,
                (#[trigger] sorted[i]).position,
                (#[trigger] sorted[j]).position,
            ),
{
    let places = choose|places: Seq<int>| #[trigger] sorted_by_places(found, sorted, places);
    law_sort_keeps_values(found, sorted, places);
    assert forall|p: usize| #[trigger] holds_position(sorted, p) == holds_position(found, p) by {
        if holds_position(sorted, p) {
            let k = choose|k: int| 0 <= k < sorted.len() && (#[trigger] sorted[k]).position == p;
            assert(found[places[k]].position == p);
        }
        if holds_position(found, p) {
            let m = choose|k: int| 0 <= k < found.len() && (#[trigger] found[k]).position == p;
            assert(places.contains(m));
            let k = places.index_of(m);
            assert(sorted[k].position == p);
        }
    }
    assert forall|i: int, j: int| 0 <= i < j < sorted.len() implies read_before(
        blocks,
        spans,
        query,
        (#[trigger] sorted[i]).position,
        (#[trigger] sorted[j]).position,
    ) by {
        let a = sorted[i];
        let b = sorted[j];
        assert(stands_before(a, places[i], b, places[j]));
        assert(a == found[places[i]] && b == found[places[j]]);
        assert(stands_for_block(a, blocks, spans, query));
        assert(stands_for_block(b, blocks, spans, query));
        if b.before(&a) {
            assert(found[places[i]].position < found[places[j]].position);
        }
    }
}

proof fn lemma_first_time(
    blocks: Seq<StoreBlock>,
    spans: Seq<Span>,
    b: int,
    query: BlockQuery,
    time: int,
)
    requires
        is_first(blocks, spans, b, query, time),
    ensures
        first_time(blocks, spans, b, query) == time,
{
    let other = first_time(blocks, spans, b, query);
    assert(is_first(blocks, spans, b, query, other));
    assert(fills(blocks, spans, b, query, other) && fills(blocks, spans, b, query, time));
}

fn collect_read(
    blocks: &Vec<StoreBlock>,
    spans: &Vec<Span>,
    query: &BlockQuery,
    hints: &Vec<Matcher>,
) -> (found: Vec<FoundBlock>)
    requires
        spans@.len() == blocks@.len(),
    ensures
        forall|p: usize|
            holds_position(found@, p) <==> #[trigger] is_read(
                blocks@,
                spans@,
                p as int,
                *query,
                matcher_models(hints@),
            ),
        forall|k: int|
            0 <= k < found@.len() ==> stands_for_block(
                #[trigger] found@[k],
                blocks@,
                spans@,
                *query,
            ),
        forall|i: int, j: int|
            0 <= i < j < found@.len() ==> (#[trigger] found@[i]).position < (
            #[trigger] found@[j]).position,
{
    let ghost wanted = matcher_models(hints@);
    let mut found: Vec<FoundBlock> = Vec::new();
    let mut b: usize = 0;
    while b < blocks.len()
        invariant
            b <= blocks@.len(),
            spans@.len() == blocks@.len(),
            wanted == matcher_models(hints@),
            forall|k: int|
                0 <= k < found@.len() ==> (#[trigger] found@[k]).position < b && is_read(
                    blocks@,
                    spans@,
                    found@[k].position as int,
                    *query,
                    wanted,
                ),
            forall|p: usize|
                p < b && #[trigger] is_read(blocks@, spans@, p as int, *query, wanted)
                    ==> holds_position(found@, p),
            forall|k: int|
                0 <= k < found@.len() ==> stands_for_block(
                    #[trigger] found@[k],
                    blocks@,
                    spans@,
                    *query,
                ),
            forall|i: int, j: int|
                0 <= i < j < found@.len() ==> (#[trigger] found@[i]).position < (
                #[trigger] found@[j]).position,
        decreases blocks.len() - b,
    {
        let block = &blocks[b];
        let ghost before = found@;
        if is_eligible(block.resolution, query.raw, query.window) && is_hinted(block, hints) {
            if let Some(first) = first_filled(blocks, spans, b, query) {
                found.push(
                    FoundBlock {
                        position: b,
                        first,
                        min_time: block.min_time,
                        max_time: block.max_time,
                    },
                );
                proof {
                    lemma_first_time(blocks@, spans@, b as int, *query, first as int);
                    assert(fills(blocks@, spans@, b as int, *query, first as int));
                    assert(is_read(blocks@, spans@, b as int, *query, wanted));
                    assert(found@[before.len() as int].position == b);
                }
            }
        }
        assert forall|p: usize|
            p < b + 1 && #[trigger] is_read(
                blocks@,
                spans@,
                p as int,
                *query,
                wanted,
            ) implies holds_position(found@, p) by {
            if p < b {
                let k = choose|k: int| 0 <= k < before.len() && (#[trigger] before[k]).position == p;
                assert(found@[k] == before[k]);
            } else {
                assert(found@[before.len() as int].position == p);
            }
        }
        b = b + 1;
    }
    found
}

/// Finds the blocks that a request for series reads, in order.
pub fn read_blocks(
    blocks: &Vec<StoreBlock>,
    spans: &Vec<Span>,
    query: &BlockQuery,
    hints: &Vec<Matcher>,
) -> (places: Vec<usize>)
    requires
        spans@.len() == blocks@.len(),
    ensures
        are_read_blocks(places@, blocks@, spans@, *query, matcher_models(hints@)),
{
    let found = collect_read(blocks, spans, query, hints);
    let ghost unsorted = found@;
    let sorted = stable_sort(found);
    proof {
        lemma_sorted_blocks(unsorted, sorted@, blocks@, spans@, *query);
    }
    let mut places: Vec<usize> = Vec::new();
    let mut i: usize = 0;
    while i < sorted.len()
        invariant
            i <= sorted@.len(),
            places@.len() == i,
            forall|k: int| 0 <= k < i ==> #[trigger] places@[k] == sorted@[k].position,
        decreases sorted.len() - i,
    {
        places.push(sorted[i].position);
        i = i + 1;
    }
    assert forall|p: usize| #[trigger] places@.contains(p) == is_read(
        blocks@,
        spans@,
        p as int,
        *query,
        matcher_models(hints@),
    ) by {
        if places@.contains(p) {
            let k = places@.index_of(p);
            assert(sorted@[k].position == p);
        }
        if holds_position(sorted@, p) {
            let k = choose|k: int| 0 <= k < sorted@.len() && (#[trigger] sorted@[k]).position == p;
            assert(places@[k] == p);
        }
    }
    places
}

/// Finds the blocks that a request for series is answered from, in order.
pub fn queried_blocks(
    blocks: &Vec<StoreBlock>,
    spans: &Vec<Span>,
    query: &BlockQuery,
    matchers: &Vec<Matcher>,
    hints: &Vec<Matcher>,
) -> (queried: Vec<usize>)
    requires
        spans@.len() == blocks@.len(),
    ensures
        are_queried(
            queried@,
            blocks@,
            spans@,
            *query,
            matcher_models(matchers@),
            matcher_models(hints@),
        ),
{
    let places = read_blocks(blocks, spans, query, hints);
    admitted_blocks(
        blocks,
        &places,
        matchers,
        Ghost(spans@),
        Ghost(*query),
        Ghost(matcher_models(hints@)),
    )
}

/// Of the blocks that a request reads, finds those that it is answered from.
pub(crate) fn admitted_blocks(
    blocks: &Vec<StoreBlock>,
    places: &Vec<usize>,
    matchers: &Vec<Matcher>,
    Ghost(spans): Ghost<Seq<Span>>,
    Ghost(query): Ghost<BlockQuery>,
    Ghost(hints): Ghost<Seq<MatcherModel>>,
) -> (queried: Vec<usize>)
    requires
        are_read_blocks(places@, blocks@, spans, query, hints),
    ensures
        are_queried(queried@, blocks@, spans, query, matcher_models(matchers@), hints),
{
    let ghost conditions = matcher_models(matchers@);
    let ghost mut from: Seq<int> = Seq::empty();
    let mut queried: Vec<usize> = Vec::new();
    let mut i: usize = 0;
    while i < places.len()
        invariant
            i <= places@.len(),
            conditions == matcher_models(matchers@),
            are_read_blocks(places@, blocks@, spans, query, hints),
            from.len() == queried@.len(),
            forall|k: int|
                0 <= k < from.len() ==> 0 <= #[trigger] from[k] < i && queried@[k]
                    == places@[from[k]] && admits(
                    blocks@[queried@[k] as int].external_labels@,
                    conditions,
                ),
            forall|a: int, b: int|
                0 <= a < b < from.len() ==> #[trigger] from[a] < #[trigger] from[b],
            forall|m: int|
                0 <= m < i && admits(
                    blocks@[(#[trigger] places@[m]) as int].external_labels@,
                    conditions,
                ) ==> from.contains(m),
        decreases places.len() - i,
    {
        let place: usize = places[i];
        assert(places@.contains(place));
        assert(is_read(blocks@, spans, place as int, query, hints));
        let ghost before = from;
        if admits_all(&blocks[place].external_labels, matchers) {
            queried.push(place);
            proof {
                from = from.push(i as int);
                assert(from[before.len() as int] == i);
                assert forall|m: int| before.contains(m) implies from.contains(m) by {
                    assert(from[before.index_of(m)] == m);
                }
            }
        }
        i = i + 1;
    }
    proof {
        assert forall|p: usize| #[trigger] queried@.contains(p) == (is_read(
            blocks@,
            spans,
            p as int,
            query,
            hints,
        ) && admits(blocks@[p as int].external_labels@, conditions)) by {
            if queried@.contains(p) {
                let k = queried@.index_of(p);
                assert(places@[from[k]] == p);
                assert(places@.contains(p));
            }
            if is_read(blocks@, spans, p as int, query, hints) && admits(
                blocks@[p as int].external_labels@,
                conditions,
            ) {
                assert(places@.contains(p));
                let m = places@.index_of(p);
                assert(places@[m] == p);
                let k = from.index_of(m);
                assert(from[k] == m);
                assert(queried@[k] == p);
            }
        }
        assert forall|a: int, b: int| 0 <= a < b < queried@.len() implies read_before(
            blocks@,
            spans,
            query,
            #[trigger] queried@[a],
            #[trigger] queried@[b],
        ) by {
            assert(from[a] < from[b]);
            assert(read_before(blocks@, spans, query, places@[from[a]], places@[from[b]]));
        }
    }
    queried
}

/// What hints say leaves blocks out and brings none in: the blocks that cover a request are found
/// before, so that no finer block takes the place of one that is left out.
pub proof fn law_hints_bring_no_block_in(
    blocks: Seq<StoreBlock>,
    spans: Seq<Span>,
    b: int,
    query: BlockQuery,
    hints: Seq<MatcherModel>,
)
    ensures
        is_read(blocks, spans, b, query, hints) ==> is_read(blocks, spans, b, query, Seq::empty()),
        is_read(blocks, spans, b, query, Seq::empty()) && all_hold(block_labels(blocks[b]), hints)
            ==> is_read(blocks, spans, b, query, hints),
{
}

/// Two stretches of time have a time in common.
pub open spec fn meets(a: Span, b: Span) -> bool {
    a.first <= a.last && b.first <= b.last && a.first <= b.last && b.first <= a.last
}

/// A request for labels is answered from a block: one of any resolution that holds a time of the
/// request.
pub open spec fn is_listed(
    block: StoreBlock,
    span: Span,
    times: Span,
    conditions: Seq<MatcherModel>,
    hints: Seq<MatcherModel>,
) -> bool {
    &&& meets(span, times)
    &&& admits(block.external_labels@, conditions)
    &&& all_hold(block_labels(block), hints)
}

/// The places are those of the blocks that a request for labels is answered from, in order.
pub open spec fn are_listed(
    places: Seq<usize>,
    blocks: Seq<StoreBlock>,
    spans: Seq<Span>,
    times: Span,
    conditions: Seq<MatcherModel>,
    hints: Seq<MatcherModel>,
) -> bool {
    &&& forall|i: int, j: int|
        0 <= i < j < places.len() ==> #[trigger] places[i] < #[trigger] places[j]
    &&& forall|p: usize|
        #[trigger] places.contains(p) <==> p < blocks.len() && is_listed(
            blocks[p as int],
            spans[p as int],
            times,
            conditions,
            hints,
        )
}

/// Finds the blocks that a request for labels is answered from.
pub fn listed_blocks(
    blocks: &Vec<StoreBlock>,
    spans: &Vec<Span>,
    times: Span,
    matchers: &Vec<Matcher>,
    hints: &Vec<Matcher>,
) -> (places: Vec<usize>)
    requires
        spans@.len() == blocks@.len(),
    ensures
        are_listed(
            places@,
            blocks@,
            spans@,
            times,
            matcher_models(matchers@),
            matcher_models(hints@),
        ),
{
    let ghost conditions = matcher_models(matchers@);
    let ghost wanted = matcher_models(hints@);
    let mut places: Vec<usize> = Vec::new();
    let mut b: usize = 0;
    while b < blocks.len()
        invariant
            b <= blocks@.len(),
            spans@.len() == blocks@.len(),
            conditions == matcher_models(matchers@),
            wanted == matcher_models(hints@),
            forall|i: int| 0 <= i < places@.len() ==> #[trigger] places@[i] < b,
            forall|i: int, j: int|
                0 <= i < j < places@.len() ==> #[trigger] places@[i] < #[trigger] places@[j],
            forall|p: usize|
                #[trigger] places@.contains(p) <==> p < b && is_listed(
                    blocks@[p as int],
                    spans@[p as int],
                    times,
                    conditions,
                    wanted,
                ),
        decreases blocks.len() - b,
    {
        let block = &blocks[b];
        let span = spans[b];
        if span.first <= span.last && times.first <= times.last && span.first <= times.last
            && times.first <= span.last && admits_all(&block.external_labels, matchers)
            && is_hinted(block, hints) {
            let ghost before = places@;
            places.push(b);
            assert forall|p: usize| #[trigger] places@.contains(p) == (before.contains(p) || p
                == b) by {
                if before.contains(p) {
                    assert(places@[before.index_of(p)] == p);
                }
                assert(places@[before.len() as int] == b);
                if places@.contains(p) && p != b {
                    assert(before[places@.index_of(p)] == p);
                }
            }
        }
        b = b + 1;
    }
    places
}

/// Says of each block whether it satisfies the conditions on blocks.
pub(crate) fn hinted_blocks(blocks: &Vec<StoreBlock>, hints: &Vec<Matcher>) -> (marked: Vec<bool>)
    ensures
        marked@.len() == blocks@.len(),
        forall|b: int|
            0 <= b < marked@.len() ==> (#[trigger] marked@[b] == all_hold(
                block_labels(blocks@[b]),
                matcher_models(hints@),
            )),
{
    let mut marked: Vec<bool> = Vec::new();
    let mut b: usize = 0;
    while b < blocks.len()
        invariant
            b <= blocks@.len(),
            marked@.len() == b,
            forall|k: int|
                0 <= k < b ==> (#[trigger] marked@[k] == all_hold(
                    block_labels(blocks@[k]),
                    matcher_models(hints@),
                )),
        decreases blocks.len() - b,
    {
        marked.push(is_hinted(&blocks[b], hints));
        b = b + 1;
    }
    marked
}

/// Says for each of a number of places whether it is in a list.
pub(crate) fn marks(places: &Vec<usize>, count: usize) -> (marked: Vec<bool>)
    ensures
        marked@.len() == count,
        forall|p: usize| p < count ==> (#[trigger] marked@[p as int] == places@.contains(p)),
{
    let mut marked: Vec<bool> = Vec::new();
    let mut p: usize = 0;
    while p < count
        invariant
            p <= count,
            marked@.len() == p,
            forall|k: int| 0 <= k < p ==> !#[trigger] marked@[k],
        decreases count - p,
    {
        marked.push(false);
        p = p + 1;
    }
    let mut i: usize = 0;
    while i < places.len()
        invariant
            i <= places@.len(),
            marked@.len() == count,
            forall|k: usize|
                k < count ==> (#[trigger] marked@[k as int] == places@.take(i as int).contains(k)),
        decreases places.len() - i,
    {
        let place: usize = places[i];
        let ghost shorter = places@.take(i as int);
        let ghost longer = places@.take(i + 1);
        assert forall|k: usize| longer.contains(k) == (shorter.contains(k) || k == place) by {
            if shorter.contains(k) {
                assert(longer[shorter.index_of(k)] == k);
            }
            assert(longer[i as int] == place);
            if longer.contains(k) && k != place {
                assert(shorter[longer.index_of(k)] == k);
            }
        }
        if place < count {
            marked.set(place, true);
        }
        i = i + 1;
    }
    assert(places@.take(places@.len() as int) =~= places@);
    marked
}

/// Copies the ids of blocks.
pub fn block_ids(blocks: &Vec<StoreBlock>, places: &Vec<usize>) -> (ids: Vec<String>)
    requires
        forall|i: int| 0 <= i < places@.len() ==> (#[trigger] places@[i]) < blocks@.len(),
    ensures
        ids@.len() == places@.len(),
        forall|i: int|
            0 <= i < ids@.len() ==> (#[trigger] ids@[i])@ == blocks@[places@[i] as int].id@,
{
    let mut ids: Vec<String> = Vec::new();
    let mut i: usize = 0;
    while i < places.len()
        invariant
            i <= places@.len(),
            forall|k: int| 0 <= k < places@.len() ==> (#[trigger] places@[k]) < blocks@.len(),
            ids@.len() == i,
            forall|k: int| 0 <= k < i ==> (#[trigger] ids@[k])@ == blocks@[places@[k] as int].id@,
        decreases places.len() - i,
    {
        ids.push(blocks[places[i]].id.clone());
        i = i + 1;
    }
    ids
}

/// Where raw samples are asked for, only blocks that were not downsampled may be used; otherwise all
/// blocks up to the coarsest resolution that the request lets pass.
pub proof fn law_resolutions_are_limited(resolution: i64, window: i64)
    ensures
        eligible(resolution, true, window) <==> resolution == 0,
        eligible(resolution, false, window) <==> resolution <= window,
{
}

/// Conditions on blocks go by the external labels of a block and by its id.
pub proof fn law_blocks_are_known_by_labels_and_id(block: StoreBlock, name: Seq<char>)
    ensures
        block_labels(block).contains_key("__block_id"@),
        block_labels(block)["__block_id"@] == block.id@,
        name != "__block_id"@ ==> block_labels(block).contains_key(name)
            == block.external_labels@.contains_key(name),
        name != "__block_id"@ && block.external_labels@.contains_key(name) ==> block_labels(
            block,
        )[name] == block.external_labels@[name],
{
}

/// Hints that are absent state no condition, those that were read state theirs, and those that cannot
/// be read make the request fail with the reason.
pub proof fn law_hints_state_their_conditions(hints: BlockHints, kind: Seq<char>)
    ensures
        match hints {
            BlockHints::Absent => hinted(hints, kind) == Ok::<
                Seq<MatcherModel>,
                StoreErrorModel,
            >(Seq::empty()),
            BlockHints::Matchers(matchers) => hinted(hints, kind) == compiled_all(matchers@),
            BlockHints::Unreadable(reason) => hinted(hints, kind) == Err::<
                Seq<MatcherModel>,
                StoreErrorModel,
            >(StoreErrorModel::UnreadableHints(kind, reason@)),
        },
{
}

/// External labels rule a block out exactly if a condition speaks of one of them that is not empty
/// and does not hold.
pub proof fn law_labels_rule_out_what_contradicts_them(
    external: Map<Seq<char>, Seq<char>>,
    conditions: Seq<MatcherModel>,
)
    ensures
        !admits(external, conditions) <==> exists|i: int|
            {
                &&& 0 <= i < conditions.len()
                &&& external.contains_key((#[trigger] conditions[i]).label())
                &&& external[conditions[i].label()].len() > 0
                &&& !conditions[i].holds(external)
            },
{
    if !admits(external, conditions) {
        let i = choose|i: int|
            0 <= i < conditions.len() && !(label_value(
                external,
                (#[trigger] conditions[i]).label(),
            ).len() == 0 || conditions[i].holds(external));
        assert(external.contains_key(conditions[i].label()));
    }
}

/// Two stretches of time meet exactly if there is a time in both of them.
pub proof fn law_meeting_stretches_share_a_time(a: Span, b: Span)
    ensures
        meets(a, b) <==> exists|time: int| #[trigger] a.holds(time) && b.holds(time),
{
    if meets(a, b) {
        let time = if a.first >= b.first {
            a.first as int
        } else {
            b.first as int
        };
        assert(a.holds(time) && b.holds(time));
    }
}

/// A block says that it holds the times from its smallest one on and before its largest one.
pub proof fn law_blocks_state_their_times(block: StoreBlock, time: int)
    ensures
        stated_span(block).holds(time) <==> block.min_time <= time < block.max_time,
{
}

/// The blocks of a request stand in the order of the times from which on they are used.
pub proof fn law_blocks_are_read_in_the_order_of_time(
    places: Seq<usize>,
    blocks: Seq<StoreBlock>,
    spans: Seq<Span>,
    query: BlockQuery,
    conditions: Seq<MatcherModel>,
    hints: Seq<MatcherModel>,
    i: int,
    j: int,
)
    requires
        are_queried(places, blocks, spans, query, conditions, hints),
        0 <= i < j < places.len(),
    ensures
        first_time(blocks, spans, places[i] as int, query) <= first_time(
            blocks,
            spans,
            places[j] as int,
            query,
        ),
        first_time(blocks, spans, places[i] as int, query) == first_time(
            blocks,
            spans,
            places[j] as int,
            query,
        ) ==> {
            let a = blocks[places[i] as int];
            let b = blocks[places[j] as int];
            &&& a.min_time <= b.min_time
            &&& a.min_time == b.min_time ==> a.max_time <= b.max_time
            &&& a.min_time == b.min_time && a.max_time == b.max_time ==> places[i] < places[j]
        },
        places[i] != places[j],
{
    assert(read_before(blocks, spans, query, places[i], places[j]));
}

/// The address of a message type names the message behind its last slash.
pub proof fn law_addresses_name_messages(prefix: Seq<char>, name: Seq<char>)
    requires
        !name.contains('/'),
    ensures
        names_message(prefix.push('/') + name, name),
{
    let url = prefix.push('/') + name;
    lemma_last_slash(prefix, name, url.len() as int);
    assert(url.skip(prefix.len() as int + 1) =~= name);
}

proof fn lemma_last_slash(prefix: Seq<char>, name: Seq<char>, end: int)
    requires
        !name.contains('/'),
        prefix.len() < end <= prefix.len() + 1 + name.len(),
    ensures
        find_last(prefix.push('/') + name, '/', end) == Some(prefix.len() as int),
    decreases end,
{
    let url = prefix.push('/') + name;
    if end > prefix.len() + 1 {
        assert(url[end - 1] == name[end - 2 - prefix.len()]);
        assert(name.contains(url[end - 1]));
        lemma_last_slash(prefix, name, end - 1);
    } else {
        assert(url[end - 1] == '/');
    }
}

/// The times of a block start and end with what the block says or with one of its chunks.
pub proof fn law_blocks_end_with_their_chunks(
    block: StoreBlock,
    b: int,
    descriptors: Seq<ChunkDescriptor>,
)
    ensures
        ({
            let span = block_span(block, b, descriptors);
            &&& span.first == stated_span(block).first || exists|p: int|
                {
                    &&& 0 <= p < descriptors.len()
                    &&& (#[trigger] descriptors[p]).block == b
                    &&& span.first == descriptors[p].chunk_mint || span.first
                        == descriptors[p].chunk_maxt
                }
            &&& span.last == stated_span(block).last || exists|p: int|
                {
                    &&& 0 <= p < descriptors.len()
                    &&& (#[trigger] descriptors[p]).block == b
                    &&& span.last == descriptors[p].chunk_mint || span.last
                        == descriptors[p].chunk_maxt
                }
        }),
    decreases descriptors.len(),
{
    if descriptors.len() > 0 {
        let rest = descriptors.drop_last();
        law_blocks_end_with_their_chunks(block, b, rest);
        let before = block_span(block, b, rest);
        let span = block_span(block, b, descriptors);
        let end = descriptors.len() - 1;
        assert(descriptors[end] == descriptors.last());
        if span.first == before.first && before.first != stated_span(block).first {
            let p = choose|p: int|
                {
                    &&& 0 <= p < rest.len()
                    &&& (#[trigger] rest[p]).block == b
                    &&& before.first == rest[p].chunk_mint || before.first == rest[p].chunk_maxt
                };
            assert(descriptors[p] == rest[p]);
        }
        if span.last == before.last && before.last != stated_span(block).last {
            let p = choose|p: int|
                {
                    &&& 0 <= p < rest.len()
                    &&& (#[trigger] rest[p]).block == b
                    &&& before.last == rest[p].chunk_mint || before.last == rest[p].chunk_maxt
                };
            assert(descriptors[p] == rest[p]);
        }
    }
}

/// A request is answered from exactly those blocks that may be used, hold a time of the request which
/// no coarser usable block of the same repository and external labels holds, satisfy the conditions on
/// blocks, and are not ruled out by the conditions on series.
#[verifier::spinoff_prover]
#[verifier::rlimit(60)]
pub proof fn law_requests_are_answered_from_the_blocks_they_need(
    places: Seq<usize>,
    blocks: Seq<StoreBlock>,
    spans: Seq<Span>,
    query: BlockQuery,
    conditions: Seq<MatcherModel>,
    hints: Seq<MatcherModel>,
    p: usize,
)
    requires
        are_queried(places, blocks, spans, query, conditions, hints),
    ensures
        places.contains(p) <==> {
            &&& p < blocks.len()
            &&& query.raw ==> blocks[p as int].resolution == 0
            &&& !query.raw ==> blocks[p as int].resolution <= query.window
            &&& exists|time: int|
                {
                    &&& query.times.first <= time <= query.times.last
                    &&& #[trigger] spans[p as int].holds(time)
                    &&& forall|q: int|
                        {
                            &&& 0 <= q < blocks.len()
                            &&& (#[trigger] blocks[q]).resolution > blocks[p as int].resolution
                            &&& query.raw ==> blocks[q].resolution == 0
                            &&& !query.raw ==> blocks[q].resolution <= query.window
                            &&& blocks[q].repository_uri@ == blocks[p as int].repository_uri@
                            &&& blocks[q].external_labels.pairs()
                                == blocks[p as int].external_labels.pairs()
                        } ==> !spans[q].holds(time)
                }
            &&& all_hold(block_labels(blocks[p as int]), hints)
            &&& admits(blocks[p as int].external_labels@, conditions)
        },
{
    let b = p as int;
    if places.contains(p) {
        let time = choose|time: int| #[trigger] fills(blocks, spans, b, query, time);
        assert(spans[b].holds(time));
        assert forall|q: int|
            {
                &&& 0 <= q < blocks.len()
                &&& (#[trigger] blocks[q]).resolution > blocks[b].resolution
                &&& query.raw ==> blocks[q].resolution == 0
                &&& !query.raw ==> blocks[q].resolution <= query.window
                &&& blocks[q].repository_uri@ == blocks[b].repository_uri@
                &&& blocks[q].external_labels.pairs() == blocks[b].external_labels.pairs()
            } implies !spans[q].holds(time) by {
            assert(is_coarser(blocks, q, b, query));
        }
    } else if p < blocks.len() && eligible(blocks[b].resolution, query.raw, query.window)
        && all_hold(block_labels(blocks[b]), hints) && admits(
        blocks[b].external_labels@,
        conditions,
    ) {
        assert(!is_covering(blocks, spans, b, query));
        assert forall|time: int|
            query.times.first <= time <= query.times.last && #[trigger] spans[b].holds(
                time,
            ) implies exists|q: int|
            {
                &&& 0 <= q < blocks.len()
                &&& (#[trigger] blocks[q]).resolution > blocks[b].resolution
                &&& query.raw ==> blocks[q].resolution == 0
                &&& !query.raw ==> blocks[q].resolution <= query.window
                &&& blocks[q].repository_uri@ == blocks[b].repository_uri@
                &&& blocks[q].external_labels.pairs() == blocks[b].external_labels.pairs()
                &&& spans[q].holds(time)
            } by {
            assert(!fills(blocks, spans, b, query, time));
            let q = choose|q: int| #[trigger]
                is_coarser(blocks, q, b, query) && spans[q].holds(time);
            assert(blocks[q].resolution > blocks[b].resolution);
        }
    }
}

/// The first time that a block is used for is a time of the request that the block holds, and the
/// block is used for none before it.
pub proof fn law_the_first_time_is_the_first(
    blocks: Seq<StoreBlock>,
    spans: Seq<Span>,
    b: int,
    query: BlockQuery,
    time: int,
)
    requires
        fills(blocks, spans, b, query, time),
    ensures
        first_time(blocks, spans, b, query) <= time,
        query.times.holds(first_time(blocks, spans, b, query)),
        spans[b].holds(first_time(blocks, spans, b, query)),
    decreases time - query.times.first,
{
    if exists|other: int| #[trigger] fills(blocks, spans, b, query, other) && other < time {
        let other = choose|other: int| #[trigger]
            fills(blocks, spans, b, query, other) && other < time;
        law_the_first_time_is_the_first(blocks, spans, b, query, other);
    } else {
        assert(is_first(blocks, spans, b, query, time));
    }
}

/// A request for labels is answered from exactly those blocks, of any resolution, that hold a time of
/// the request, satisfy the conditions on blocks, and are not ruled out by the conditions on series;
/// they stand in the order of their places.
pub proof fn law_labels_are_listed_from_the_blocks_of_their_times(
    places: Seq<usize>,
    blocks: Seq<StoreBlock>,
    spans: Seq<Span>,
    times: Span,
    conditions: Seq<MatcherModel>,
    hints: Seq<MatcherModel>,
    p: usize,
)
    requires
        are_listed(places, blocks, spans, times, conditions, hints),
    ensures
        places.contains(p) <==> {
            &&& p < blocks.len()
            &&& exists|time: int| #[trigger] spans[p as int].holds(time) && times.holds(time)
            &&& all_hold(block_labels(blocks[p as int]), hints)
            &&& admits(blocks[p as int].external_labels@, conditions)
        },
        forall|i: int, j: int|
            0 <= i < j < places.len() ==> #[trigger] places[i] < #[trigger] places[j],
{
    if p < blocks.len() {
        law_meeting_stretches_share_a_time(spans[p as int], times);
    }
}

/// Blocks are told apart by their repositories and their ids: a block has its own, and blocks that
/// differ in one of them have no name in common.
pub proof fn law_blocks_are_named_by_repository_and_id(
    first: StoreBlock,
    second: StoreBlock,
    repository_uri: Seq<char>,
    id: Seq<char>,
)
    ensures
        is_named(first, first.repository_uri@, first.id@),
        is_named(first, repository_uri, id) && is_named(second, repository_uri, id)
            ==> first.repository_uri@ == second.repository_uri@ && first.id@ == second.id@,
{
}

} // verus!
