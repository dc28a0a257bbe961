//! What a store says of itself: the labels and the times of its blocks.

use vstd::prelude::*;

use crate::block_choice::StoreBlock;
#[allow(unused_imports)]
use crate::labels::{
    lemma_pairs_lt_asymmetric, lemma_pairs_lt_total, lemma_pairs_lt_transitive, pairs_lt,
};
use crate::labels::{compare_labels, copy_labels, Labels};
use crate::sort::{stable_sort, Ranked};
#[allow(unused_imports)]
use crate::sort::{
    is_stable_sort, law_sort_keeps_values, law_sorted_values_are_in_order, sorted_by_places,
    stands_before,
};
use crate::text::Order;

verus! {

/// The times and the external labels of a block.
pub struct BlockMetadata {
    pub min_time: i64,
    pub max_time: i64,
    pub external_labels: Labels,
}

/// What a block says of its times and external labels.
pub open spec fn is_metadata(metadata: BlockMetadata, block: StoreBlock) -> bool {
    &&& metadata.min_time == block.min_time
    &&& metadata.max_time == block.max_time
    &&& metadata.external_labels.pairs() == block.external_labels.pairs()
}

/// Copies the times and the external labels of blocks.
pub fn block_metadata(blocks: &Vec<StoreBlock>) -> (list: Vec<BlockMetadata>)
    ensures
        list@.len() == blocks@.len(),
        forall|b: int|
            0 <= b < list@.len() ==> is_metadata(#[trigger] list@[b], blocks@[b]),
        forall|b: int|
            0 <= b < list@.len() ==> (#[trigger] list@[b]).min_time == blocks@[b].min_time
                && list@[b].max_time == blocks@[b].max_time && list@[b].external_labels.pairs()
                == blocks@[b].external_labels.pairs(),
{
    let mut list: Vec<BlockMetadata> = Vec::new();
    let mut b: usize = 0;
    while b < blocks.len()
        invariant
            b <= blocks@.len(),
            list@.len() == b,
            forall|k: int| 0 <= k < b ==> is_metadata(#[trigger] list@[k], blocks@[k]),
        decreases blocks.len() - b,
    {
        let block = &blocks[b];
        list.push(
            BlockMetadata {
                min_time: block.min_time,
                max_time: block.max_time,
                external_labels: copy_labels(&block.external_labels),
            },
        );
        b = b + 1;
    }
    list
}

impl Ranked for BlockMetadata {
    open spec fn before(&self, other: &Self) -> bool {
        ||| pairs_lt(self.external_labels.pairs(), other.external_labels.pairs())
        ||| {
            &&& self.external_labels.pairs() == other.external_labels.pairs()
            &&& self.min_time <= other.min_time
        }
    }

    proof fn lemma_total(a: &Self, b: &Self) {
        lemma_pairs_lt_total(a.external_labels.pairs(), b.external_labels.pairs());
    }

    proof fn lemma_transitive(a: &Self, b: &Self, c: &Self) {
        if pairs_lt(a.external_labels.pairs(), b.external_labels.pairs()) && pairs_lt(
            b.external_labels.pairs(),
            c.external_labels.pairs(),
        ) {
            lemma_pairs_lt_transitive(
                a.external_labels.pairs(),
                b.external_labels.pairs(),
                c.external_labels.pairs(),
            );
        }
    }

    fn may_precede(&self, other: &Self) -> (result: bool) {
        match compare_labels(&self.external_labels, &other.external_labels) {
            Order::Less => true,
            Order::Greater => {
                proof {
                    lemma_pairs_lt_asymmetric(
                        other.external_labels.pairs(),
                        self.external_labels.pairs(),
                    );
                }
                false
            },
            Order::Equal => {
                proof {
                    lemma_pairs_lt_asymmetric(
                        self.external_labels.pairs(),
                        other.external_labels.pairs(),
                    );
                }
                self.min_time <= other.min_time
            },
        }
    }
}

/// Times that the blocks with some external labels cover without a gap.
pub struct TsdbInfo {
    pub labels: Labels,
    pub min_time: i64,
    pub max_time: i64,
}

/// What a range of times is.
pub struct RangeModel {
    pub labels: Seq<(Seq<char>, Seq<char>)>,
    pub min_time: i64,
    pub max_time: i64,
}

impl View for TsdbInfo {
    type V = RangeModel;

    open spec fn view(&self) -> RangeModel {
        RangeModel {
            labels: self.labels.pairs(),
            min_time: self.min_time,
            max_time: self.max_time,
        }
    }
}

/// What the ranges of a list are.
pub open spec fn range_models(infos: Seq<TsdbInfo>) -> Seq<RangeModel> {
    infos.map_values(|info: TsdbInfo| info@)
}

/// The larger of two times.
pub open spec fn later(a: i64, b: i64) -> i64 {
    if a >= b {
        a
    } else {
        b
    }
}

/// The smaller of two times.
pub open spec fn earlier(a: i64, b: i64) -> i64 {
    if a <= b {
        a
    } else {
        b
    }
}

/// The range of a block continues a range: it has the same labels and leaves no gap.
pub open spec fn continues(range: RangeModel, block: BlockMetadata) -> bool {
    range.labels == block.external_labels.pairs() && block.min_time <= range.max_time
}

/// The ranges of sorted blocks: blocks with the same labels that touch or overlap make one range.
pub open spec fn ranges(sorted: Seq<BlockMetadata>) -> Seq<RangeModel>
    decreases sorted.len(),
{
    if sorted.len() == 0 {
        Seq::empty()
    } else {
        let before = ranges(sorted.drop_last());
        let block = sorted.last();
        if before.len() > 0 && continues(before.last(), block) {
            before.drop_last().push(
                RangeModel {
                    max_time: later(before.last().max_time, block.max_time),
                    ..before.last()
                },
            )
        } else {
            before.push(
                RangeModel {
                    labels: block.external_labels.pairs(),
                    min_time: block.min_time,
                    max_time: block.max_time,
                },
            )
        }
    }
}

/// The labels of sorted ranges, each once.
pub open spec fn range_labels(ranges: Seq<RangeModel>) -> Seq<Seq<(Seq<char>, Seq<char>)>>
    decreases ranges.len(),
{
    if ranges.len() == 0 {
        Seq::empty()
    } else {
        let before = range_labels(ranges.drop_last());
        if before.len() > 0 && before.last() == ranges.last().labels {
            before
        } else {
            before.push(ranges.last().labels)
        }
    }
}

/// The earliest time of blocks, or the last time there is where there are none.
pub open spec fn earliest(blocks: Seq<BlockMetadata>) -> i64
    decreases blocks.len(),
{
    if blocks.len() == 0 {
        i64::MAX
    } else {
        earlier(earliest(blocks.drop_last()), blocks.last().min_time)
    }
}

/// The latest time of blocks, or the first time there is where there are none.
pub open spec fn latest(blocks: Seq<BlockMetadata>) -> i64
    decreases blocks.len(),
{
    if blocks.len() == 0 {
        i64::MIN
    } else {
        later(latest(blocks.drop_last()), blocks.last().max_time)
    }
}

/// What a store says of itself.
pub struct InfoResponse {
    pub component_type: String,
    pub label_sets: Vec<Labels>,
    pub min_time: i64,
    pub max_time: i64,
    pub supports_sharding: bool,
    pub supports_without_replica_labels: bool,
    pub tsdb_infos: Vec<TsdbInfo>,
}

/// The labels of a list.
pub open spec fn label_set_models(sets: Seq<Labels>) -> Seq<Seq<(Seq<char>, Seq<char>)>> {
    sets.map_values(|set: Labels| set.pairs())
}

/// The ranges are those of the blocks.
pub open spec fn are_ranges(infos: Seq<RangeModel>, blocks: Seq<BlockMetadata>) -> bool {
    exists|sorted: Seq<BlockMetadata>|
        #[trigger] is_stable_sort(blocks, sorted) && infos == ranges(sorted)
}

pub(crate) fn same_labels(a: &Labels, b: &Labels) -> (result: bool)
    ensures
        result == (a.pairs() == b.pairs()),
{
    match compare_labels(a, b) {
        Order::Equal => true,
        Order::Less => {
            proof {
                lemma_pairs_lt_asymmetric(a.pairs(), b.pairs());
            }
            false
        },
        Order::Greater => {
            proof {
                lemma_pairs_lt_asymmetric(b.pairs(), a.pairs());
            }
            false
        },
    }
}

fn collect_ranges(sorted: &Vec<BlockMetadata>) -> (infos: Vec<TsdbInfo>)
    ensures
        range_models(infos@) == ranges(sorted@),
{
    let mut infos: Vec<TsdbInfo> = Vec::new();
    let mut i: usize = 0;
    assert(range_models(infos@) =~= Seq::<RangeModel>::empty());
    while i < sorted.len()
        invariant
            i <= sorted@.len(),
            range_models(infos@) == ranges(sorted@.take(i as int)),
        decreases sorted.len() - i,
    {
        let block = &sorted[i];
        let ghost before = infos@;
        let ghost known = ranges(sorted@.take(i as int));
        proof {
            assert(sorted@.take(i + 1).drop_last() =~= sorted@.take(i as int));
            assert(sorted@.take(i + 1).last() == *block);
            assert(known.len() == before.len());
            assert(before.len() > 0 ==> known.last() == before.last()@);
        }
        let joins: bool = infos.len() > 0 && same_labels(
            &infos[infos.len() - 1].labels,
            &block.external_labels,
        ) && block.min_time <= infos[infos.len() - 1].max_time;
        if joins {
            if let Some(last) = infos.pop() {
                let max_time: i64 = if last.max_time >= block.max_time {
                    last.max_time
                } else {
                    block.max_time
                };
                let info = TsdbInfo { labels: last.labels, min_time: last.min_time, max_time };
                let ghost model = info@;
                infos.push(info);
                assert(range_models(infos@) =~= known.drop_last().push(model));
            }
        } else {
            let info = TsdbInfo {
                labels: copy_labels(&block.external_labels),
                min_time: block.min_time,
                max_time: block.max_time,
            };
            let ghost model = info@;
            infos.push(info);
            assert(range_models(infos@) =~= known.push(model));
        }
        i = i + 1;
    }
    assert(sorted@.take(sorted@.len() as int) =~= sorted@);
    infos
}

fn collect_label_sets(infos: &Vec<TsdbInfo>) -> (sets: Vec<Labels>)
    ensures
        label_set_models(sets@) == range_labels(range_models(infos@)),
{
    let ghost models = range_models(infos@);
    let mut sets: Vec<Labels> = Vec::new();
    let mut i: usize = 0;
    assert(label_set_models(sets@) =~= range_labels(models.take(0)));
    while i < infos.len()
        invariant
            i <= infos@.len(),
            models == range_models(infos@),
            label_set_models(sets@) == range_labels(models.take(i as int)),
        decreases infos.len() - i,
    {
        let ghost before = sets@;
        let ghost known = range_labels(models.take(i as int));
        proof {
            assert(models.take(i + 1).drop_last() =~= models.take(i as int));
            assert(models.take(i + 1).last() == infos@[i as int]@);
            assert(known.len() == before.len());
            assert(before.len() > 0 ==> known.last() == before.last().pairs());
        }
        let held: bool = sets.len() > 0 && same_labels(&sets[sets.len() - 1], &infos[i].labels);
        if !held {
            sets.push(copy_labels(&infos[i].labels));
            assert(label_set_models(sets@) =~= known.push(infos@[i as int]@.labels));
        }
        i = i + 1;
    }
    assert(models.take(infos@.len() as int) =~= models);
    sets
}

/// Says what a store holds.
pub fn info_response(blocks: Vec<BlockMetadata>) -> (info: InfoResponse)
    ensures
        info.component_type@ == "store"@,
        info.min_time == earliest(blocks@),
        info.max_time == latest(blocks@),
        info.supports_sharding,
        info.supports_without_replica_labels,
        are_ranges(range_models(info.tsdb_infos@), blocks@),
        label_set_models(info.label_sets@) == range_labels(range_models(info.tsdb_infos@)),
{
    let mut min_time: i64 = i64::MAX;
    let mut max_time: i64 = i64::MIN;
    let mut i: usize = 0;
    while i < blocks.len()
        invariant
            i <= blocks@.len(),
            min_time == earliest(blocks@.take(i as int)),
            max_time == latest(blocks@.take(i as int)),
        decreases blocks.len() - i,
    {
        assert(blocks@.take(i + 1).drop_last() =~= blocks@.take(i as int));
        if blocks[i].min_time < min_time {
            min_time = blocks[i].min_time;
        }
        if blocks[i].max_time > max_time {
            max_time = blocks[i].max_time;
        }
        i = i + 1;
    }
    assert(blocks@.take(blocks@.len() as int) =~= blocks@);
    let sorted = stable_sort(blocks);
    let tsdb_infos = collect_ranges(&sorted);
    let label_sets = collect_label_sets(&tsdb_infos);
    InfoResponse {
        component_type: "store".to_owned(),
        label_sets,
        min_time,
        max_time,
        supports_sharding: true,
        supports_without_replica_labels: true,
        tsdb_infos,
    }
}

spec fn blocks_in_order(sorted: Seq<BlockMetadata>) -> bool {
    forall|i: int, j: int|
        0 <= i < j < sorted.len() ==> block_before(#[trigger] sorted[i], #[trigger] sorted[j])
}

spec fn block_before(a: BlockMetadata, b: BlockMetadata) -> bool {
    a.before(&b)
}

/// A block starts a range.
spec fn starts(sorted: Seq<BlockMetadata>, range: RangeModel) -> bool {
    exists|k: int|
        {
            &&& 0 <= k < sorted.len()
            &&& (#[trigger] sorted[k]).external_labels.pairs() == range.labels
            &&& sorted[k].min_time == range.min_time
        }
}

/// A range of a list holds the times of a block with the same labels.
pub open spec fn covered(infos: Seq<RangeModel>, block: BlockMetadata) -> bool {
    exists|r: int|
        {
            &&& 0 <= r < infos.len()
            &&& (#[trigger] infos[r]).labels == block.external_labels.pairs()
            &&& infos[r].min_time <= block.min_time
            &&& block.max_time <= infos[r].max_time
        }
}

/// Two ranges stand in order: by their labels, or by their times with a gap between them.
pub open spec fn apart(a: RangeModel, b: RangeModel) -> bool {
    pairs_lt(a.labels, b.labels) || a.labels == b.labels && a.max_time < b.min_time
}

/// The ranges are in order, start with a block each, hold all blocks, and the last one has the
/// labels of the last block.
spec fn ranges_hold(sorted: Seq<BlockMetadata>, infos: Seq<RangeModel>) -> bool {
    &&& sorted.len() > 0 ==> infos.len() > 0 && infos.last().labels
        == sorted.last().external_labels.pairs()
    &&& forall|r: int| 0 <= r < infos.len() ==> starts(sorted, #[trigger] infos[r])
    &&& forall|r: int, s: int|
        0 <= r < s < infos.len() ==> apart(#[trigger] infos[r], #[trigger] infos[s])
    &&& forall|k: int| 0 <= k < sorted.len() ==> covered(infos, #[trigger] sorted[k])
}

/// The last range starts no later than a block behind it with the same labels.
proof fn lemma_last_starts_first(
    sorted: Seq<BlockMetadata>,
    infos: Seq<RangeModel>,
    block: BlockMetadata,
)
    requires
        blocks_in_order(sorted.push(block)),
        ranges_hold(sorted, infos),
        infos.len() > 0,
        infos.last().labels == block.external_labels.pairs(),
    ensures
        infos.last().min_time <= block.min_time,
{
    let all = sorted.push(block);
    assert(starts(sorted, infos[infos.len() - 1]));
    let k = choose|k: int|
        {
            &&& 0 <= k < sorted.len()
            &&& (#[trigger] sorted[k]).external_labels.pairs() == infos.last().labels
            &&& sorted[k].min_time == infos.last().min_time
        };
    assert(block_before(all[k], all[sorted.len() as int]));
    lemma_pairs_lt_asymmetric(infos.last().labels, infos.last().labels);
}

proof fn lemma_starts_push(sorted: Seq<BlockMetadata>, block: BlockMetadata, range: RangeModel)
    requires
        starts(sorted, range),
    ensures
        starts(sorted.push(block), range),
{
    let k = choose|k: int|
        {
            &&& 0 <= k < sorted.len()
            &&& (#[trigger] sorted[k]).external_labels.pairs() == range.labels
            &&& sorted[k].min_time == range.min_time
        };
    assert(sorted.push(block)[k] == sorted[k]);
}

proof fn lemma_extend_range(
    sorted: Seq<BlockMetadata>,
    infos: Seq<RangeModel>,
    block: BlockMetadata,
)
    requires
        blocks_in_order(sorted.push(block)),
        ranges_hold(sorted, infos),
        infos.len() > 0,
        continues(infos.last(), block),
    ensures
        ranges_hold(
            sorted.push(block),
            infos.drop_last().push(
                RangeModel {
                    max_time: later(infos.last().max_time, block.max_time),
                    ..infos.last()
                },
            ),
        ),
{
    let all = sorted.push(block);
    let range = RangeModel {
        max_time: later(infos.last().max_time, block.max_time),
        ..infos.last()
    };
    let after = infos.drop_last().push(range);
    let last = infos.len() - 1;
    lemma_last_starts_first(sorted, infos, block);
    assert forall|r: int| 0 <= r < after.len() implies starts(all, #[trigger] after[r]) by {
        assert(starts(sorted, infos[r]));
        lemma_starts_push(sorted, block, infos[r]);
        if r == last {
            assert(starts(all, infos[last]));
            let k = choose|k: int|
                {
                    &&& 0 <= k < all.len()
                    &&& (#[trigger] all[k]).external_labels.pairs() == infos[last].labels
                    &&& all[k].min_time == infos[last].min_time
                };
            assert(all[k].min_time == after[r].min_time);
        }
    }
    assert forall|r: int, s: int| 0 <= r < s < after.len() implies apart(
        #[trigger] after[r],
        #[trigger] after[s],
    ) by {
        assert(apart(infos[r], infos[s]));
    }
    assert forall|k: int| 0 <= k < all.len() implies covered(after, #[trigger] all[k]) by {
        if k < sorted.len() {
            assert(all[k] == sorted[k]);
            assert(covered(infos, sorted[k]));
            let r = choose|r: int|
                {
                    &&& 0 <= r < infos.len()
                    &&& (#[trigger] infos[r]).labels == sorted[k].external_labels.pairs()
                    &&& infos[r].min_time <= sorted[k].min_time
                    &&& sorted[k].max_time <= infos[r].max_time
                };
            assert(after[r].labels == infos[r].labels);
        } else {
            assert(after[last].labels == block.external_labels.pairs());
        }
    }
}

proof fn lemma_push_range(
    sorted: Seq<BlockMetadata>,
    infos: Seq<RangeModel>,
    block: BlockMetadata,
)
    requires
        blocks_in_order(sorted.push(block)),
        ranges_hold(sorted, infos),
        infos.len() > 0 ==> sorted.len() > 0,
        infos.len() > 0 ==> !continues(infos.last(), block),
    ensures
        ranges_hold(
            sorted.push(block),
            infos.push(
                RangeModel {
                    labels: block.external_labels.pairs(),
                    min_time: block.min_time,
                    max_time: block.max_time,
                },
            ),
        ),
{
    let all = sorted.push(block);
    let range = RangeModel {
        labels: block.external_labels.pairs(),
        min_time: block.min_time,
        max_time: block.max_time,
    };
    let after = infos.push(range);
    let last = infos.len() - 1;
    let n = sorted.len() as int;
    assert forall|r: int| 0 <= r < after.len() implies starts(all, #[trigger] after[r]) by {
        if r < infos.len() {
            assert(starts(sorted, infos[r]));
            lemma_starts_push(sorted, block, infos[r]);
        } else {
            assert(all[n].min_time == after[r].min_time);
        }
    }
    assert forall|r: int, s: int| 0 <= r < s < after.len() implies apart(
        #[trigger] after[r],
        #[trigger] after[s],
    ) by {
        if s <= last {
            assert(apart(infos[r], infos[s]));
        } else {
            assert(block_before(all[n - 1], all[n]));
            if infos[last].labels == range.labels {
                lemma_last_starts_first(sorted, infos, block);
            }
            if r < last {
                assert(apart(infos[r], infos[last]));
                if pairs_lt(infos[r].labels, infos[last].labels) && pairs_lt(
                    infos[last].labels,
                    range.labels,
                ) {
                    lemma_pairs_lt_transitive(infos[r].labels, infos[last].labels, range.labels);
                }
            }
        }
    }
    assert forall|k: int| 0 <= k < all.len() implies covered(after, #[trigger] all[k]) by {
        if k < n {
            assert(all[k] == sorted[k]);
            assert(covered(infos, sorted[k]));
            let r = choose|r: int|
                {
                    &&& 0 <= r < infos.len()
                    &&& (#[trigger] infos[r]).labels == sorted[k].external_labels.pairs()
                    &&& infos[r].min_time <= sorted[k].min_time
                    &&& sorted[k].max_time <= infos[r].max_time
                };
            assert(after[r] == infos[r]);
        } else {
            assert(after[last + 1].labels == block.external_labels.pairs());
        }
    }
}

proof fn lemma_ranges(sorted: Seq<BlockMetadata>)
    requires
        blocks_in_order(sorted),
    ensures
        ranges_hold(sorted, ranges(sorted)),
        ranges(sorted).len() > 0 ==> sorted.len() > 0,
    decreases sorted.len(),
{
    if sorted.len() > 0 {
        let shorter = sorted.drop_last();
        let block = sorted.last();
        assert forall|i: int, j: int| 0 <= i < j < shorter.len() implies block_before(
            #[trigger] shorter[i],
            #[trigger] shorter[j],
        ) by {
            assert(block_before(sorted[i], sorted[j]));
        }
        lemma_ranges(shorter);
        assert(shorter.push(block) =~= sorted);
        let before = ranges(shorter);
        if before.len() > 0 && continues(before.last(), block) {
            lemma_extend_range(shorter, before, block);
        } else {
            lemma_push_range(shorter, before, block);
        }
    }
}

proof fn lemma_sorted_blocks(blocks: Seq<BlockMetadata>, sorted: Seq<BlockMetadata>)
    requires
        is_stable_sort(blocks, sorted),
    ensures
        blocks_in_order(sorted),
        forall|i: int|
            0 <= i < blocks.len() ==> sorted.contains(#[trigger] blocks[i]),
{
    let places = choose|places: Seq<int>| #[trigger] sorted_by_places(blocks, sorted, places);
    law_sort_keeps_values(blocks, sorted, places);
    assert forall|i: int, j: int| 0 <= i < j < sorted.len() implies block_before(
        #[trigger] sorted[i],
        #[trigger] sorted[j],
    ) by {
        assert(stands_before(sorted[i], places[i], sorted[j], places[j]));
    }
    assert forall|i: int| 0 <= i < blocks.len() implies sorted.contains(#[trigger] blocks[i]) by {
        assert(places.contains(i));
        let k = places.index_of(i);
        assert(sorted[k] == blocks[places[k]]);
    }
}

/// The ranges that a store tells of hold the times of each of its blocks, under the labels of the
/// block.
pub proof fn law_ranges_hold_all_blocks(
    infos: Seq<RangeModel>,
    blocks: Seq<BlockMetadata>,
    i: int,
)
    requires
        are_ranges(infos, blocks),
        0 <= i < blocks.len(),
    ensures
        covered(infos, blocks[i]),
{
    let sorted = choose|sorted: Seq<BlockMetadata>|
        #[trigger] is_stable_sort(blocks, sorted) && infos == ranges(sorted);
    lemma_sorted_blocks(blocks, sorted);
    lemma_ranges(sorted);
    let k = sorted.index_of(blocks[i]);
    assert(covered(ranges(sorted), sorted[k]));
}

/// The ranges that a store tells of come in the order of their labels, and between two ranges with
/// the same labels there is a gap.
pub proof fn law_ranges_have_gaps(
    infos: Seq<RangeModel>,
    blocks: Seq<BlockMetadata>,
    r: int,
    s: int,
)
    requires
        are_ranges(infos, blocks),
        0 <= r < s < infos.len(),
    ensures
        apart(infos[r], infos[s]),
{
    let sorted = choose|sorted: Seq<BlockMetadata>|
        #[trigger] is_stable_sort(blocks, sorted) && infos == ranges(sorted);
    lemma_sorted_blocks(blocks, sorted);
    lemma_ranges(sorted);
    assert(apart(ranges(sorted)[r], ranges(sorted)[s]));
}

/// The times that a store tells of are those of its blocks: none starts before the earliest time or
/// ends behind the latest one, and some block starts and some block ends there.
pub proof fn law_store_times_are_those_of_the_blocks(blocks: Seq<BlockMetadata>)
    ensures
        blocks.len() == 0 ==> earliest(blocks) == i64::MAX && latest(blocks) == i64::MIN,
        forall|i: int|
            0 <= i < blocks.len() ==> earliest(blocks) <= (#[trigger] blocks[i]).min_time
                && blocks[i].max_time <= latest(blocks),
        blocks.len() > 0 ==> exists|i: int|
            0 <= i < blocks.len() && (#[trigger] blocks[i]).min_time == earliest(blocks),
        blocks.len() > 0 ==> exists|i: int|
            0 <= i < blocks.len() && (#[trigger] blocks[i]).max_time == latest(blocks),
    decreases blocks.len(),
{
    if blocks.len() > 0 {
        let rest = blocks.drop_last();
        let last = blocks.len() - 1;
        law_store_times_are_those_of_the_blocks(rest);
        assert forall|i: int| 0 <= i < blocks.len() implies earliest(blocks) <= (
        #[trigger] blocks[i]).min_time && blocks[i].max_time <= latest(blocks) by {
            if i < last {
                assert(rest[i] == blocks[i]);
            }
        }
        if earliest(blocks) == blocks[last].min_time {
        } else {
            let i = choose|i: int|
                0 <= i < rest.len() && (#[trigger] rest[i]).min_time == earliest(rest);
            assert(blocks[i].min_time == earliest(blocks));
        }
        if latest(blocks) == blocks[last].max_time {
        } else {
            let i = choose|i: int|
                0 <= i < rest.len() && (#[trigger] rest[i]).max_time == latest(rest);
            assert(blocks[i].max_time == latest(blocks));
        }
    }
}

/// A block with the labels of a range starts where the range starts, and one ends where it ends.
pub open spec fn has_ends_of_blocks(range: RangeModel, blocks: Seq<BlockMetadata>) -> bool {
    &&& exists|i: int|
        0 <= i < blocks.len() && (#[trigger] blocks[i]).external_labels.pairs() == range.labels
            && blocks[i].min_time == range.min_time
    &&& exists|i: int|
        0 <= i < blocks.len() && (#[trigger] blocks[i]).external_labels.pairs() == range.labels
            && blocks[i].max_time == range.max_time
}

proof fn lemma_more_blocks(range: RangeModel, blocks: Seq<BlockMetadata>, block: BlockMetadata)
    requires
        has_ends_of_blocks(range, blocks),
    ensures
        has_ends_of_blocks(range, blocks.push(block)),
{
    let more = blocks.push(block);
    let i = choose|i: int|
        0 <= i < blocks.len() && (#[trigger] blocks[i]).external_labels.pairs() == range.labels
            && blocks[i].min_time == range.min_time;
    assert(more[i] == blocks[i]);
    let j = choose|i: int|
        0 <= i < blocks.len() && (#[trigger] blocks[i]).external_labels.pairs() == range.labels
            && blocks[i].max_time == range.max_time;
    assert(more[j] == blocks[j]);
}

proof fn lemma_ends_of_blocks(sorted: Seq<BlockMetadata>)
    ensures
        forall|r: int|
            0 <= r < ranges(sorted).len() ==> has_ends_of_blocks(
                #[trigger] ranges(sorted)[r],
                sorted,
            ),
    decreases sorted.len(),
{
    if sorted.len() > 0 {
        let rest = sorted.drop_last();
        let block = sorted.last();
        lemma_ends_of_blocks(rest);
        let before = ranges(rest);
        let now = ranges(sorted);
        assert(rest.push(block) =~= sorted);
        assert(sorted[sorted.len() - 1] == block);
        assert forall|r: int| 0 <= r < now.len() implies has_ends_of_blocks(
            #[trigger] now[r],
            sorted,
        ) by {
            if r < before.len() {
                lemma_more_blocks(before[r], rest, block);
            }
        }
    }
}

/// The ranges that a store tells of reach no farther than its blocks: each starts where a block with
/// its labels starts, and ends where one ends.
pub proof fn law_ranges_end_with_blocks(
    infos: Seq<RangeModel>,
    blocks: Seq<BlockMetadata>,
    r: int,
)
    requires
        are_ranges(infos, blocks),
        0 <= r < infos.len(),
    ensures
        has_ends_of_blocks(infos[r], blocks),
{
    let sorted = choose|sorted: Seq<BlockMetadata>|
        #[trigger] is_stable_sort(blocks, sorted) && infos == ranges(sorted);
    law_sorted_values_are_in_order(blocks, sorted);
    lemma_ends_of_blocks(sorted);
    assert(has_ends_of_blocks(ranges(sorted)[r], sorted));
    let range = infos[r];
    let i = choose|i: int|
        0 <= i < sorted.len() && (#[trigger] sorted[i]).external_labels.pairs() == range.labels
            && sorted[i].min_time == range.min_time;
    assert(sorted.contains(sorted[i]));
    assert(blocks.contains(sorted[i]));
    assert(blocks[blocks.index_of(sorted[i])] == sorted[i]);
    let j = choose|i: int|
        0 <= i < sorted.len() && (#[trigger] sorted[i]).external_labels.pairs() == range.labels
            && sorted[i].max_time == range.max_time;
    assert(sorted.contains(sorted[j]));
    assert(blocks.contains(sorted[j]));
    assert(blocks[blocks.index_of(sorted[j])] == sorted[j]);
}

/// The sets of labels that a store tells of are those of its ranges.
pub proof fn law_label_sets_are_those_of_the_ranges(
    infos: Seq<RangeModel>,
    labels: Seq<(Seq<char>, Seq<char>)>,
)
    ensures
        range_labels(infos).contains(labels) <==> exists|r: int|
            0 <= r < infos.len() && (#[trigger] infos[r]).labels == labels,
        infos.len() > 0 ==> range_labels(infos).len() > 0 && range_labels(infos).last()
            == infos.last().labels,
    decreases infos.len(),
{
    if infos.len() > 0 {
        let rest = infos.drop_last();
        let last = infos.len() - 1;
        law_label_sets_are_those_of_the_ranges(rest, labels);
        let before = range_labels(rest);
        let now = range_labels(infos);
        if before.contains(labels) {
            let r = choose|r: int| 0 <= r < rest.len() && (#[trigger] rest[r]).labels == labels;
            assert(infos[r].labels == labels);
            assert(now[before.index_of(labels)] == labels);
        }
        assert(now[now.len() - 1] == infos[last].labels);
        if now.contains(labels) && !before.contains(labels) {
            let k = now.index_of(labels);
            if k < before.len() {
                assert(before[k] == labels);
            }
            assert(infos[last].labels == labels);
        }
        if exists|r: int| 0 <= r < infos.len() && (#[trigger] infos[r]).labels == labels {
            let r = choose|r: int| 0 <= r < infos.len() && (#[trigger] infos[r]).labels == labels;
            if r < last {
                assert(rest[r].labels == labels);
            }
        }
    }
}

} // verus!
