use thanos_v1_reader::bits::ChunkError;
use thanos_v1_reader::block_choice::{
    block_ids, block_position, find_spans, is_message, listed_blocks, queried_blocks, read_hints,
    store_block, BlockHints, BlockQuery, Span, StoreBlock,
};
use thanos_v1_reader::chunk_reader::EncodedData;
use thanos_v1_reader::labels::Labels;
use thanos_v1_reader::name_set::NameSet;
use thanos_v1_reader::series_answer::{
    aggregate_chunk, encode_chunk, raw_chunk, unknown_repository, SeriesBuilder, SeriesResponse,
    StatusCode,
};
use thanos_v1_reader::series_plan::{
    aggregates, limit, plan_series, AggregateSet, SeriesPlan, SeriesRequest, ShardInfo,
};
use thanos_v1_reader::store_info::{block_metadata, info_response};
use thanos_v1_reader::store_service::{
    chunk_descriptor, compile_matchers, label_names, label_values, matches_all,
    matching_descriptors, overlaps, take_limit, Aggregate, ChunkDescriptor, LabelMatcher,
    LabelRequest, StoreError,
};

const EQ: i32 = 0;
const NEQ: i32 = 1;
const RE: i32 = 2;
const NRE: i32 = 3;

fn labels(pairs: &[(&str, &str)]) -> Labels {
    let mut labels = Labels::new();
    for (name, value) in pairs {
        labels.insert(name.to_string(), value.to_string());
    }
    labels
}

fn pairs(labels: &Labels) -> Vec<(String, String)> {
    (0..labels.len())
        .map(|index| (labels.key_at(index).clone(), labels.value_at(index).clone()))
        .collect()
}

fn matcher(kind: i32, name: &str, value: &str) -> LabelMatcher {
    LabelMatcher { kind, name: name.to_string(), value: value.to_string() }
}

fn holds(labels: &Labels, matchers: Vec<LabelMatcher>) -> bool {
    matches_all(labels, &compile_matchers(&matchers).ok().unwrap())
}

fn block(id: &str, range: (i64, i64), resolution: i64, pairs: &[(&str, &str)]) -> StoreBlock {
    StoreBlock {
        repository_uri: "file:///blocks".to_string(),
        id: id.to_string(),
        resolution,
        min_time: range.0,
        max_time: range.1,
        external_labels: labels(pairs),
    }
}

fn one_block() -> Vec<StoreBlock> {
    vec![block("only", (0, 1000), 0, &[])]
}

fn descriptor(
    path: &str,
    range: (i64, i64),
    block: usize,
    pairs: &[(&str, &str)],
) -> ChunkDescriptor {
    ChunkDescriptor {
        repository_uri: "file:///blocks".to_string(),
        chunk_file_path: path.to_string(),
        chunk_file_offset: 8,
        chunk_mint: range.0,
        chunk_maxt: range.1,
        block,
        labels: labels(pairs),
    }
}

fn label_request(matchers: Vec<LabelMatcher>) -> LabelRequest {
    LabelRequest {
        start: 0,
        end: 100,
        matchers,
        limit: 0,
        without_replica_labels: vec![],
        hints: BlockHints::Absent,
    }
}

fn series_request(aggregates: Vec<i32>) -> SeriesRequest {
    SeriesRequest {
        min_time: 0,
        max_time: 100,
        matchers: vec![],
        aggregates,
        limit: 0,
        max_resolution_window: 0,
        without_replica_labels: vec![],
        shard: None,
        hints: BlockHints::Absent,
    }
}

fn paths(plan: &SeriesPlan, descriptors: &[ChunkDescriptor]) -> Vec<Vec<String>> {
    plan.groups
        .iter()
        .map(|group| {
            group
                .chunks
                .iter()
                .map(|position| descriptors[*position].chunk_file_path.clone())
                .collect()
        })
        .collect()
}

fn framed_record(encoding: u8, payload: &[u8]) -> Vec<u8> {
    let mut record = vec![payload.len() as u8, encoding];
    record.extend_from_slice(payload);
    let checksum = crc::Crc::<u32>::new(&crc::CRC_32_ISCSI).checksum(&record[1..]);
    record.extend_from_slice(&checksum.to_be_bytes());
    record
}

fn all_aggregates() -> AggregateSet {
    AggregateSet { raw: true, count: true, sum: true, min: true, max: true, counter: true }
}

fn message<T>(result: Result<T, StoreError>) -> String {
    match result {
        Ok(_) => panic!("expected an error"),
        Err(error) => error.message(),
    }
}

#[test]
fn matcher_semantics_follow_prometheus_missing_label_rules() {
    let labels = labels(&[("__name__", "up"), ("job", "api")]);
    assert!(holds(&labels, vec![matcher(EQ, "missing", ""), matcher(NRE, "job", "worker")]));
}

#[test]
fn regex_matchers_are_anchored() {
    let labels = labels(&[("job", "api-server")]);
    assert!(!holds(&labels, vec![matcher(RE, "job", "api")]));
    assert!(holds(&labels, vec![matcher(RE, "job", "api.*")]));
}

#[test]
fn raw_queries_choose_raw_resolution() {
    let blocks = vec![block("a", (0, 11), 0, &[]), block("b", (0, 11), 300_000, &[])];
    let descriptors = vec![
        descriptor("raw", (0, 10), 0, &[("__name__", "up")]),
        descriptor("downsampled", (0, 10), 1, &[("__name__", "up")]),
    ];
    let plan = plan_series(&blocks, &descriptors, &series_request(vec![0])).ok().unwrap();
    assert_eq!(paths(&plan, &descriptors), vec![vec!["raw"]]);
}

#[test]
fn matchers_come_with_their_negation() {
    let labels = labels(&[("job", "api")]);
    for (name, value) in [("job", "api"), ("job", "web"), ("pod", ""), ("pod", "a")] {
        assert_ne!(
            holds(&labels, vec![matcher(EQ, name, value)]),
            holds(&labels, vec![matcher(NEQ, name, value)])
        );
        assert_ne!(
            holds(&labels, vec![matcher(RE, name, value)]),
            holds(&labels, vec![matcher(NRE, name, value)])
        );
    }
}

#[test]
fn matchers_of_unknown_kinds_and_broken_patterns_are_rejected() {
    let error = compile_matchers(&vec![matcher(4, "job", "a")]).err().unwrap();
    assert_eq!(error.code(), StatusCode::InvalidArgument);
    assert_eq!(error.message(), "unknown label matcher type");
    let error = compile_matchers(&vec![matcher(RE, "job", "(")]).err().unwrap();
    assert_eq!(error.code(), StatusCode::InvalidArgument);
    assert!(matches!(&error, StoreError::InvalidPattern(text) if !text.is_empty()));
}

#[test]
fn descriptors_carry_the_labels_of_the_index() {
    let descriptor = chunk_descriptor(
        "file:///blocks".to_string(),
        "a/chunks/000001".to_string(),
        8,
        1,
        2,
        0,
        r#"{"b":"A","a":"x"}"#,
    )
    .ok()
    .unwrap();
    assert_eq!(
        pairs(&descriptor.labels),
        vec![("a".to_string(), "x".to_string()), ("b".to_string(), "A".to_string())]
    );
    let broken = chunk_descriptor(String::new(), String::new(), 0, 0, 0, 0, "[]");
    let error = broken.err().unwrap();
    assert_eq!(error.code(), StatusCode::Internal);
    assert!(matches!(error, StoreError::InvalidLabels));
}

#[test]
fn ranges_overlap_at_their_ends() {
    assert!(overlaps(0, 10, 10, 20));
    assert!(overlaps(10, 20, 0, 10));
    assert!(!overlaps(0, 10, 11, 20));
    let descriptors =
        vec![descriptor("a", (0, 10), 0, &[("x", "1")]), descriptor("b", (5, 30), 0, &[])];
    let conditions = compile_matchers(&vec![matcher(EQ, "x", "")]).ok().unwrap();
    assert_eq!(matching_descriptors(&descriptors, 0, 100, &conditions), vec![1]);
    assert_eq!(matching_descriptors(&descriptors, 11, 100, &vec![]), vec![1]);
    assert_eq!(matching_descriptors(&descriptors, 0, 100, &vec![]), vec![0, 1]);
}

#[test]
fn label_names_are_sorted_and_limited() {
    let descriptors = vec![
        descriptor("a", (0, 10), 0, &[("job", "api"), ("replica", "1")]),
        descriptor("b", (0, 10), 0, &[("cluster", "x"), ("job", "web")]),
        descriptor("c", (200, 300), 0, &[("late", "x")]),
    ];
    let names = |request: &LabelRequest| {
        label_names(&one_block(), &descriptors, request).ok().unwrap().values
    };
    let mut request = label_request(vec![]);
    assert_eq!(names(&request), vec!["cluster", "job", "replica"]);
    request.limit = 2;
    assert_eq!(names(&request), vec!["cluster", "job"]);
    request.limit = -1;
    assert_eq!(names(&request).len(), 3);
    request.without_replica_labels = vec!["replica".to_string()];
    assert_eq!(names(&request), vec!["cluster", "job"]);
    request.matchers = vec![matcher(EQ, "job", "web")];
    assert_eq!(names(&request), vec!["cluster", "job"]);
}

#[test]
fn label_values_are_sorted_and_limited() {
    let descriptors = vec![
        descriptor("a", (0, 10), 0, &[("job", "web")]),
        descriptor("b", (0, 10), 0, &[("job", "api")]),
        descriptor("c", (0, 10), 0, &[("pod", "x")]),
    ];
    let mut request = label_request(vec![]);
    let values = |label: &str, request: &LabelRequest| {
        label_values(&one_block(), &descriptors, label, request).ok().unwrap().values
    };
    assert_eq!(values("job", &request), vec!["api", "web"]);
    assert!(values("missing", &request).is_empty());
    request.limit = 1;
    assert_eq!(values("job", &request), vec!["api"]);
    request.without_replica_labels = vec!["job".to_string()];
    request.hints = BlockHints::Unreadable("broken".to_string());
    assert!(values("job", &request).is_empty());
    let answer = label_values(&one_block(), &descriptors, "job", &request).ok().unwrap();
    assert!(answer.blocks.is_none());
}

#[test]
fn hints_that_cannot_be_read_are_refused() {
    let broken = || BlockHints::Unreadable("bad wire type".to_string());
    let mut request = series_request(vec![]);
    request.hints = broken();
    let error = plan_series(&one_block(), &vec![], &request).err().unwrap();
    assert_eq!(error.code(), StatusCode::InvalidArgument);
    assert_eq!(error.message(), "unmarshal series request hints: bad wire type");
    let mut request = label_request(vec![]);
    request.hints = broken();
    assert_eq!(
        message(label_names(&one_block(), &vec![], &request)),
        "unmarshal label names request hints: bad wire type"
    );
    assert_eq!(
        message(label_values(&one_block(), &vec![], "job", &request)),
        "unmarshal label values request hints: bad wire type"
    );
    let unknown = BlockHints::Matchers(vec![matcher(99, "__block_id", "a")]);
    let error = read_hints(&unknown, "series").err().unwrap();
    assert_eq!(error.code(), StatusCode::InvalidArgument);
    let pattern = BlockHints::Matchers(vec![matcher(RE, "__block_id", "[")]);
    let error = read_hints(&pattern, "series").err().unwrap();
    assert_eq!(error.code(), StatusCode::InvalidArgument);
}

#[test]
fn hints_are_known_by_the_name_behind_the_last_slash() {
    let name = "hintspb.SeriesRequestHints";
    assert!(is_message("type.googleapis.com/hintspb.SeriesRequestHints", name));
    assert!(is_message("custom.example/hintspb.SeriesRequestHints", name));
    assert!(!is_message("hintspb.SeriesRequestHints", name));
    assert!(!is_message("type.googleapis.com/hintspb.SeriesResponseHints", name));
    assert!(!is_message("type.googleapis.com/unknown.SeriesRequestHints", name));
}

const START: i64 = 1_700_000_000_000;
const HOUR: i64 = 3_600_000;
const RESOLUTION_5M: i64 = 300_000;

/// Three hours with all resolutions, a raw hour behind them, and a raw block that overlaps both.
fn mixed_store() -> (Vec<StoreBlock>, Vec<ChunkDescriptor>) {
    let external: &[(&str, &str)] = &[("cluster", "dummy")];
    let base = (START, START + 3 * HOUR);
    let tail = (START + 3 * HOUR, START + 4 * HOUR);
    let overlap = (START + 5 * HOUR / 2, START + 7 * HOUR / 2);
    let blocks = vec![
        block("tail", tail, 0, external),
        block("base-1h", base, HOUR, external),
        block("base-raw", base, 0, external),
        block("replacement", overlap, 0, external),
        block("base-5m", base, RESOLUTION_5M, external),
    ];
    let series: &[(&str, &str)] = &[("__name__", "up"), ("cluster", "dummy")];
    let descriptors = blocks
        .iter()
        .enumerate()
        .map(|(place, block)| {
            descriptor(&block.id, (block.min_time, block.max_time - 1), place, series)
        })
        .collect();
    (blocks, descriptors)
}

fn mixed_request(min_time: i64, max_time: i64, window: i64, aggregates: Vec<i32>) -> SeriesRequest {
    let mut request = series_request(aggregates);
    request.min_time = min_time;
    request.max_time = max_time;
    request.max_resolution_window = window;
    request
}

fn queried(blocks: &Vec<StoreBlock>, plan: &SeriesPlan) -> Vec<String> {
    block_ids(blocks, &plan.blocks)
}

#[test]
fn gaps_of_coarse_blocks_are_filled_from_finer_ones() {
    let (mut blocks, mut descriptors) = mixed_store();
    let last = START + 4 * HOUR - 1;
    let planned = |blocks: &Vec<StoreBlock>, descriptors: &Vec<ChunkDescriptor>, request| {
        let plan = plan_series(blocks, descriptors, &request).ok().unwrap();
        (paths(&plan, descriptors), queried(blocks, &plan))
    };
    let some = vec![1, 2, 3, 4, 5];
    let (raw, read) = planned(&blocks, &descriptors, mixed_request(START, last, 0, vec![0]));
    assert_eq!(raw, vec![vec!["base-raw", "replacement", "tail"]]);
    assert_eq!(read, vec!["base-raw", "replacement", "tail"]);
    let five = mixed_request(START, last, RESOLUTION_5M, some.clone());
    let (chunks, read) = planned(&blocks, &descriptors, five);
    assert_eq!(chunks, vec![vec!["base-5m", "replacement", "tail"]]);
    assert_eq!(read, vec!["base-5m", "replacement", "tail"]);
    let hour = mixed_request(START, last, HOUR, some.clone());
    let (chunks, _) = planned(&blocks, &descriptors, hour);
    assert_eq!(chunks, vec![vec!["base-1h", "replacement", "tail"]]);
    let window = mixed_request(START + 13 * HOUR / 4, START + 15 * HOUR / 4, HOUR, some.clone());
    let (chunks, _) = planned(&blocks, &descriptors, window);
    assert_eq!(chunks, vec![vec!["replacement", "tail"]]);
    let window = mixed_request(START + 11 * HOUR / 4, START + 13 * HOUR / 4, HOUR, some.clone());
    let (chunks, _) = planned(&blocks, &descriptors, window);
    assert_eq!(chunks, vec![vec!["base-1h", "replacement", "tail"]]);
    let inside = mixed_request(START, START + 3 * HOUR - 1, HOUR, some.clone());
    let (chunks, read) = planned(&blocks, &descriptors, inside);
    assert_eq!(chunks, vec![vec!["base-1h"]]);
    assert_eq!(read, vec!["base-1h"]);

    // Without the overlapping block the raw hour stands directly behind the coarse ones.
    blocks.remove(3);
    descriptors.remove(3);
    descriptors[3].block = 3;
    let five = mixed_request(START, last, RESOLUTION_5M, some);
    let (chunks, _) = planned(&blocks, &descriptors, five);
    assert_eq!(chunks, vec![vec!["base-5m", "tail"]]);
}

fn block_query(first: i64, last: i64, window: i64) -> BlockQuery {
    BlockQuery { times: Span { first, last }, raw: false, window }
}

fn all_queried(blocks: &Vec<StoreBlock>, query: &BlockQuery) -> Vec<usize> {
    queried_blocks(blocks, &find_spans(blocks, &vec![]), query, &vec![], &vec![])
}

#[test]
fn gaps_before_and_between_coarse_blocks_are_filled() {
    let blocks = vec![
        block("coarse-1", (10, 20), 300_000, &[]),
        block("coarse-2", (30, 40), 300_000, &[]),
        block("raw-0", (0, 10), 0, &[]),
        block("raw-1", (10, 20), 0, &[]),
        block("raw-2", (20, 30), 0, &[]),
        block("raw-3", (30, 40), 0, &[]),
        block("raw-4", (40, 50), 0, &[]),
    ];
    let query = block_query(0, 100, 300_000);
    let places = all_queried(&blocks, &query);
    assert_eq!(
        block_ids(&blocks, &places),
        vec!["raw-0", "coarse-1", "raw-2", "coarse-2", "raw-4"]
    );
    let query = block_query(12, 15, 300_000);
    assert_eq!(all_queried(&blocks, &query), vec![0]);
    let query = block_query(12, 15, 299_999);
    assert_eq!(all_queried(&blocks, &query), vec![3]);
    let query = block_query(60, 70, 300_000);
    assert!(all_queried(&blocks, &query).is_empty());
}

#[test]
fn a_request_meets_the_chunks_at_the_edges_of_its_times() {
    let blocks = vec![block("a", (0, 10), 0, &[]), block("b", (30, 40), 0, &[])];
    let descriptors = vec![
        descriptor("a", (0, 10), 0, &[("job", "x")]),
        descriptor("b", (30, 39), 1, &[("job", "x")]),
    ];
    let chosen = |first: i64, last: i64| {
        let request = mixed_request(first, last, 0, vec![0]);
        let plan = plan_series(&blocks, &descriptors, &request).ok().unwrap();
        (paths(&plan, &descriptors).concat(), queried(&blocks, &plan))
    };
    let only = |id: &str| (vec![id.to_string()], vec![id.to_string()]);
    // The last sample of a chunk may lie at the time at which its block ends.
    assert_eq!(chosen(10, 20), only("a"));
    assert_eq!(chosen(11, 29), (vec![], vec![]));
    assert_eq!(chosen(39, 39), only("b"));
    assert_eq!(chosen(20, 30), only("b"));
    // A request whose times are reversed meets the chunks that hold both.
    assert_eq!(chosen(8, 3), only("a"));
    let spans = find_spans(&blocks, &descriptors);
    assert_eq!(spans[0], Span { first: 0, last: 10 });
    assert_eq!(spans[1], Span { first: 30, last: 39 });
    assert_eq!(listed_blocks(&blocks, &spans, Span { first: 10, last: 10 }, &vec![], &vec![]), vec![0]);
}

#[test]
fn blocks_of_other_series_fill_no_gap() {
    let mut blocks = vec![
        block("coarse", (0, 10), 300_000, &[("replica", "0")]),
        block("raw", (0, 10), 0, &[("replica", "1")]),
        block("other", (0, 10), 0, &[("replica", "0")]),
    ];
    let query = block_query(0, 9, 300_000);
    assert_eq!(all_queried(&blocks, &query), vec![0, 1]);
    blocks[2].repository_uri = "s3://elsewhere".to_string();
    assert_eq!(all_queried(&blocks, &query), vec![0, 1, 2]);
}

#[test]
fn hints_choose_blocks() {
    let (blocks, descriptors) = mixed_store();
    let read = |hints: Vec<LabelMatcher>, window: i64, end: i64| {
        let aggregates = if window == 0 { vec![0] } else { vec![1] };
        let mut request = mixed_request(START, end, window, aggregates);
        request.hints = BlockHints::Matchers(hints);
        let plan = plan_series(&blocks, &descriptors, &request).ok().unwrap();
        let groups = paths(&plan, &descriptors);
        let blocks = queried(&blocks, &plan);
        assert_eq!(groups.concat(), blocks);
        blocks
    };
    let last = START + 4 * HOUR - 1;
    assert_eq!(read(vec![], 0, last), vec!["base-raw", "replacement", "tail"]);
    assert_eq!(read(vec![matcher(EQ, "__block_id", "replacement")], 0, last), vec!["replacement"]);
    assert_eq!(
        read(vec![matcher(RE, "__block_id", "base-raw|replacement")], 0, last),
        vec!["base-raw", "replacement"]
    );
    assert_eq!(
        read(vec![matcher(NEQ, "__block_id", "base-raw")], 0, last),
        vec!["replacement", "tail"]
    );
    let both = vec![matcher(RE, "__block_id", ".+"), matcher(NRE, "__block_id", "tail|superseded")];
    assert_eq!(read(both, 0, last), vec!["base-raw", "replacement"]);
    let none = matcher(EQ, "__block_id", "01AAAAAAAAAAAAAAAAAAAAAAAA");
    assert!(read(vec![none], 0, last).is_empty());
    assert_eq!(read(vec![matcher(EQ, "cluster", "dummy")], 0, last).len(), 3);
    assert!(read(vec![matcher(NEQ, "cluster", "dummy")], 0, last).is_empty());
    let inside = START + 3 * HOUR - 1;
    assert_eq!(read(vec![matcher(EQ, "__block_id", "base-1h")], HOUR, inside), vec!["base-1h"]);
    assert_eq!(
        read(vec![matcher(EQ, "__block_id", "base-5m")], RESOLUTION_5M, inside),
        vec!["base-5m"]
    );
    // A coarse block that is left out is not replaced by a finer one.
    assert!(read(vec![matcher(EQ, "__block_id", "base-raw")], HOUR, inside).is_empty());
}

#[test]
fn blocks_are_read_where_no_series_is_found() {
    let (blocks, descriptors) = mixed_store();
    let mut request = mixed_request(START, START + 4 * HOUR - 1, 0, vec![0]);
    request.shard = Some(ShardInfo { index: 100, total: 100, by: false, labels: vec![] });
    let plan = plan_series(&blocks, &descriptors, &request).ok().unwrap();
    assert!(plan.groups.is_empty());
    assert_eq!(queried(&blocks, &plan).len(), 3);
    request.shard = None;
    request.matchers = vec![matcher(EQ, "cluster", "other")];
    let plan = plan_series(&blocks, &descriptors, &request).ok().unwrap();
    assert!(plan.blocks.is_empty());
    request.matchers = vec![];
    request.min_time = START + 10 * HOUR;
    request.max_time = START + 11 * HOUR;
    assert!(plan_series(&blocks, &descriptors, &request).ok().unwrap().blocks.is_empty());
}

#[test]
fn label_requests_read_blocks_of_all_resolutions() {
    let (blocks, descriptors) = mixed_store();
    let mut request = label_request(vec![]);
    request.start = START;
    request.end = START + 3 * HOUR - 1;
    let answer = label_names(&blocks, &descriptors, &request).ok().unwrap();
    assert_eq!(answer.values, vec!["__name__", "cluster"]);
    assert_eq!(
        block_ids(&blocks, &answer.blocks.unwrap()),
        vec!["base-1h", "base-raw", "replacement", "base-5m"]
    );
    request.hints = BlockHints::Matchers(vec![matcher(EQ, "__block_id", "base-5m")]);
    let answer = label_values(&blocks, &descriptors, "cluster", &request).ok().unwrap();
    assert_eq!(answer.values, vec!["dummy"]);
    assert_eq!(answer.blocks, Some(vec![4]));
    request.hints = BlockHints::Matchers(vec![matcher(EQ, "__block_id", "missing")]);
    let answer = label_names(&blocks, &descriptors, &request).ok().unwrap();
    assert!(answer.values.is_empty());
    assert_eq!(answer.blocks, Some(vec![]));
    let times = Span { first: START + 3 * HOUR, last: START + 3 * HOUR };
    let spans = find_spans(&blocks, &vec![]);
    assert_eq!(listed_blocks(&blocks, &spans, times, &vec![], &vec![]), vec![0, 3]);
}

#[test]
fn blocks_are_found_by_their_repository_and_id() {
    let mut blocks = one_block();
    blocks.push(block("second", (0, 10), 0, &[]));
    assert_eq!(block_position(&blocks, "file:///blocks", "second"), Some(1));
    assert_eq!(block_position(&blocks, "s3://elsewhere", "second"), None);
    assert_eq!(block_position(&blocks, "file:///blocks", "third"), None);
}

#[test]
fn limits_keep_the_start_of_a_list() {
    let mut names = NameSet::new();
    for name in ["b", "c", "a"] {
        names.insert(name.to_string());
    }
    assert_eq!(take_limit(&names, 0), vec!["a", "b", "c"]);
    assert_eq!(take_limit(&names, 2), vec!["a", "b"]);
    assert_eq!(take_limit(&names, 9), vec!["a", "b", "c"]);
    assert_eq!(limit(0).ok(), Some(u64::MAX));
    assert_eq!(limit(7).ok(), Some(7));
    assert_eq!(message(limit(-1)), "limit must not be negative");
}

#[test]
fn aggregates_are_read_by_number() {
    let none = AggregateSet {
        raw: false,
        count: false,
        sum: false,
        min: false,
        max: false,
        counter: false,
    };
    assert_eq!(aggregates(&vec![]).ok(), Some(AggregateSet { raw: true, ..none }));
    assert_eq!(
        aggregates(&vec![1, 5, 1]).ok(),
        Some(AggregateSet { count: true, counter: true, ..none })
    );
    assert_eq!(aggregates(&vec![0, 1, 2, 3, 4, 5]).ok(), Some(all_aggregates()));
    assert_eq!(message(aggregates(&vec![6])), "unknown aggregate type");
}

#[test]
fn series_are_grouped_by_their_labels() {
    let descriptors = vec![
        descriptor("b2", (20, 30), 0, &[("job", "b")]),
        descriptor("b1", (0, 10), 0, &[("job", "b")]),
        descriptor("a", (0, 10), 0, &[("job", "a")]),
        descriptor("b0", (0, 5), 0, &[("job", "b")]),
    ];
    let plan = plan_series(&one_block(), &descriptors, &series_request(vec![])).ok().unwrap();
    assert_eq!(
        paths(&plan, &descriptors),
        vec![vec!["a"], vec!["b0", "b1", "b2"]]
    );
    assert_eq!(pairs(&plan.groups[0].labels), vec![("job".to_string(), "a".to_string())]);
    assert_eq!(plan.limit, u64::MAX);
}

#[test]
fn aggregate_queries_choose_the_coarsest_allowed_resolution() {
    let blocks = vec![
        block("a", (0, 11), 0, &[]),
        block("b", (0, 11), 300_000, &[]),
        block("c", (0, 11), 3_600_000, &[]),
    ];
    let descriptors = vec![
        descriptor("raw", (0, 10), 0, &[]),
        descriptor("five", (0, 10), 1, &[]),
        descriptor("hour", (0, 10), 2, &[]),
    ];
    let mut request = series_request(vec![1]);
    request.max_resolution_window = 300_000;
    let plan = plan_series(&blocks, &descriptors, &request).ok().unwrap();
    assert_eq!(paths(&plan, &descriptors), vec![vec!["five"]]);
    request.max_resolution_window = 3_600_000;
    let plan = plan_series(&blocks, &descriptors, &request).ok().unwrap();
    assert_eq!(paths(&plan, &descriptors), vec![vec!["hour"]]);
}

#[test]
fn left_out_labels_bring_replicas_together() {
    let descriptors = vec![
        descriptor("one", (0, 10), 0, &[("job", "a"), ("replica", "1")]),
        descriptor("two", (0, 10), 0, &[("job", "a"), ("replica", "2")]),
    ];
    let mut request = series_request(vec![]);
    assert_eq!(plan_series(&one_block(), &descriptors, &request).ok().unwrap().groups.len(), 2);
    request.without_replica_labels = vec!["replica".to_string()];
    let plan = plan_series(&one_block(), &descriptors, &request).ok().unwrap();
    assert_eq!(paths(&plan, &descriptors), vec![vec!["one", "two"]]);
    assert_eq!(pairs(&plan.groups[0].labels), vec![("job".to_string(), "a".to_string())]);
}

#[test]
fn parts_divide_the_series() {
    let names = ["a", "b", "c", "d", "e", "f"];
    let descriptors: Vec<ChunkDescriptor> = names
        .iter()
        .map(|name| descriptor(name, (0, 10), 0, &[("job", name)]))
        .collect();
    let mut seen = Vec::new();
    for index in 0..3 {
        let mut request = series_request(vec![]);
        request.shard = Some(ShardInfo { index, total: 3, by: false, labels: vec![] });
        for group in paths(&plan_series(&one_block(), &descriptors, &request).ok().unwrap(), &descriptors) {
            seen.extend(group);
        }
    }
    seen.sort();
    assert_eq!(seen, names);
    let mut request = series_request(vec![]);
    request.shard = Some(ShardInfo { index: 3, total: 3, by: false, labels: vec![] });
    assert!(plan_series(&one_block(), &descriptors, &request).ok().unwrap().groups.is_empty());
    request.shard = Some(ShardInfo { index: 3, total: 0, by: false, labels: vec![] });
    assert_eq!(plan_series(&one_block(), &descriptors, &request).ok().unwrap().groups.len(), 6);
}

#[test]
fn parts_go_by_a_hash_of_the_labels() {
    let descriptors = vec![descriptor("a", (0, 10), 0, &[("job", "a"), ("pod", "b")])];
    let hash = xxhash_rust::xxh64::xxh64(b"job\xffa\xff", 0);
    let shard = |index| {
        let mut request = series_request(vec![]);
        request.shard =
            Some(ShardInfo { index, total: 1000, by: true, labels: vec!["job".to_string()] });
        plan_series(&one_block(), &descriptors, &request).ok().unwrap().groups.len()
    };
    assert_eq!(shard((hash % 1000) as i64), 1);
    assert_eq!(shard(((hash + 1) % 1000) as i64), 0);
}

#[test]
fn invalid_requests_for_series_are_refused() {
    assert_eq!(
        message(plan_series(&one_block(), &vec![], &series_request(vec![9]))),
        "unknown aggregate type"
    );
    let mut request = series_request(vec![]);
    request.limit = -1;
    assert_eq!(message(plan_series(&one_block(), &vec![], &request)), "limit must not be negative");
    let mut request = series_request(vec![]);
    request.matchers = vec![matcher(7, "a", "b")];
    assert_eq!(message(plan_series(&one_block(), &vec![], &request)), "unknown label matcher type");
}

#[test]
fn chunks_of_an_answer_are_hashed() {
    let chunk = raw_chunk(EncodedData { encoding: 2, data: vec![1, 2, 3] }).ok().unwrap();
    assert_eq!(chunk.kind, 1);
    assert_eq!(chunk.data, vec![1, 2, 3]);
    assert_eq!(chunk.hash, xxhash_rust::xxh64::xxh64(&[1, 2, 3], 0));
    let empty = raw_chunk(EncodedData { encoding: 1, data: vec![] }).ok().unwrap();
    assert_eq!(empty.hash, 0xef46_db37_51d8_e999);
    assert_eq!(
        message(raw_chunk(EncodedData { encoding: 4, data: vec![] })),
        "unsupported Prometheus chunk encoding 4"
    );
}

#[test]
fn an_aggregate_that_is_asked_for_has_to_be_there() {
    assert!(aggregate_chunk(None, false, Aggregate::Min).ok().unwrap().is_none());
    let error = aggregate_chunk(None, true, Aggregate::Min).err().unwrap();
    assert_eq!(error.code(), StatusCode::Internal);
    assert_eq!(error.message(), "aggregate min does not exist");
}

#[test]
fn records_become_chunks_of_an_answer() {
    let raw = encode_chunk(&framed_record(1, &[7, 8]), 3, 4, all_aggregates()).ok().unwrap();
    let raw = raw.unwrap();
    assert_eq!((raw.min_time, raw.max_time), (3, 4));
    assert_eq!(raw.raw.unwrap().data, vec![7, 8]);
    assert!(raw.count.is_none());
    let record = framed_record(0xff, &[1, 1, 10, 1, 1, 11, 0, 0, 0]);
    let none = AggregateSet {
        raw: false,
        count: false,
        sum: false,
        min: false,
        max: false,
        counter: false,
    };
    assert!(encode_chunk(&record, 3, 4, none).ok().unwrap().is_none());
    let some = AggregateSet { count: true, sum: true, ..none };
    let chunk = encode_chunk(&record, 3, 4, some).ok().unwrap().unwrap();
    assert_eq!(chunk.count.unwrap().data, vec![10]);
    assert_eq!(chunk.sum.unwrap().data, vec![11]);
    assert_eq!(
        message(encode_chunk(&record, 3, 4, AggregateSet { max: true, ..none })),
        "aggregate max does not exist"
    );
    let mut broken = record;
    broken[2] ^= 1;
    let error = encode_chunk(&broken, 3, 4, some).err().unwrap();
    assert!(matches!(error, StoreError::InvalidChunk(ChunkError::CrcMismatch)));
    assert_eq!(error.message(), "chunk CRC32C mismatch");
}

#[test]
fn unknown_repositories_are_named() {
    let error = StoreError::UnknownRepository("s3://a".to_string());
    assert_eq!(error.code(), StatusCode::Internal);
    assert_eq!(error.message(), "no storage repository for repository \"s3://a\"");
    let error = StoreError::UnknownRepository("s3://a\"b\\\n".to_string());
    assert_eq!(error.message(), "no storage repository for repository \"s3://a\\\"b\\\\\\n\"");
    assert_eq!(unknown_repository("'x'"), "no storage repository for repository 'x'");
    let error = StoreError::UnreadableChunk("object not found".to_string());
    assert_eq!(error.code(), StatusCode::Internal);
    assert_eq!(error.message(), "object not found");
}

fn plan_of(count: usize, limit: u64) -> SeriesPlan {
    let names = ["a", "b", "c", "d", "e"];
    let descriptors: Vec<ChunkDescriptor> = names[..count]
        .iter()
        .map(|name| descriptor(name, (0, 10), 0, &[("job", name)]))
        .collect();
    let mut plan = plan_series(&one_block(), &descriptors, &series_request(vec![])).ok().unwrap();
    plan.limit = limit;
    plan
}

#[test]
fn answers_come_in_batches() {
    let plan = plan_of(5, u64::MAX);
    let mut builder = SeriesBuilder::new(&plan, true, false, false, false);
    for group in plan.groups {
        builder.finish_series(group.labels);
    }
    let responses = builder.responses(2, vec!["a".to_string(), "b".to_string()]);
    let sizes: Vec<usize> = responses[..3]
        .iter()
        .map(|response| match response {
            SeriesResponse::Batch(series) => series.len(),
            _ => panic!("expected a batch"),
        })
        .collect();
    assert_eq!(sizes, vec![2, 2, 1]);
    assert_eq!(responses.len(), 4);
    assert!(matches!(&responses[3], SeriesResponse::QueriedBlocks(ids) if ids == &["a", "b"]));
}

#[test]
fn the_limit_ends_an_answer() {
    let plan = plan_of(3, 2);
    let mut builder = SeriesBuilder::new(&plan, true, false, false, false);
    let mut taken = 0;
    for group in plan.groups {
        if builder.wants_series() {
            builder.finish_series(group.labels);
            taken += 1;
        }
    }
    assert_eq!(taken, 2);
    assert_eq!(builder.responses(0, vec![]).len(), 3);
}

#[test]
fn errors_become_warnings_of_a_partial_answer() {
    let plan = plan_of(1, u64::MAX);
    let mut builder = SeriesBuilder::new(&plan, false, false, false, false);
    let failure = || Err(StoreError::InvalidChunk(ChunkError::CrcMismatch));
    assert!(builder.add_chunk(failure()).is_ok());
    let chunk = encode_chunk(&framed_record(1, &[7, 8]), 3, 4, all_aggregates());
    assert!(builder.add_chunk(chunk).is_ok());
    builder.finish_series(labels(&[("job", "a")]));
    builder.finish_series(labels(&[("job", "b")]));
    let responses = builder.responses(1, vec![]);
    assert_eq!(responses.len(), 3);
    assert!(matches!(&responses[0], SeriesResponse::Series(series) if series.chunks.len() == 1));
    assert!(matches!(&responses[1], SeriesResponse::Warning(text) if text == "chunk CRC32C mismatch"));
    assert!(matches!(&responses[2], SeriesResponse::QueriedBlocks(ids) if ids.is_empty()));
    for (disabled, abort) in [(true, false), (false, true)] {
        let mut strict = SeriesBuilder::new(&plan, false, disabled, abort, false);
        assert_eq!(message(strict.add_chunk(failure())), "chunk CRC32C mismatch");
    }
}

#[test]
fn equal_chunks_of_replicas_are_sent_once() {
    let plan = plan_of(1, u64::MAX);
    for (leaves_labels_out, expected) in [(true, 1), (false, 2)] {
        let mut builder = SeriesBuilder::new(&plan, false, false, false, leaves_labels_out);
        for _ in 0..2 {
            let chunk = encode_chunk(&framed_record(1, &[7, 8]), 3, 4, all_aggregates());
            builder.add_chunk(chunk).ok().unwrap();
        }
        builder.finish_series(labels(&[]));
        assert!(matches!(
            &builder.responses(0, vec![])[0],
            SeriesResponse::Series(series) if series.chunks.len() == expected
        ));
    }
}

#[test]
fn a_store_can_be_discovered_and_queried() {
    let blocks = vec![block("a", (100, 200), 0, &[("cluster", "a")])];
    let info = info_response(block_metadata(&blocks));
    assert_eq!(info.component_type, "store");
    assert_eq!((info.min_time, info.max_time), (100, 200));
    let descriptors =
        vec![descriptor("a", (100, 200), 0, &[("__name__", "up"), ("cluster", "a")])];
    let mut request = series_request(vec![]);
    request.max_time = 300;
    let plan = plan_series(&blocks, &descriptors, &request).ok().unwrap();
    let mut builder = SeriesBuilder::new(&plan, true, false, false, false);
    for group in plan.groups {
        builder.finish_series(group.labels);
    }
    match &builder.responses(0, vec![])[0] {
        SeriesResponse::Series(series) => {
            assert_eq!(series.labels.key_at(0), "__name__");
            assert!(series.chunks.is_empty());
        }
        _ => panic!("expected a series"),
    }
}

#[test]
fn a_store_without_blocks_covers_no_time() {
    let info = info_response(vec![]);
    assert_eq!((info.min_time, info.max_time), (i64::MAX, i64::MIN));
    assert!(info.label_sets.is_empty());
    assert!(info.tsdb_infos.is_empty());
    assert!(info.supports_sharding);
    assert!(info.supports_without_replica_labels);
}

#[test]
fn ranges_of_blocks_are_merged_where_they_touch() {
    let row = |min, max, json: &str| {
        store_block(String::new(), String::new(), 0, min, max, json).ok().unwrap()
    };
    let info = info_response(block_metadata(&vec![
        row(30, 40, r#"{"cluster":"a"}"#),
        row(0, 10, r#"{"cluster":"b"}"#),
        row(10, 20, r#"{"cluster":"a"}"#),
        row(0, 10, r#"{"cluster":"a"}"#),
    ]));
    let ranges: Vec<(String, i64, i64)> = info
        .tsdb_infos
        .iter()
        .map(|range| (range.labels.value_at(0).clone(), range.min_time, range.max_time))
        .collect();
    assert_eq!(
        ranges,
        vec![
            ("a".to_string(), 0, 20),
            ("a".to_string(), 30, 40),
            ("b".to_string(), 0, 10),
        ]
    );
    assert_eq!(info.label_sets.len(), 2);
    assert_eq!((info.min_time, info.max_time), (0, 40));
    let broken = store_block(String::new(), String::new(), 0, 0, 1, "{");
    assert_eq!(message(broken), "invalid labels in the chunk index");
}
