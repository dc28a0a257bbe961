use thanos_v1_reader::block_index::{
    active_blocks, append_chunk_rows, assemble_index, block_cells, block_columns, block_index_file_path,
    block_index_path, block_path, chunk_cells, chunk_columns, chunk_file_name,
    chunk_index_directory_path, chunk_index_file_path, collect_metric_labels,
    deletion_mark_path, generation_path, index_row, merge_metric_labels, metric_table_schemas,
    stale_chunk_indexes, BlockFile, BlockIndexError, BlockMeta, BlockStats, BuiltBlockIndex,
    ChunkIndexBuilder, Compaction, MetricLabels, MetricTableSchema, ThanosMeta,
};
use thanos_v1_reader::block_visibility::{
    is_hidden_by_mark, is_too_fresh, is_too_old, read_upload_time, ulid_time, upload_time_at,
    visible_blocks, BlockState, DeletionMark, UnknownMarkVersion, UploadTime, Visibility,
};
use thanos_v1_reader::config::ThanosRepositoryConfig;
use thanos_v1_reader::labels::Labels;
use thanos_v1_reader::name_set::NameSet;
use thanos_v1_reader::table::{Cell, ColumnKind};
use thanos_v1_reader::tsdb_index::{Chunk, Series};

const BLOCK: &str = "01M0SQFT00EQ1D78Q8Y8EFD0BZ";

const OTHER_BLOCK: &str = "01M0SQFSN27VV8YR0RMQE3ETG7";

fn labels(pairs: &[(&str, &str)]) -> Labels {
    let mut labels = Labels::new();
    for (name, value) in pairs {
        labels.insert(name.to_string(), value.to_string());
    }
    labels
}

fn series(reference: u64, pairs: &[(&str, &str)], chunks: Vec<Chunk>) -> Series {
    Series { reference, labels: labels(pairs), chunks }
}

fn repository(name: &str) -> ThanosRepositoryConfig {
    ThanosRepositoryConfig {
        name: name.to_string(),
        uri: "file:///blocks".to_string(),
        s3: None,
        gcs: None,
    }
}

fn meta(ulid: &str, external: &[(&str, &str)]) -> BlockMeta {
    BlockMeta {
        ulid: ulid.to_string(),
        min_time: 100,
        max_time: 200,
        version: 1,
        stats: BlockStats::default(),
        compaction: Compaction::default(),
        thanos: ThanosMeta { labels: labels(external), ..ThanosMeta::default() },
    }
}

fn compacted(ulid: &str, sources: &[&str]) -> BlockMeta {
    let mut meta = meta(ulid, &[("cluster", "a")]);
    meta.compaction.sources = sources.iter().map(|source| source.to_string()).collect();
    meta
}

fn always() -> Visibility {
    Visibility { consistency_delay: None, deletion_delay: None, max_age: None, now: 0 }
}

fn unmarked(count: usize) -> Vec<BlockState> {
    vec![BlockState { upload_time: UploadTime::Absent, mark: DeletionMark::Missing }; count]
}

fn visible(
    metas: &Vec<BlockMeta>,
    states: &Vec<BlockState>,
    visibility: &Visibility,
) -> Result<Vec<usize>, UnknownMarkVersion> {
    visible_blocks(metas, states, visibility)
}

fn names(set: &NameSet) -> Vec<String> {
    set.to_list()
}

fn error_of<T>(result: Result<T, BlockIndexError>) -> Option<BlockIndexError> {
    result.err()
}

#[test]
fn metric_schema_collects_all_labels_except_metric_name() {
    let series = [
        series(1, &[("__name__", "requests_total"), ("job", "reader"), ("pod", "one")], vec![]),
        series(
            2,
            &[("__name__", "requests_total"), ("instance", "localhost"), ("job", "reader")],
            vec![],
        ),
    ];
    let mut metric_labels = MetricLabels::new();
    collect_metric_labels(&mut metric_labels, &labels(&[("cluster", "production")]), &series);
    let schemas = metric_table_schemas(&metric_labels);
    assert_eq!(schemas.len(), 1);
    assert_eq!(schemas[0].name, "requests_total");
    assert_eq!(
        names(&schemas[0].label_columns),
        vec!["cluster", "instance", "job", "pod"]
    );
    let columns = schemas[0].columns();
    let resolution =
        columns.iter().find(|column| column.name == "downsample_resolution").unwrap();
    assert_eq!(resolution.kind, ColumnKind::Integer);
    assert!(!columns.iter().any(|column| column.name == "__name__"));
    let cluster = columns.iter().find(|column| column.name == "cluster").unwrap();
    assert!(!cluster.nullable);
}

#[test]
fn chunk_index_labels_include_block_external_labels() {
    let meta = meta(BLOCK, &[("cluster", "production")]);
    let series = series(
        16,
        &[("__name__", "up"), ("job", "reader")],
        vec![Chunk { mint: 100, maxt: 200, reference: (1 << 32) + 8 }],
    );
    let mut rows = Vec::new();
    let added = append_chunk_rows(&repository("blocks"), &meta, BLOCK, &series, &mut rows);
    assert_eq!(added.ok(), Some(1));
    assert_eq!(rows[0].labels.get("cluster").map(|value| value.as_str()), Some("production"));
    assert_eq!(
        rows[0].labels_json,
        r#"{"__name__":"up","cluster":"production","job":"reader"}"#
    );
    assert_eq!(rows[0].chunk_file_path, format!("{BLOCK}/chunks/000002"));
    assert_eq!(rows[0].chunk_file_seq, 1);
    assert_eq!(rows[0].chunk_file_offset, 8);
    assert_eq!(rows[0].metric_name, "up");
    assert_eq!(rows[0].series_ref, 16);
}

#[test]
fn cleanup_removes_only_inactive_chunk_indexes() {
    let files = vec![
        format!("{BLOCK}.parquet"),
        format!("{OTHER_BLOCK}.parquet"),
        "notes.txt".to_string(),
    ];
    let mut active = NameSet::new();
    active.insert(BLOCK.to_string());
    assert_eq!(stale_chunk_indexes(&files, &active), vec![format!("{OTHER_BLOCK}.parquet")]);
}

#[test]
fn external_labels_replace_those_of_a_series() {
    let meta = meta(BLOCK, &[("job", "external")]);
    let series = series(
        1,
        &[("__name__", "up"), ("job", "own")],
        vec![Chunk { mint: 1, maxt: 2, reference: 8 }],
    );
    let mut rows = Vec::new();
    append_chunk_rows(&repository("blocks"), &meta, BLOCK, &series, &mut rows).ok().unwrap();
    assert_eq!(rows[0].labels.get("job").unwrap(), "external");
}

#[test]
fn series_need_chunks_and_a_name() {
    let meta = meta(BLOCK, &[]);
    let mut rows = Vec::new();
    let repository = repository("blocks");
    let empty = series(1, &[("__name__", "up")], vec![]);
    assert_eq!(
        error_of(append_chunk_rows(&repository, &meta, BLOCK, &empty, &mut rows)),
        Some(BlockIndexError::NoChunks)
    );
    let unnamed = series(1, &[("job", "a")], vec![Chunk { mint: 1, maxt: 2, reference: 8 }]);
    assert_eq!(
        error_of(append_chunk_rows(&repository, &meta, BLOCK, &unnamed, &mut rows)),
        Some(BlockIndexError::MissingName)
    );
    assert!(rows.is_empty());
    assert_eq!(BlockIndexError::NoChunks.message(), "series has no chunks");
    assert_eq!(BlockIndexError::MissingName.message(), "series is missing __name__ label");
}

#[test]
fn the_times_of_a_series_span_its_chunks() {
    let series = series(
        1,
        &[("__name__", "up")],
        vec![
            Chunk { mint: 1, maxt: 2, reference: 8 },
            Chunk { mint: 5, maxt: 9, reference: 20 },
        ],
    );
    let mut builder = ChunkIndexBuilder::new();
    let meta = meta(BLOCK, &[("cluster", "a")]);
    let flush = builder.add_series(&repository("blocks"), &meta, BLOCK, &series);
    assert_eq!(flush.ok(), Some(false));
    assert_eq!((builder.series_count, builder.chunk_count), (1, 2));
    let rows = builder.take_rows();
    assert_eq!(rows.len(), 2);
    assert!(builder.rows.is_empty());
    for row in &rows {
        assert_eq!((row.series_mint, row.series_maxt), (1, 9));
    }
    assert_eq!((rows[1].chunk_mint, rows[1].chunk_maxt, rows[1].chunk_ref), (5, 9, 20));
    assert_eq!(names(builder.metric_labels.get("up").unwrap()), vec!["cluster"]);
}

#[test]
fn chunk_rows_fill_the_columns_of_their_table() {
    let series =
        series(1, &[("__name__", "up")], vec![Chunk { mint: 1, maxt: 2, reference: 8 }]);
    let mut rows = Vec::new();
    append_chunk_rows(&repository("blocks"), &meta(BLOCK, &[]), BLOCK, &series, &mut rows)
        .ok()
        .unwrap();
    let columns = chunk_columns();
    let cells = chunk_cells(rows.remove(0));
    assert_eq!(cells.len(), columns.len());
    assert_eq!(columns[5].name, "metric_name");
    assert!(matches!(&cells[5], Cell::Text(name) if name == "up"));
    assert_eq!(columns[8].kind, ColumnKind::SmallUnsigned);
    assert!(matches!(cells[8], Cell::SmallUnsigned(0)));
}

#[test]
fn chunk_files_count_from_one() {
    assert_eq!(chunk_file_name(8), "000001");
    assert_eq!(chunk_file_name((41 << 32) + 8), "000042");
    assert_eq!(chunk_file_name(u64::MAX), "4294967296");
}

#[test]
fn the_cache_has_a_place_for_each_index() {
    assert_eq!(block_index_file_path("file:///cache"), "/cache/block_index.parquet");
    assert_eq!(block_index_file_path("cache/"), "cache/block_index.parquet");
    assert_eq!(chunk_index_directory_path("/cache"), "/cache/indexes");
    assert_eq!(chunk_index_file_path("/cache", BLOCK), format!("/cache/indexes/{BLOCK}.parquet"));
    assert_eq!(generation_path("/cache", 17, 3), "/cache/refresh/17-3");
}

#[test]
fn blocks_are_found_by_their_metadata() {
    assert_eq!(block_path("a/b/meta.json").ok(), Some(Some("a/b".to_string())));
    assert_eq!(block_path("a/b/index").ok(), Some(None));
    assert_eq!(error_of(block_path("a/some-meta.json")), Some(BlockIndexError::InvalidMetaPath));
    assert_eq!(BlockIndexError::InvalidMetaPath.message(), "invalid metadata path");
    assert_eq!(deletion_mark_path("a/b"), "a/b/deletion-mark.json");
    assert_eq!(deletion_mark_path(""), "deletion-mark.json");
    assert_eq!(block_index_path("a/b"), "a/b/index");
}

#[test]
fn block_rows_sum_up_file_sizes() {
    let mut meta = meta(BLOCK, &[("cluster", "a")]);
    let file = |rel_path: &str, size_bytes| BlockFile { rel_path: rel_path.to_string(), size_bytes };
    meta.thanos.files =
        vec![file("index", 3), file("chunks/000001", 10), file("chunks/000002", 20), file("meta.json", 0)];
    let row = index_row(
        &repository("blocks"),
        meta,
        BLOCK.to_string(),
        format!("{BLOCK}/meta.json"),
        "[]".to_string(),
    )
    .ok()
    .unwrap();
    assert_eq!(row.index_size_bytes, 3);
    assert_eq!(row.chunks_size_bytes, 30);
    assert_eq!(row.total_size_bytes, 33);
    assert_eq!(row.external_labels, r#"{"cluster":"a"}"#);
    assert_eq!(row.block_ulid, BLOCK);
    let cells = block_cells(row);
    let columns = block_columns();
    assert_eq!(cells.len(), columns.len());
    assert_eq!(columns[11].name, "upload_time");
    assert!(columns[11].nullable);
    assert!(matches!(cells[11], Cell::Null));
    assert!(matches!(cells[23], Cell::Unsigned(33)));
}

#[test]
fn sizes_beyond_the_largest_number_are_rejected() {
    let mut meta = meta(BLOCK, &[]);
    meta.thanos.files = vec![
        BlockFile { rel_path: "index".to_string(), size_bytes: u64::MAX },
        BlockFile { rel_path: "other".to_string(), size_bytes: 1 },
    ];
    let row = index_row(
        &repository("blocks"),
        meta,
        BLOCK.to_string(),
        String::new(),
        String::new(),
    );
    assert_eq!(row.err(), Some(BlockIndexError::SizeOverflow));
}

fn built(repository_name: &str, ulid: &str, min_time: i64, metric: &str) -> BuiltBlockIndex {
    let mut block = meta(ulid, &[]);
    block.min_time = min_time;
    let row = index_row(
        &repository(repository_name),
        block,
        ulid.to_string(),
        String::new(),
        String::new(),
    );
    let mut metric_labels = MetricLabels::new();
    collect_metric_labels(
        &mut metric_labels,
        &labels(&[]),
        &[series(1, &[("__name__", metric), (ulid, "x")], vec![])],
    );
    BuiltBlockIndex { row: row.ok().unwrap(), metric_labels }
}

#[test]
fn blocks_are_ordered_by_repository_and_time() {
    let (rows, schemas) = assemble_index(vec![
        built("b", "x", 1, "up"),
        built("a", "y", 9, "up"),
        built("a", "z", 3, "down"),
        built("a", "w", 3, "up"),
    ]);
    let order: Vec<&str> = rows.iter().map(|row| row.block_ulid.as_str()).collect();
    assert_eq!(order, vec!["w", "z", "y", "x"]);
    let tables: Vec<&str> = schemas.iter().map(|schema| schema.name.as_str()).collect();
    assert_eq!(tables, vec!["down", "up"]);
    assert_eq!(names(&schemas[1].label_columns), vec!["w", "x", "y"]);
}

fn collected(metric: &str, label: &str) -> MetricLabels {
    let mut metric_labels = MetricLabels::new();
    collect_metric_labels(
        &mut metric_labels,
        &labels(&[]),
        &[series(1, &[("__name__", metric), (label, "x")], vec![])],
    );
    metric_labels
}

fn schema_names(schemas: &[MetricTableSchema]) -> Vec<(String, Vec<String>)> {
    schemas
        .iter()
        .map(|schema| (schema.name.clone(), names(&schema.label_columns)))
        .collect()
}

#[test]
fn merging_labels_goes_either_way_and_once_is_enough() {
    let mut forth = collected("up", "job");
    merge_metric_labels(&mut forth, collected("up", "pod"));
    let mut back = collected("up", "pod");
    merge_metric_labels(&mut back, collected("up", "job"));
    merge_metric_labels(&mut back, collected("up", "job"));
    let expected = vec![("up".to_string(), vec!["job".to_string(), "pod".to_string()])];
    assert_eq!(schema_names(&metric_table_schemas(&forth)), expected);
    assert_eq!(schema_names(&metric_table_schemas(&back)), expected);
}

#[test]
fn blocks_that_were_compacted_into_another_are_left_out() {
    let metas = vec![
        compacted("1", &["1"]),
        compacted("2", &["2"]),
        compacted("3", &["1", "2"]),
        compacted("4", &["4"]),
        compacted("5", &[]),
    ];
    assert_eq!(visible(&metas, &unmarked(5), &always()), Ok(vec![2, 3, 4]));
    let mut elsewhere = compacted("6", &["4", "5"]);
    elsewhere.thanos.resolution = 300_000;
    let metas = vec![compacted("4", &["4"]), elsewhere];
    assert_eq!(visible(&metas, &unmarked(2), &always()), Ok(vec![0, 1]));
}

#[test]
fn hidden_blocks_do_not_supersede_others() {
    let metas = vec![compacted("1", &["1"]), compacted("2", &["1", "2"])];
    let mut states = unmarked(2);
    assert_eq!(visible(&metas, &states, &always()), Ok(vec![1]));
    states[1].mark = DeletionMark::Found { version: 1, deletion_time: 100 };
    assert_eq!(visible(&metas, &states, &always()), Ok(vec![0]));
    let delayed = Visibility { deletion_delay: Some(50), now: 150_999, ..always() };
    assert_eq!(visible(&metas, &states, &delayed), Ok(vec![1]));
    let later = Visibility { now: 151_000, ..delayed };
    assert_eq!(visible(&metas, &states, &later), Ok(vec![0]));
    states[0].mark = DeletionMark::Unreadable;
    assert_eq!(visible(&metas, &states, &later), Ok(vec![0]));
    assert_eq!(visible(&metas, &states, &always()), Ok(vec![]));
    states[0].mark = DeletionMark::Found { version: 3, deletion_time: 0 };
    assert_eq!(visible(&metas, &states, &later), Err(UnknownMarkVersion { version: 3 }));
}

#[test]
fn only_blocks_of_the_right_age_are_shown() {
    let metas = vec![meta("1", &[]), meta("2", &[])];
    let mut states = unmarked(2);
    states[1].upload_time = UploadTime::At(900);
    let fresh = Visibility { consistency_delay: Some(200), now: 1_000, ..always() };
    assert_eq!(visible(&metas, &states, &fresh), Ok(vec![0]));
    let ripe = Visibility { now: 1_100, ..fresh };
    assert_eq!(visible(&metas, &states, &ripe), Ok(vec![0, 1]));
    let old = Visibility { max_age: Some((1, 0)), now: 1_201, ..always() };
    assert_eq!(visible(&metas, &states, &old), Ok(vec![]));
    let young = Visibility { now: 1_200, ..old };
    assert_eq!(visible(&metas, &states, &young), Ok(vec![0, 1]));
}

#[test]
fn times_of_upload_are_read_to_the_millisecond() {
    let read = |text: &str| read_upload_time(&Some(text.to_string()));
    assert_eq!(read("1970-01-01T00:00:00Z"), UploadTime::At(0));
    assert_eq!(read("2018-02-14T00:28:07Z"), UploadTime::At(1_518_568_087_000));
    assert_eq!(read("2018-02-14T00:28:07.133999Z"), UploadTime::At(1_518_568_087_133));
    assert_eq!(read("not-a-time"), UploadTime::Malformed);
    assert_eq!(read("1969-12-31T23:59:59Z"), UploadTime::Malformed);
    assert_eq!(read_upload_time(&None), UploadTime::Absent);
    assert_eq!(upload_time_at(Some((1, 999_999))), UploadTime::At(1_000));
    assert_eq!(upload_time_at(Some((1, 1_999_999))), UploadTime::At(1_001));
    assert_eq!(upload_time_at(Some((u64::MAX, 0))), UploadTime::Malformed);
    assert_eq!(upload_time_at(None), UploadTime::Malformed);
}

#[test]
fn blocks_with_a_malformed_time_of_upload_are_hidden() {
    let metas = vec![meta("1", &[]), meta("2", &[])];
    let mut states = unmarked(2);
    states[1].upload_time = read_upload_time(&Some("not-a-time".to_string()));
    assert_eq!(visible(&metas, &states, &always()), Ok(vec![0, 1]));
    let delayed = Visibility { consistency_delay: Some(0), ..always() };
    assert_eq!(visible(&metas, &states, &delayed), Ok(vec![0]));
    // What hides a block also hides its mark.
    states[1].mark = DeletionMark::Found { version: 3, deletion_time: 0 };
    assert_eq!(visible(&metas, &states, &delayed), Ok(vec![0]));
}

#[test]
fn the_indexes_of_found_blocks_are_kept() {
    let active = active_blocks(&vec![meta("b", &[]), meta("a", &[]), meta("b", &[])]);
    assert_eq!(names(&active), vec!["a", "b"]);
    let files = vec!["a.parquet".to_string(), "c.parquet".to_string()];
    assert_eq!(stale_chunk_indexes(&files, &active), vec!["c.parquet"]);
}

#[test]
fn names_of_blocks_tell_when_they_came() {
    assert_eq!(ulid_time("01ARZ3NDEKTSV4RRFFQ69G5FAV"), Some(1_469_922_850_259));
    assert_eq!(ulid_time("00000000010000000000000000"), Some(1));
    assert_eq!(ulid_time("7ZZZZZZZZZZZZZZZZZZZZZZZZZ"), Some(0xffff_ffff_ffff));
    assert_eq!(ulid_time("8ZZZZZZZZZZZZZZZZZZZZZZZZZ"), None);
    assert_eq!(ulid_time("0000000001000000000000000U"), None);
    assert_eq!(ulid_time("block"), None);
}

#[test]
fn fresh_blocks_are_hidden() {
    let ulid = "000000001Z0000000000000000";
    assert_eq!(ulid_time(ulid), Some(63));
    assert!(is_too_fresh("sidecar", Some(1000), ulid, 500, 1499));
    assert!(!is_too_fresh("sidecar", Some(1000), ulid, 500, 1500));
    assert!(!is_too_fresh("compactor", Some(1000), ulid, 500, 1499));
    assert!(is_too_fresh("sidecar", Some(2000), ulid, 500, 1000));
    assert!(is_too_fresh("sidecar", None, ulid, 10, 72));
    assert!(!is_too_fresh("sidecar", None, ulid, 10, 73));
    assert!(!is_too_fresh("sidecar", None, ulid, 10, 62));
    assert!(!is_too_fresh("sidecar", None, "block", 10, 62));
}

#[test]
fn old_blocks_are_hidden() {
    assert!(!is_too_old(1_000, (2, 500_000_000), 3_500));
    assert!(is_too_old(1_000, (2, 500_000_000), 3_501));
    assert!(!is_too_old(i64::MAX, (0, 0), 0));
    assert!(is_too_old(i64::MIN, (1, 0), u64::MAX));
}

#[test]
fn marked_blocks_are_hidden_after_a_delay() {
    let mark = DeletionMark::Found { version: 1, deletion_time: 100 };
    assert_eq!(is_hidden_by_mark(mark, 50, 150), Ok(false));
    assert_eq!(is_hidden_by_mark(mark, 50, 151), Ok(true));
    assert_eq!(is_hidden_by_mark(DeletionMark::Missing, 50, 151), Ok(false));
    assert_eq!(is_hidden_by_mark(DeletionMark::Unreadable, 50, 151), Ok(false));
    assert_eq!(
        is_hidden_by_mark(DeletionMark::Found { version: 2, deletion_time: 100 }, 50, 151),
        Err(UnknownMarkVersion { version: 2 })
    );
}
