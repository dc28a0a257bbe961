use rusty_chunkenc::chunk::Chunk;
use rusty_chunkenc::xor::XORSample;
use thanos_v1_reader::bits::ChunkError;
use thanos_v1_reader::block_index::MetricTableSchema;
use thanos_v1_reader::chunk_reader::{AggregateKind, AggregateSelection, Sample};
use thanos_v1_reader::flight_service::{query_from_bytes, QueryError};
use thanos_v1_reader::histogram::{HistogramBuckets, HistogramCount, HistogramSample, Span};
use thanos_v1_reader::labels::Labels;
use thanos_v1_reader::metric_table::{
    column_name, compare_i64, compare_str, histogram_cells, histogram_columns, is_counter_metric,
    metric_cell, parse_filter, project_columns, reverse_operator, rows_from_record,
    rows_from_samples, scalar_i64, scalar_string, scalar_value, scan_chunk, selected_aggregate,
    ChunkDescriptor, FilterExpr, FilterOperator, IndexedChunk, MetricError, MetricFilter, Scalar,
};
use thanos_v1_reader::name_set::NameSet;
use thanos_v1_reader::table::{Cell, Column, ColumnKind};

fn labels(pairs: &[(&str, &str)]) -> Labels {
    let mut labels = Labels::new();
    for (name, value) in pairs {
        labels.insert(name.to_string(), value.to_string());
    }
    labels
}

fn column(name: &str) -> FilterExpr {
    FilterExpr::Column(name.to_string())
}

fn text(value: &str) -> FilterExpr {
    FilterExpr::Literal(Scalar::Text(value.to_string()))
}

fn number(value: i64) -> FilterExpr {
    FilterExpr::Literal(Scalar::Integer(value))
}

fn label(name: &str, operator: FilterOperator, value: &str) -> MetricFilter {
    MetricFilter::Label { name: name.to_string(), operator, value: value.to_string() }
}

fn regex(name: &str, pattern: &str, negated: bool) -> MetricFilter {
    MetricFilter::LabelRegex { name: name.to_string(), pattern: pattern.to_string(), negated }
}

fn timestamp(operator: FilterOperator, value: i64) -> MetricFilter {
    MetricFilter::Timestamp { operator, value }
}

fn sample(timestamp: i64, value: f64) -> Sample {
    Sample { timestamp, value: value.to_bits(), histogram: None, aggregate: AggregateKind::Raw }
}

fn histogram() -> HistogramSample {
    HistogramSample {
        timestamp: 7,
        schema: 2,
        count: HistogramCount::Integer(5),
        sum: 1.5f64.to_bits(),
        zero_threshold: 0,
        zero_count: HistogramCount::Integer(1),
        reset_hint: 2,
        positive_spans: vec![Span { offset: 0, length: 1 }],
        negative_spans: vec![],
        positive_buckets: HistogramBuckets::Integer(vec![4]),
        negative_buckets: HistogramBuckets::Integer(vec![]),
        custom_values: vec![],
    }
}

fn xor_record(samples: &[(i64, f64)]) -> Vec<u8> {
    let samples = samples
        .iter()
        .map(|(timestamp, value)| XORSample { timestamp: *timestamp, value: *value })
        .collect();
    let mut record = Vec::new();
    Chunk::new_xor(samples).write(&mut record).unwrap();
    record
}

#[test]
fn descriptor_pruning_uses_timestamp_and_missing_label_semantics() {
    let labels = labels(&[("pod", "pod-falcon-000")]);
    let descriptor =
        ChunkDescriptor { mint: 100, maxt: 200, downsample_resolution: 0, labels: &labels };
    assert!(timestamp(FilterOperator::Gt, 150).matches_descriptor(&descriptor));
    assert!(!timestamp(FilterOperator::Gt, 200).matches_descriptor(&descriptor));
    assert!(label("missing", FilterOperator::Eq, "").matches_descriptor(&descriptor));
    assert!(!label("pod", FilterOperator::Eq, "pod-amber-000").matches_descriptor(&descriptor));
    assert!(regex("pod", "^pod-falc.*$", false).matches_descriptor(&descriptor));
    assert!(!regex("pod", "^pod-falc.*$", true).matches_descriptor(&descriptor));
}

#[test]
fn pruning_goes_by_the_range_of_a_chunk() {
    let labels = labels(&[]);
    let descriptor =
        ChunkDescriptor { mint: 100, maxt: 200, downsample_resolution: 300_000, labels: &labels };
    let may_hold = |filter: MetricFilter| filter.matches_descriptor(&descriptor);
    assert!(may_hold(timestamp(FilterOperator::Eq, 100)));
    assert!(!may_hold(timestamp(FilterOperator::Eq, 201)));
    assert!(may_hold(timestamp(FilterOperator::GtEq, 200)));
    assert!(!may_hold(timestamp(FilterOperator::Lt, 100)));
    assert!(may_hold(timestamp(FilterOperator::LtEq, 100)));
    assert!(!may_hold(timestamp(FilterOperator::NotEq, 5)));
    let resolution = |operator, value| MetricFilter::Resolution { operator, value };
    assert!(may_hold(resolution(FilterOperator::Eq, 300_000)));
    assert!(!may_hold(resolution(FilterOperator::Lt, 300_000)));
    assert!(may_hold(MetricFilter::Aggregate { value: AggregateKind::Sum }));
}

#[test]
fn samples_are_chosen_by_all_conditions() {
    let labels = labels(&[("job", "api")]);
    let filters =
        vec![timestamp(FilterOperator::GtEq, 10), label("job", FilterOperator::Eq, "api")];
    let samples = vec![sample(5, 1.0), sample(10, 2.0), sample(20, 3.0)];
    let rows = rows_from_samples(samples, &filters, 0, &labels);
    let chosen: Vec<(i64, Option<u64>)> =
        rows.iter().map(|row| (row.timestamp, row.value)).collect();
    assert_eq!(
        chosen,
        vec![(10, Some(2.0f64.to_bits())), (20, Some(3.0f64.to_bits()))]
    );
    let none = rows_from_samples(
        vec![sample(20, 3.0)],
        &vec![MetricFilter::Aggregate { value: AggregateKind::Counter }],
        0,
        &labels,
    );
    assert!(none.is_empty());
    assert!(label("job", FilterOperator::NotEq, "web").matches_sample(&sample(1, 1.0), 0, &labels));
    assert!(!timestamp(FilterOperator::NotEq, 1).matches_sample(&sample(1, 1.0), 0, &labels));
}

#[test]
fn rows_are_read_from_records() {
    let labels = labels(&[("job", "api")]);
    let record = xor_record(&[(100, 1.5), (200, 2.5)]);
    let filters = vec![timestamp(FilterOperator::Gt, 100)];
    let rows = rows_from_record(&record, false, &filters, 0, &labels).ok().unwrap();
    assert_eq!(rows.len(), 1);
    assert_eq!((rows[0].timestamp, rows[0].value), (200, Some(2.5f64.to_bits())));
    let mut broken = record;
    let last = broken.len() - 1;
    broken[last] ^= 1;
    assert_eq!(
        rows_from_record(&broken, false, &filters, 0, &labels).err(),
        Some(MetricError::InvalidChunk(ChunkError::CrcMismatch))
    );
}

#[test]
fn comparisons_become_conditions() {
    let filter = parse_filter(&column("timestamp"), FilterOperator::Gt, &number(5));
    assert!(matches!(
        filter,
        Some(MetricFilter::Timestamp { operator: FilterOperator::Gt, value: 5 })
    ));
    let filter = parse_filter(&number(5), FilterOperator::Gt, &column("timestamp"));
    assert!(matches!(
        filter,
        Some(MetricFilter::Timestamp { operator: FilterOperator::Lt, value: 5 })
    ));
    let filter = parse_filter(&column("downsample_resolution"), FilterOperator::Eq, &number(0));
    assert!(matches!(
        filter,
        Some(MetricFilter::Resolution { operator: FilterOperator::Eq, value: 0 })
    ));
    let filter = parse_filter(&column("aggregate_kind"), FilterOperator::Eq, &text("sum"));
    assert!(matches!(filter, Some(MetricFilter::Aggregate { value: AggregateKind::Sum })));
    let filter = parse_filter(&column("job"), FilterOperator::RegexIMatch, &text("API"));
    let labels = labels(&[("job", "my-api")]);
    assert!(filter.unwrap().matches_sample(&sample(1, 1.0), 0, &labels));
}

#[test]
fn other_comparisons_are_left_to_the_engine() {
    for (left, operator, right) in [
        (column("value"), FilterOperator::Gt, number(1)),
        (column("histogram"), FilterOperator::Eq, number(1)),
        (column("timestamp"), FilterOperator::Eq, text("now")),
        (column("job"), FilterOperator::Lt, text("a")),
        (column("job"), FilterOperator::Eq, number(1)),
        (column("job"), FilterOperator::RegexMatch, text("(")),
        (text("a"), FilterOperator::RegexMatch, column("job")),
        (column("aggregate_kind"), FilterOperator::Eq, text("median")),
        (column("aggregate_kind"), FilterOperator::NotEq, text("sum")),
        (column("job"), FilterOperator::Eq, column("pod")),
        (FilterExpr::Other, FilterOperator::Eq, text("a")),
    ] {
        assert!(parse_filter(&left, operator, &right).is_none());
    }
}

#[test]
fn casts_and_times_are_looked_through() {
    let cast = FilterExpr::Cast(Box::new(column("job")));
    assert_eq!(column_name(&cast).as_deref(), Some("job"));
    assert_eq!(column_name(&text("job")), None);
    let call = |name: &str, arguments| FilterExpr::Function(name.to_string(), arguments);
    let time = call("to_timestamp_millis", vec![FilterExpr::Cast(Box::new(number(7)))]);
    assert!(matches!(scalar_value(&time), Some(Scalar::Timestamp(7))));
    assert!(scalar_value(&call("now", vec![number(7)])).is_none());
    assert!(scalar_value(&call("to_timestamp_millis", vec![])).is_none());
    assert!(scalar_value(&call("to_timestamp_millis", vec![text("x")])).is_none());
    assert_eq!(scalar_i64(&Scalar::Unsigned(u64::MAX)), None);
    assert_eq!(scalar_i64(&Scalar::Unsigned(3)), Some(3));
    assert_eq!(scalar_i64(&Scalar::Timestamp(-3)), Some(-3));
    assert_eq!(scalar_i64(&Scalar::Text("3".to_string())), None);
    assert_eq!(scalar_string(&Scalar::Text("a".to_string())).as_deref(), Some("a"));
    assert_eq!(scalar_string(&Scalar::Other), None);
}

#[test]
fn reversed_operators_say_the_same() {
    let operators = [
        FilterOperator::Eq,
        FilterOperator::NotEq,
        FilterOperator::Gt,
        FilterOperator::GtEq,
        FilterOperator::Lt,
        FilterOperator::LtEq,
    ];
    for operator in operators {
        let reversed = reverse_operator(operator).unwrap();
        assert_eq!(reverse_operator(reversed), Some(operator));
        for (left, right) in [(1, 2), (2, 2), (3, 2)] {
            assert_eq!(compare_i64(left, operator, right), compare_i64(right, reversed, left));
        }
    }
    assert_eq!(reverse_operator(FilterOperator::RegexMatch), None);
    assert!(!compare_i64(1, FilterOperator::Other, 1));
    assert!(compare_str("a", FilterOperator::NotEq, "b"));
    assert!(!compare_str("a", FilterOperator::Lt, "b"));
}

#[test]
fn chunks_of_the_index_are_scanned() {
    let chunk = |json, known| IndexedChunk {
        metric_name: "up",
        labels_json: json,
        mint: 100,
        maxt: 200,
        downsample_resolution: 0,
        repository_known: known,
    };
    let json = r#"{"__name__":"up","job":"api"}"#;
    let filters = vec![label("job", FilterOperator::Eq, "api")];
    let found = scan_chunk(&chunk(json, true), "up", &filters).ok().unwrap().unwrap();
    assert_eq!(found.get("job").map(|value| value.as_str()), Some("api"));
    assert!(scan_chunk(&chunk(json, false), "down", &filters).ok().unwrap().is_none());
    let late = vec![timestamp(FilterOperator::Gt, 200)];
    assert!(scan_chunk(&chunk(json, true), "up", &late).ok().unwrap().is_none());
    assert_eq!(
        scan_chunk(&chunk(json, false), "up", &filters).err(),
        Some(MetricError::UnknownRepository)
    );
    assert_eq!(
        scan_chunk(&chunk("{", true), "up", &filters).err(),
        Some(MetricError::InvalidLabels)
    );
}

#[test]
fn conditions_choose_the_aggregate_to_read() {
    let aggregate = |value| MetricFilter::Aggregate { value };
    assert_eq!(selected_aggregate(&vec![]), None);
    assert_eq!(selected_aggregate(&vec![aggregate(AggregateKind::Raw)]), None);
    assert_eq!(
        selected_aggregate(&vec![
            timestamp(FilterOperator::Gt, 1),
            aggregate(AggregateKind::Count),
            aggregate(AggregateKind::Sum),
        ]),
        Some(AggregateSelection::Count)
    );
    assert!(is_counter_metric("requests_total"));
    assert!(!is_counter_metric("requests"));
}

#[test]
fn rows_have_a_value_for_each_column() {
    let mut label_columns = NameSet::new();
    label_columns.insert("job".to_string());
    label_columns.insert("pod".to_string());
    let schema = MetricTableSchema { name: "up".to_string(), label_columns };
    let columns = schema.columns();
    let labels = labels(&[("job", "api")]);
    let rows = rows_from_samples(vec![sample(5, 2.5)], &vec![], 300_000, &labels);
    let cells: Vec<Cell> =
        columns.iter().map(|column| metric_cell(column, &rows[0]).unwrap()).collect();
    assert!(matches!(cells[0], Cell::Timestamp(5)));
    assert!(matches!(cells[1], Cell::Float(bits) if f64::from_bits(bits) == 2.5));
    assert!(matches!(cells[2], Cell::Null));
    assert!(matches!(cells[3], Cell::Integer(300_000)));
    assert!(matches!(&cells[4], Cell::Text(kind) if kind == "raw"));
    assert!(matches!(&cells[5], Cell::Text(job) if job == "api"));
    assert!(matches!(&cells[6], Cell::Text(pod) if pod.is_empty()));
    let other = Column { name: "x".to_string(), kind: ColumnKind::Bytes, nullable: false };
    assert!(metric_cell(&other, &rows[0]).is_none());
}

#[test]
fn histograms_fill_their_fields() {
    let sample = Sample {
        timestamp: 7,
        value: 0,
        histogram: Some(histogram()),
        aggregate: AggregateKind::Raw,
    };
    let rows = rows_from_samples(vec![sample], &vec![], 0, &labels(&[]));
    assert_eq!(rows[0].value, None);
    let cells = histogram_cells(rows[0].histogram.as_ref().unwrap());
    assert_eq!(cells.kind, "histogram");
    assert_eq!((cells.count_int, cells.count_float), (Some(5), None));
    assert_eq!(cells.positive_buckets_int, Some(vec![4]));
    assert_eq!(cells.positive_buckets_float, None);
    assert_eq!(cells.reset_hint, 2);
    let float = HistogramSample {
        count: HistogramCount::Float(5.0f64.to_bits()),
        positive_buckets: HistogramBuckets::Float(vec![1.0f64.to_bits()]),
        ..histogram()
    };
    let cells = histogram_cells(&float);
    assert_eq!(cells.kind, "float_histogram");
    assert_eq!(cells.count_float, Some(5.0f64.to_bits()));
    assert_eq!(cells.positive_buckets_float, Some(vec![1.0f64.to_bits()]));
    let columns = histogram_columns();
    assert_eq!(columns.len(), 16);
    assert_eq!(columns[0].name, "kind");
    assert_eq!(columns[15].kind, ColumnKind::FloatList);
}

#[test]
fn columns_are_projected_in_order() {
    let columns = histogram_columns();
    let chosen = project_columns(&columns, &vec![4, 0]).unwrap();
    assert_eq!(chosen.len(), 2);
    assert_eq!((chosen[0].name.as_str(), chosen[1].name.as_str()), ("sum", "kind"));
    assert!(project_columns(&columns, &vec![16]).is_none());
}

#[test]
fn queries_are_text_with_something_in_it() {
    assert_eq!(query_from_bytes(b"select 1").ok().as_deref(), Some("select 1"));
    assert_eq!(query_from_bytes("sélect".as_bytes()).ok().as_deref(), Some("sélect"));
    assert_eq!(query_from_bytes(b" \n\t"), Err(QueryError::Empty));
    assert_eq!(query_from_bytes(&[0xff]), Err(QueryError::InvalidText));
    assert_eq!(QueryError::Empty.message(), "query must not be empty");
}
