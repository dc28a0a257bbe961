use rusty_chunkenc::chunk::Chunk;
use rusty_chunkenc::xor::XORSample;
use thanos_v1_reader::bits::ChunkError;
use thanos_v1_reader::convert::{
    append_record, endpoint, flat_columns, flat_series, label_column, labels_hash, ordered_labels,
    sort_rows, with_external_labels, ConvertError, FlatSeries, LabelStats, Row,
};
use thanos_v1_reader::hll::{decode_hll_metadata, encode_hll_metadata, Hll, HllError};
use thanos_v1_reader::labels::{
    external_labels, labels_from_json, labels_or_none, labels_to_json, Labels,
};
use thanos_v1_reader::sorted_map::SortedMap;
use thanos_v1_reader::table::ColumnKind;

fn labels(pairs: &[(&str, &str)]) -> Labels {
    let mut labels = Labels::new();
    for (name, value) in pairs {
        labels.insert(name.to_string(), value.to_string());
    }
    labels
}

fn xor_record(samples: &[(i64, f64)]) -> Vec<u8> {
    let samples = samples
        .iter()
        .map(|(timestamp, value)| XORSample { timestamp: *timestamp, value: *value })
        .collect();
    let mut record = Vec::new();
    Chunk::new_xor(samples).write(&mut record).unwrap();
    record
}

fn framed_record(encoding: u8, payload: &[u8]) -> Vec<u8> {
    let mut record = vec![payload.len() as u8, encoding];
    record.extend_from_slice(payload);
    let checksum = crc::Crc::<u32>::new(&crc::CRC_32_ISCSI).checksum(&record[1..]);
    record.extend_from_slice(&checksum.to_be_bytes());
    record
}

fn counted(values: &[&str]) -> Hll {
    let mut hll = Hll::new();
    for value in values {
        hll.add(value);
    }
    hll
}

fn row(name: &str, label: Option<&str>, hash: u8, timestamp: i64) -> Row {
    Row {
        name: name.to_string(),
        hash: vec![hash; 16],
        labels: vec![label.map(|label| label.to_string())],
        timestamp,
        value: 0,
    }
}

#[test]
fn endpoint_preserves_object_store_root() {
    assert_eq!(
        endpoint("s3://bucket/prefix/block.vortex").unwrap(),
        ("s3://bucket/prefix".to_string(), "block.vortex".to_string())
    );
    assert_eq!(endpoint("block.vortex").err(), Some(ConvertError::NoObjectName));
}

#[test]
fn hll_metadata_is_stable_and_round_trips() {
    let mut hlls = SortedMap::new();
    hlls.insert("pod".to_string(), counted(&["api-1"]));
    let encoded = encode_hll_metadata(&hlls).unwrap();
    assert_eq!(encoded, encode_hll_metadata(&hlls).unwrap());
    let decoded = decode_hll_metadata(&encoded).ok().unwrap();
    let registers = decoded.get("pod").unwrap();
    assert_eq!(registers.iter().filter(|register| **register != 0).count(), 1);
    assert_eq!(registers, hlls.get("pod").unwrap().registers());
}

#[test]
fn registers_come_from_a_digest() {
    let digest = <sha2::Sha256 as sha2::Digest>::digest(b"api-1");
    let bucket = usize::from(digest[0] >> 2);
    let mut first = [0; 8];
    first.copy_from_slice(&digest[..8]);
    let rank = (u64::from_be_bytes(first) << 6).leading_zeros() as u8 + 1;
    let hll = counted(&["api-1"]);
    assert_eq!(hll.registers().len(), 64);
    assert_eq!(hll.registers()[bucket], rank);
}

#[test]
fn the_order_of_counting_does_not_matter() {
    assert_eq!(
        counted(&["a", "b", "c"]).registers(),
        counted(&["c", "a", "b", "a"]).registers()
    );
    let few = counted(&["a"]);
    let more = counted(&["a", "b"]);
    assert!(few.registers().iter().zip(more.registers()).all(|(few, more)| few <= more));
}

#[test]
fn metadata_segments_are_checked() {
    let mut hlls = SortedMap::new();
    hlls.insert("pod".to_string(), counted(&["api-1"]));
    let good = encode_hll_metadata(&hlls).unwrap();
    assert_eq!(&good[..9], b"THLL\x01\0\0\0\x01");
    let error = |bytes: &[u8]| decode_hll_metadata(bytes).err();
    assert_eq!(error(&good[..8]), Some(HllError::InvalidHeader));
    assert_eq!(error(&good[..10]), Some(HllError::TruncatedLength));
    assert_eq!(error(&good[..12]), Some(HllError::TruncatedName));
    assert_eq!(error(&good[..20]), Some(HllError::TruncatedRegisters));
    let mut longer = good.clone();
    longer.push(0);
    assert_eq!(error(&longer), Some(HllError::TrailingBytes));
    let mut twice = good.clone();
    twice[8] = 2;
    twice.extend_from_slice(&good[9..]);
    assert_eq!(error(&twice), Some(HllError::DuplicateLabel));
    let mut binary = good.clone();
    binary[11] = 0xff;
    assert_eq!(error(&binary), Some(HllError::InvalidName));
    let mut long = SortedMap::new();
    long.insert("x".repeat(65_536), Hll::new());
    assert_eq!(encode_hll_metadata(&long).err(), Some(HllError::NameTooLong));
    assert_eq!(HllError::NameTooLong.message(), "HLL label name is too long");
}

#[test]
fn labels_survive_their_json_form() {
    let written = labels(&[("job", "a\"b"), ("__name__", "up"), ("ü", "\n")]);
    let json = labels_to_json(&written);
    assert_eq!(json, "{\"__name__\":\"up\",\"job\":\"a\\\"b\",\"ü\":\"\\n\"}");
    let back = labels_from_json(&json).unwrap();
    assert_eq!(back.len(), 3);
    assert_eq!(back.get("job").unwrap(), "a\"b");
    assert_eq!(labels_from_json(r#"{"a":"\u0041"}"#).unwrap().get("a").unwrap(), "A");
    assert!(labels_from_json(r#"{"a":1}"#).is_none());
    assert!(labels_from_json("").is_none());
}

#[test]
fn labels_of_a_series_win_over_external_ones() {
    let merged = with_external_labels(
        &labels(&[("__name__", "up"), ("job", "own")]),
        &labels(&[("cluster", "a"), ("job", "external")]),
    );
    assert_eq!(labels_to_json(&merged), r#"{"__name__":"up","cluster":"a","job":"own"}"#);
}

#[test]
fn labels_with_many_values_come_first() {
    let mut stats = LabelStats::new();
    for (pod, job) in [("a", "x"), ("b", "x"), ("c", "y")] {
        stats.add_series(&labels(&[
            ("__name__", "up"),
            ("cluster", "z"),
            ("job", job),
            ("pod", pod),
            ("zone", "z"),
        ]));
    }
    assert_eq!(ordered_labels(&stats.values), vec!["pod", "job", "cluster", "zone"]);
    assert_eq!(stats.hlls.get("pod").unwrap().registers(), counted(&["a", "b", "c"]).registers());
}

#[test]
fn labels_are_hashed_with_their_lengths() {
    let hash = labels_hash(&labels(&[("a", "bc")]));
    let digest = <sha2::Sha256 as sha2::Digest>::digest(b"\0\0\0\x01a\0\0\0\x02bc");
    assert_eq!(hash, digest[..16].to_vec());
    assert_ne!(hash, labels_hash(&labels(&[("ab", "c")])));
}

#[test]
fn series_are_flattened() {
    let names = vec!["pod".to_string(), "job".to_string()];
    let series = flat_series(&labels(&[("__name__", "up"), ("job", "api")]), &names).ok().unwrap();
    assert_eq!(series.name, "up");
    assert_eq!(series.labels, vec![None, Some("api".to_string())]);
    assert_eq!(series.hash.len(), 16);
    assert_eq!(
        flat_series(&labels(&[("job", "api")]), &names).err(),
        Some(ConvertError::MissingName)
    );
    let columns = flat_columns(&names);
    let titles: Vec<&str> = columns.iter().map(|column| column.name.as_str()).collect();
    assert_eq!(
        titles,
        vec!["name", "labels_hash", "label.pod", "label.job", "timestamp", "value"]
    );
    assert_eq!(columns[1].kind, ColumnKind::Bytes);
    assert!(columns[2].nullable);
    assert_eq!(label_column("pod"), "label.pod");
}

#[test]
fn records_become_flat_rows() {
    let series = flat_series(&labels(&[("__name__", "up")]), &vec![]).ok().unwrap();
    let mut rows = Vec::new();
    append_record(&series, &xor_record(&[(1, 2.0), (2, 3.0)]), &mut rows).unwrap();
    let points: Vec<(i64, f64)> =
        rows.iter().map(|row| (row.timestamp, f64::from_bits(row.value))).collect();
    assert_eq!(points, vec![(1, 2.0), (2, 3.0)]);
    let series = FlatSeries { name: "up".to_string(), hash: vec![], labels: vec![] };
    append_record(&series, &framed_record(2, &[9]), &mut rows).unwrap();
    append_record(&series, &framed_record(3, &[9]), &mut rows).unwrap();
    assert_eq!(rows.len(), 2);
    let error = append_record(&series, &[0], &mut rows).unwrap_err();
    assert_eq!(error, ConvertError::InvalidChunk(ChunkError::LengthMismatch));
    assert_eq!(rows.len(), 2);
}

#[test]
fn rows_are_sorted_by_name_labels_and_time() {
    let sorted = sort_rows(vec![
        row("b", None, 0, 0),
        row("a", Some("x"), 0, 0),
        row("a", None, 2, 0),
        row("a", None, 1, 9),
        row("a", None, 1, 3),
    ]);
    let keys: Vec<(&str, Option<&str>, u8, i64)> = sorted
        .iter()
        .map(|row| (row.name.as_str(), row.labels[0].as_deref(), row.hash[0], row.timestamp))
        .collect();
    assert_eq!(
        keys,
        vec![
            ("a", None, 2, 0),
            ("a", None, 1, 3),
            ("a", None, 1, 9),
            ("a", Some("x"), 0, 0),
            ("b", None, 0, 0),
        ]
    );
}

#[test]
fn conversion_errors_have_texts() {
    assert!(!ConvertError::NoObjectName.message().is_empty());
    assert_eq!(
        ConvertError::InvalidChunk(ChunkError::CrcMismatch).message(),
        "chunk CRC32C mismatch"
    );
}

#[test]
fn external_labels_are_found_in_the_metadata() {
    let found = |meta: &str| labels_to_json(&external_labels(meta.as_bytes()));
    assert_eq!(
        found(r#"{"thanos":{"labels":{"replica":"1","cluster":"eu"}},"version":1}"#),
        r#"{"cluster":"eu","replica":"1"}"#
    );
    assert_eq!(found(r#"{"labels":{"cluster":"eu"}}"#), "{}");
    assert_eq!(found(r#"{"thanos":{"labels":{"cluster":1}}}"#), "{}");
    assert_eq!(found("no JSON"), "{}");
    assert_eq!(labels_or_none(None).len(), 0);
    let pairs = vec![("a".to_string(), "1".to_string()), ("b".to_string(), "2".to_string())];
    assert_eq!(labels_to_json(&labels_or_none(Some(pairs))), r#"{"a":"1","b":"2"}"#);
}
