use thanos_v1_reader::tsdb_index::{parse, parse_series, Chunk, IndexError, Section, Series};

fn crc32c(bytes: &[u8]) -> [u8; 4] {
    crc::Crc::<u32>::new(&crc::CRC_32_ISCSI).checksum(bytes).to_be_bytes()
}

fn uvarint(mut value: u64) -> Vec<u8> {
    let mut bytes = Vec::new();
    while value >= 128 {
        bytes.push((value % 128) as u8 + 128);
        value /= 128;
    }
    bytes.push(value as u8);
    bytes
}

fn varint(value: i64) -> Vec<u8> {
    uvarint(((value << 1) ^ (value >> 63)) as u64)
}

fn symbols(texts: &[&[u8]]) -> Vec<u8> {
    let mut content = (texts.len() as u32).to_be_bytes().to_vec();
    for text in texts {
        content.extend(uvarint(text.len() as u64));
        content.extend_from_slice(text);
    }
    content
}

fn with_crc(content: &[u8]) -> Vec<u8> {
    let mut bytes = content.to_vec();
    bytes.extend(crc32c(content));
    bytes
}

fn sectioned(table: &[u8], bodies: &[Vec<u8>]) -> Vec<u8> {
    let mut bytes = 0xBAAA_D700u32.to_be_bytes().to_vec();
    bytes.push(2);
    bytes.extend((table.len() as u32).to_be_bytes());
    bytes.extend(with_crc(table));
    let mut start = None;
    for body in bodies {
        while bytes.len() % 16 != 0 {
            bytes.push(0);
        }
        if start.is_none() {
            start = Some(bytes.len() as u64);
        }
        bytes.extend(uvarint(body.len() as u64));
        bytes.extend(with_crc(body));
    }
    let end = bytes.len() as u64;
    finished(bytes, 5, start.unwrap_or(end), end)
}

fn finished(mut bytes: Vec<u8>, table: u64, start: u64, end: u64) -> Vec<u8> {
    let mut toc = Vec::new();
    toc.extend(table.to_be_bytes());
    toc.extend(start.to_be_bytes());
    toc.extend(end.to_be_bytes());
    toc.extend([0; 24]);
    bytes.extend(with_crc(&toc));
    bytes
}

const TABLE: [&[u8]; 4] = [b"__name__", b"api", b"job", b"up"];

fn body(chunks: &[u8], count: u64) -> Vec<u8> {
    let mut body = vec![2, 1, 4, 3, 2];
    body.extend(uvarint(count));
    body.extend_from_slice(chunks);
    body
}

fn error_of(body: Vec<u8>) -> Option<IndexError> {
    parse(&sectioned(&symbols(&TABLE), &[body])).err()
}

fn joined(parts: &[Vec<u8>]) -> Vec<u8> {
    parts.iter().flatten().copied().collect()
}

fn label<'a>(series: &'a Series, name: &str) -> Option<&'a str> {
    series.labels.get(name).map(|value| value.as_str())
}

#[test]
fn reads_the_series_of_an_index() {
    let first = body(
        &joined(&[
            varint(-100),
            uvarint(50),
            uvarint(8),
            uvarint(10),
            uvarint(5),
            varint(12),
        ]),
        2,
    );
    let second = body(&[], 0);
    let series = parse(&sectioned(&symbols(&TABLE), &[first, second])).ok().unwrap();
    assert_eq!(series.len(), 2);
    assert_eq!(label(&series[0], "__name__"), Some("up"));
    assert_eq!(label(&series[0], "job"), Some("api"));
    assert_eq!(label(&series[0], "pod"), None);
    assert_eq!(
        series[0].chunks,
        vec![
            Chunk { mint: -100, maxt: -50, reference: 8 },
            Chunk { mint: -40, maxt: -35, reference: 20 },
        ]
    );
    assert!(series[1].chunks.is_empty());
    assert!(series[0].reference < series[1].reference);
}

#[test]
fn references_are_offsets_in_units_of_the_alignment() {
    let bytes = sectioned(&symbols(&TABLE), &[body(&[], 0), body(&[], 0)]);
    let series = parse(&bytes).ok().unwrap();
    assert_eq!(series[0].reference, 48 / 16);
    assert_eq!(series[1].reference, 64 / 16);
}

#[test]
fn an_index_without_series_is_empty() {
    assert!(parse(&sectioned(&symbols(&[]), &[])).ok().unwrap().is_empty());
}

#[test]
fn the_frame_of_an_index_is_checked() {
    let good = sectioned(&symbols(&TABLE), &[body(&[], 0)]);
    assert_eq!(parse(&good[..56]).err(), Some(IndexError::TooShort));
    let mut bytes = good.clone();
    bytes[0] = 0;
    assert_eq!(parse(&bytes).err(), Some(IndexError::InvalidMagic));
    let mut bytes = good.clone();
    bytes[4] = 3;
    assert_eq!(parse(&bytes).err(), Some(IndexError::UnsupportedVersion(3)));
    assert_eq!(IndexError::UnsupportedVersion(3).message(), "unsupported index version 3");
    let mut bytes = good.clone();
    let last = bytes.len() - 1;
    bytes[last] ^= 1;
    assert_eq!(parse(&bytes).err(), Some(IndexError::CrcMismatch(Section::Toc)));
    let mut bytes = good.clone();
    bytes[13] ^= 1;
    assert_eq!(parse(&bytes).err(), Some(IndexError::CrcMismatch(Section::SymbolTable)));
    let mut bytes = good;
    bytes[50] ^= 1;
    assert_eq!(parse(&bytes).err(), Some(IndexError::CrcMismatch(Section::SeriesEntry)));
}

#[test]
fn the_bounds_of_the_sections_are_checked() {
    let mut head = 0xBAAA_D700u32.to_be_bytes().to_vec();
    head.push(1);
    let mut table = head.clone();
    table.extend(4u32.to_be_bytes());
    table.extend(with_crc(&[0; 4]));
    let end = table.len() as u64;
    assert_eq!(
        parse(&finished(table.clone(), 5, end + 1, end)).err(),
        Some(IndexError::InvalidSeriesBounds)
    );
    assert_eq!(
        parse(&finished(table.clone(), 5, end, end + 1)).err(),
        Some(IndexError::InvalidSeriesBounds)
    );
    assert!(parse(&finished(table, 5, end, end)).is_ok());
    assert_eq!(
        parse(&finished(head.clone(), u64::MAX, 5, 5)).err(),
        Some(IndexError::TruncatedU32)
    );
    let mut long = head;
    long.extend(1000u32.to_be_bytes());
    assert_eq!(parse(&finished(long, 5, 9, 9)).err(), Some(IndexError::TruncatedSymbolTable));
}

#[test]
fn symbols_are_checked() {
    let table = |content: &[u8]| parse(&sectioned(content, &[])).err();
    assert_eq!(table(&[0, 0, 0, 0, 1]), Some(IndexError::TrailingSymbolBytes));
    assert_eq!(table(&[0, 0, 0, 1, 5, b'a']), Some(IndexError::TruncatedSymbol));
    assert_eq!(table(&symbols(&[&[0xff, 0xfe]])), Some(IndexError::SymbolNotUtf8));
    let mut long = vec![0, 0, 0, 1];
    long.extend(uvarint(u64::MAX));
    assert_eq!(table(&long), Some(IndexError::SymbolLengthOverflow));
}

#[test]
fn labels_are_checked() {
    assert_eq!(error_of(vec![1, 0, 1, 0]), Some(IndexError::InvalidSymbolReference));
    assert_eq!(error_of(vec![1, 9, 1, 0]), Some(IndexError::SymbolOutOfBounds));
    assert_eq!(error_of(vec![2, 1, 4, 1, 2, 0]), Some(IndexError::DuplicateLabel));
    assert_eq!(error_of(vec![0, 0, 7]), Some(IndexError::TrailingSeriesBytes));
    assert_eq!(error_of(vec![0x80]), Some(IndexError::TruncatedUvarint));
    assert_eq!(error_of(vec![0xff; 11]), Some(IndexError::UvarintOverflow));
}

#[test]
fn chunks_are_checked() {
    let after = |parts: &[Vec<u8>]| {
        let mut chunks = joined(&[varint(i64::MAX - 10), uvarint(5), uvarint(8)]);
        chunks.extend(joined(parts));
        error_of(body(&chunks, 2))
    };
    assert_eq!(after(&[uvarint(1 << 63)]), Some(IndexError::MintDeltaOverflow));
    assert_eq!(after(&[uvarint(6)]), Some(IndexError::MintOverflow));
    assert_eq!(after(&[uvarint(1), uvarint(1 << 63)]), Some(IndexError::DurationOverflow));
    assert_eq!(after(&[uvarint(1), uvarint(5)]), Some(IndexError::MaxtOverflow));
    assert_eq!(
        after(&[uvarint(1), uvarint(1), varint(-9)]),
        Some(IndexError::ReferenceOutOfRange)
    );
    assert_eq!(
        after(&[uvarint(1), uvarint(1), varint(0)]),
        Some(IndexError::ReferencesNotIncreasing)
    );
    assert_eq!(after(&[uvarint(1), uvarint(1), varint(1)]), None);
}

#[test]
fn series_entries_are_checked() {
    let mut bytes = 0xBAAA_D700u32.to_be_bytes().to_vec();
    bytes.push(2);
    bytes.extend(4u32.to_be_bytes());
    bytes.extend(with_crc(&[0; 4]));
    let start = bytes.len() as u64;
    let with_entry = |entry: &[u8]| {
        let mut bytes = bytes.clone();
        bytes.extend_from_slice(entry);
        let end = bytes.len() as u64;
        parse(&finished(bytes, 5, start, end)).err()
    };
    assert_eq!(with_entry(&[9, 0, 0]), Some(IndexError::TruncatedSeriesEntry));
    assert_eq!(with_entry(&uvarint(u64::MAX)), Some(IndexError::SeriesLengthOverflow));
    assert_eq!(
        with_entry(&uvarint(u64::MAX - start - 10)),
        Some(IndexError::SeriesChecksumOverflow)
    );
    assert_eq!(IndexError::CrcMismatch(Section::Toc).message(), "TOC CRC mismatch");
}

#[test]
fn a_series_entry_has_one_end() {
    let texts: Vec<String> =
        TABLE.iter().map(|text| String::from_utf8(text.to_vec()).unwrap()).collect();
    let entry = body(&[], 0);
    let series = parse_series(&entry, 7, &texts).unwrap();
    assert_eq!(series.reference, 7);
    assert_eq!(label(&series, "__name__"), Some("up"));
    assert_eq!(label(&series, "job"), Some("api"));
    let longer = joined(&[entry, vec![0]]);
    assert_eq!(parse_series(&longer, 7, &texts).err(), Some(IndexError::TrailingSeriesBytes));
}
