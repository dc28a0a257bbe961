use rusty_chunkenc::chunk::Chunk;
use rusty_chunkenc::xor::XORSample;
use thanos_v1_reader::bits::{BitReader, ChunkError};
use thanos_v1_reader::chunk_reader::{
    decode_chunk, decode_encoded_chunk, decode_record, decode_selected, prefix_range, record_range,
    samples_from_xor, AggregateKind, AggregateSelection, EncodedChunk, Sample,
};
use thanos_v1_reader::histogram::{
    decode_float_histogram, decode_histogram, CustomBound, HistogramBuckets, HistogramCount,
    HistogramSample, Span,
};

fn crc32c(bytes: &[u8]) -> u32 {
    crc::Crc::<u32>::new(&crc::CRC_32_ISCSI).checksum(bytes)
}

fn framed_record(encoding: u8, payload: &[u8]) -> Vec<u8> {
    let mut record = vec![payload.len() as u8, encoding];
    record.extend_from_slice(payload);
    let checksum = crc32c(&record[1..]);
    record.extend_from_slice(&checksum.to_be_bytes());
    record
}

fn xor_record(samples: &[(i64, f64)]) -> Vec<u8> {
    let samples = samples
        .iter()
        .map(|(timestamp, value)| XORSample { timestamp: *timestamp, value: *value })
        .collect();
    let mut record = Vec::new();
    Chunk::new_xor(samples).write(&mut record).unwrap();
    record
}

fn xor_payload(samples: &[(i64, f64)]) -> Vec<u8> {
    let record = xor_record(samples);
    assert!(record[0] < 128);
    record[2..record.len() - 4].to_vec()
}

fn slot(encoding: u8, payload: &[u8]) -> Vec<u8> {
    let mut slot = vec![payload.len() as u8, encoding];
    slot.extend_from_slice(payload);
    slot
}

fn points(samples: &[Sample]) -> Vec<(i64, f64)> {
    samples
        .iter()
        .map(|sample| (sample.timestamp, f64::from_bits(sample.value)))
        .collect()
}

struct BitWriter {
    bits: Vec<bool>,
}

impl BitWriter {
    fn new() -> Self {
        BitWriter { bits: Vec::new() }
    }

    fn put(&mut self, value: u64, count: u32) {
        for position in (0..count).rev() {
            self.bits.push((value >> position) & 1 == 1);
        }
    }

    fn put_uint(&mut self, value: u64) {
        if value == 0 {
            self.put(0, 1);
        } else if value < 8 {
            self.put(0b10, 2);
            self.put(value, 3);
        } else if value < 64 {
            self.put(0b110, 3);
            self.put(value, 6);
        } else {
            self.put(0b1111_1111, 8);
            self.put(value, 64);
        }
    }

    fn put_int(&mut self, value: i64) {
        if value == 0 {
            self.put(0, 1);
        } else if (-3..=4).contains(&value) {
            self.put(0b10, 2);
            self.put(value as u64, 3);
        } else {
            self.put(0b1111_1111, 8);
            self.put(value as u64, 64);
        }
    }

    fn payload(&self, samples: u16, flags: u8) -> Vec<u8> {
        let mut payload = samples.to_be_bytes().to_vec();
        payload.push(flags);
        for byte in self.bits.chunks(8) {
            let mut value = 0;
            for (position, bit) in byte.iter().enumerate() {
                if *bit {
                    value |= 0x80u8 >> position;
                }
            }
            payload.push(value);
        }
        payload
    }
}

fn integer_histograms() -> Vec<u8> {
    let mut writer = BitWriter::new();
    writer.put(245, 8);
    writer.put_int(2);
    writer.put_uint(1);
    writer.put_uint(2);
    writer.put_int(-1);
    writer.put_uint(0);
    writer.put_int(1000);
    writer.put_uint(7);
    writer.put_uint(1);
    writer.put(2.5f64.to_bits(), 64);
    writer.put_int(3);
    writer.put_int(-1);
    writer.put_int(60);
    writer.put_int(4);
    writer.put_int(1);
    writer.put(0, 1);
    writer.put_int(1);
    writer.put_int(0);
    writer.payload(2, 0)
}

#[test]
fn decodes_xor_chunk_record() {
    let record = xor_record(&[(100, 10.0), (200, 11.0)]);
    let samples = decode_record(&record, true).unwrap();
    assert_eq!(points(&samples), vec![(100, 10.0), (200, 11.0)]);
    assert!(samples.iter().all(|sample| sample.histogram.is_none()));
    assert!(samples.iter().all(|sample| sample.aggregate == AggregateKind::Raw));
}

#[test]
fn decodes_aggregate_counter_slot() {
    let mut payload = vec![0, 0, 0, 0];
    payload.extend(slot(1, &xor_payload(&[(300, 42.0)])));
    let samples = decode_record(&framed_record(0xff, &payload), true).unwrap();
    assert_eq!(points(&samples), vec![(300, 42.0)]);
    assert_eq!(samples[0].aggregate, AggregateKind::Counter);
}

#[test]
fn rejects_invalid_crc() {
    let mut record = framed_record(1, &[0, 0]);
    *record.last_mut().unwrap() ^= 1;
    assert!(decode_record(&record, false).is_err());
    assert_eq!(decode_record(&record, false).err(), Some(ChunkError::CrcMismatch));
}

#[test]
fn rejects_truncated_histogram_header_and_payload() {
    assert!(decode_histogram(&[0, 1]).is_err());
    assert!(decode_float_histogram(&[0, 1, 0]).is_err());
    assert_eq!(decode_histogram(&[0, 1]).err(), Some(ChunkError::TruncatedHistogramHeader));
    assert_eq!(decode_float_histogram(&[0, 1, 0]).err(), Some(ChunkError::TruncatedBits));
}

#[test]
fn checksum_is_the_castagnoli_one() {
    assert_eq!(crc32c(b"123456789"), 0xe306_9283);
    assert!(decode_encoded_chunk(&framed_record(2, &[0, 0, 0])).is_ok());
}

#[test]
fn a_record_is_found_from_its_first_bytes() {
    assert_eq!(prefix_range(8), (8, 14));
    let record = xor_record(&[(100, 10.0), (200, 11.0), (300, 12.0)]);
    let (start, end) = record_range(8, &record[..6]).unwrap();
    assert_eq!(start, 8);
    assert_eq!(end, 8 + record.len() as u64);
    assert_eq!(record_range(0, &[0x80, 0x01, 1]).unwrap(), (0, 2 + 1 + 128 + 4));
}

#[test]
fn record_lengths_are_checked() {
    assert_eq!(record_range(0, &[]).err(), Some(ChunkError::InvalidUvarint));
    assert_eq!(record_range(0, &[0x80; 6]).err(), Some(ChunkError::InvalidUvarint));
    assert_eq!(record_range(u64::MAX - 6, &[2, 1]).err(), Some(ChunkError::LengthOverflow));
    assert_eq!(record_range(u64::MAX - 8, &[2, 1]).unwrap(), (u64::MAX - 8, u64::MAX));
}

#[test]
fn records_with_other_lengths_or_encodings_are_rejected() {
    let mut record = framed_record(1, &[0, 0]);
    record.push(0);
    assert_eq!(decode_record(&record, false).err(), Some(ChunkError::LengthMismatch));
    assert_eq!(
        decode_record(&framed_record(9, &[0, 0]), false).err(),
        Some(ChunkError::UnsupportedEncoding(9))
    );
    assert_eq!(
        decode_record(&framed_record(0xff, &[0, 0, 0, 0, 9, 1]), true).err(),
        Some(ChunkError::TruncatedAggregateSlot)
    );
    assert_eq!(
        decode_record(&framed_record(0xff, &[0, 0, 0, 0, 1, 7, 7]), true).err(),
        Some(ChunkError::UnsupportedAggregateEncoding(7))
    );
    assert_eq!(
        decode_record(&framed_record(1, &[0]), true).err(),
        Some(ChunkError::InvalidXorPayload)
    );
}

#[test]
fn downsampled_chunks_are_read_by_slot() {
    let mut payload = slot(1, &xor_payload(&[(1, 2.0)]));
    payload.extend(slot(1, &xor_payload(&[(1, 3.0)])));
    payload.extend([0, 0, 0]);
    let record = framed_record(0xff, &payload);
    let count = decode_selected(&record, false, Some(AggregateSelection::Count)).unwrap();
    assert_eq!(points(&count), vec![(1, 2.0)]);
    assert_eq!(count[0].aggregate, AggregateKind::Count);
    let sum = decode_selected(&record, false, Some(AggregateSelection::Sum)).unwrap();
    assert_eq!(points(&sum), vec![(1, 3.0)]);
    assert_eq!(sum[0].aggregate, AggregateKind::Sum);
    let counter = decode_selected(&record, false, Some(AggregateSelection::Counter)).unwrap();
    assert!(counter.is_empty());
    assert!(decode_record(&record, true).unwrap().is_empty());
    assert_eq!(decode_record(&record, false).err(), Some(ChunkError::AggregateOfNonCounter));
}

#[test]
fn the_slots_of_a_downsampled_chunk_keep_their_order() {
    let payload = [1, 1, 10, 1, 1, 11, 1, 1, 12, 1, 1, 13, 1, 1, 14];
    match decode_encoded_chunk(&framed_record(0xff, &payload)).ok() {
        Some(EncodedChunk::Aggregate { count, sum, min, max, counter }) => {
            assert_eq!(count.unwrap().data, vec![10]);
            assert_eq!(sum.unwrap().data, vec![11]);
            assert_eq!(min.unwrap().data, vec![12]);
            assert_eq!(max.unwrap().data, vec![13]);
            assert_eq!(counter.unwrap().data, vec![14]);
        }
        _ => panic!("expected an aggregate chunk"),
    }
}

#[test]
fn points_become_samples_of_a_kind() {
    let samples = samples_from_xor(&vec![(5, 7.5f64.to_bits())], AggregateKind::Sum);
    assert_eq!(points(&samples), vec![(5, 7.5)]);
    assert_eq!(samples[0].aggregate.as_str(), "sum");
    assert_eq!(AggregateKind::Raw.as_str(), "raw");
    assert_eq!(AggregateKind::Count.as_str(), "count");
    assert_eq!(AggregateKind::Counter.as_str(), "counter");
}

#[test]
fn histograms_of_integers_add_up_their_changes() {
    let samples = decode_histogram(&integer_histograms()).unwrap();
    let expected = |timestamp, count, zero_count, reset_hint, buckets| HistogramSample {
        timestamp,
        schema: 2,
        count: HistogramCount::Integer(count),
        sum: 2.5f64.to_bits(),
        zero_threshold: 2.0f64.to_bits(),
        zero_count: HistogramCount::Integer(zero_count),
        reset_hint,
        positive_spans: vec![Span { offset: -1, length: 2 }],
        negative_spans: vec![],
        positive_buckets: HistogramBuckets::Integer(buckets),
        negative_buckets: HistogramBuckets::Integer(vec![]),
        custom_values: vec![],
    };
    assert_eq!(
        samples,
        vec![
            expected(1000, 7, 1, 0, vec![3, -1]),
            expected(1060, 11, 2, 2, vec![4, -1]),
        ]
    );
}

#[test]
fn histogram_chunks_become_samples() {
    let record = framed_record(2, &integer_histograms());
    let samples = decode_record(&record, false).unwrap();
    assert_eq!(samples.len(), 2);
    assert_eq!(samples[1].timestamp, 1060);
    assert_eq!(samples[1].histogram.as_ref().unwrap().reset_hint, 2);
    assert_eq!(samples[1].aggregate, AggregateKind::Raw);
}

#[test]
fn histograms_of_floats_are_differences_of_bit_patterns() {
    let mut writer = BitWriter::new();
    writer.put(0, 8);
    writer.put_int(-53);
    writer.put_uint(1);
    writer.put_uint(1);
    writer.put_int(0);
    writer.put_uint(0);
    writer.put_uint(2);
    writer.put_uint(501);
    writer.put_uint(0);
    writer.put(9.5f64.to_bits(), 64);
    writer.put_int(10);
    writer.put(4.0f64.to_bits(), 64);
    writer.put(0.0f64.to_bits(), 64);
    writer.put(6.0f64.to_bits(), 64);
    writer.put(4.0f64.to_bits(), 64);
    writer.put_int(5);
    let difference = 4.0f64.to_bits() ^ 5.0f64.to_bits();
    let leading = u64::from(difference.leading_zeros());
    let trailing = u64::from(difference.trailing_zeros());
    writer.put(0b11, 2);
    writer.put(leading, 5);
    writer.put(64 - leading - trailing, 6);
    writer.put(difference >> trailing, (64 - leading - trailing) as u32);
    writer.put(0, 1);
    writer.put(0, 1);
    writer.put(0, 1);
    let samples = decode_float_histogram(&writer.payload(2, 0b1100_0000)).unwrap();
    assert_eq!(samples.len(), 2);
    assert_eq!(samples[0].timestamp, 10);
    assert_eq!(samples[1].timestamp, 15);
    assert_eq!(samples[0].count, HistogramCount::Float(4.0f64.to_bits()));
    assert_eq!(samples[1].count, HistogramCount::Float(5.0f64.to_bits()));
    assert_eq!(samples[1].zero_count, HistogramCount::Float(0));
    assert_eq!(samples[1].sum, 6.0f64.to_bits());
    assert_eq!(samples[1].reset_hint, 3);
    assert_eq!(
        samples[0].custom_values,
        vec![CustomBound::Thousandths(500), CustomBound::Bits(9.5f64.to_bits())]
    );
    assert_eq!(
        samples[1].positive_buckets,
        HistogramBuckets::Float(vec![4.0f64.to_bits()])
    );
}

#[test]
fn a_stale_histogram_holds_nothing_but_its_time() {
    let mut writer = BitWriter::new();
    writer.put(0, 8);
    writer.put_int(0);
    writer.put_uint(0);
    writer.put_uint(0);
    writer.put_int(3);
    writer.put_uint(9);
    writer.put_uint(1);
    writer.put(0x7ff0_0000_0000_0002, 64);
    let samples = decode_histogram(&writer.payload(1, 0)).unwrap();
    assert_eq!(samples.len(), 1);
    assert_eq!(samples[0].timestamp, 3);
    assert_eq!(samples[0].sum, 0x7ff0_0000_0000_0002);
    assert_eq!(samples[0].count, HistogramCount::Integer(0));
}

#[test]
fn histogram_layouts_are_checked() {
    assert_eq!(decode_histogram(&[0, 0, 0]).unwrap(), vec![]);
    let mut writer = BitWriter::new();
    writer.put(0, 8);
    writer.put_int(9);
    assert_eq!(
        decode_histogram(&writer.payload(1, 0)).err(),
        Some(ChunkError::UnknownSchema(9))
    );
    let mut writer = BitWriter::new();
    writer.put(0, 8);
    writer.put_int(1 << 40);
    assert_eq!(decode_histogram(&writer.payload(1, 0)).err(), Some(ChunkError::SchemaOverflow));
    let mut writer = BitWriter::new();
    writer.put(0, 8);
    writer.put_int(0);
    writer.put_uint(1);
    writer.put_uint(1 << 40);
    assert_eq!(
        decode_histogram(&writer.payload(1, 0)).err(),
        Some(ChunkError::SpanLengthOverflow)
    );
    let mut writer = BitWriter::new();
    writer.put(0, 8);
    writer.put_int(0);
    writer.put_uint(1);
    writer.put_uint(1);
    writer.put_int(1 << 40);
    assert_eq!(
        decode_histogram(&writer.payload(1, 0)).err(),
        Some(ChunkError::SpanOffsetOverflow)
    );
}

#[test]
fn a_window_of_more_than_a_float_is_rejected() {
    let mut writer = BitWriter::new();
    writer.put(0, 8);
    writer.put_int(0);
    writer.put_uint(0);
    writer.put_uint(0);
    writer.put_int(0);
    writer.put_uint(0);
    writer.put_uint(0);
    writer.put(0, 64);
    writer.put_int(0);
    writer.put_int(0);
    writer.put_int(0);
    writer.put(0b11, 2);
    writer.put(31, 5);
    writer.put(63, 6);
    writer.put(0, 64);
    assert_eq!(decode_histogram(&writer.payload(2, 0)).err(), Some(ChunkError::InvalidXorWindow));
}

#[test]
fn bits_come_most_significant_first() {
    let bytes = [0b1010_0000, 0xff];
    let mut reader = BitReader::new(&bytes);
    assert_eq!(reader.read_bits(3), Ok(0b101));
    assert_eq!(reader.read_bits(13), Ok(0xff));
    assert_eq!(reader.read_bits(1), Err(ChunkError::TruncatedBits));
    let mut reader = BitReader::new(&bytes);
    assert_eq!(reader.read_bits(16), Ok(0b101 << 13 | 0xff));
    let mut reader = BitReader::new(&bytes);
    assert_eq!(reader.read_bits(17), Err(ChunkError::TruncatedBits));
    assert_eq!(reader.read_bits(65), Err(ChunkError::TruncatedBits));
    assert_eq!(reader.read_bits(16), Ok(0b101 << 13 | 0xff));
    let mut reader = BitReader::new(&[0b1010_1000]);
    assert_eq!(reader.read_varbit_int(), Ok(-3));
    let mut reader = BitReader::new(&[0b1010_1000]);
    assert_eq!(reader.read_varbit_uint(), Ok(5));
}

#[test]
fn chunk_errors_have_texts() {
    assert_eq!(ChunkError::CrcMismatch.message(), "chunk CRC32C mismatch");
    assert_eq!(
        ChunkError::UnsupportedEncoding(9).message(),
        "unsupported Prometheus chunk encoding 9"
    );
    assert_eq!(ChunkError::UnknownSchema(-12).message(), "unknown histogram schema -12");
}

#[test]
fn encoded_chunks_decode_like_their_records() {
    let record = xor_record(&[(100, 1.5)]);
    let chunk = decode_encoded_chunk(&record).ok().unwrap();
    match &chunk {
        EncodedChunk::Plain(data) => {
            assert_eq!(data.encoding, 1);
            assert_eq!(data.data, record[2..record.len() - 4].to_vec());
        }
        _ => panic!("expected a plain chunk"),
    }
    assert_eq!(points(&decode_chunk(&chunk, false, None).unwrap()), vec![(100, 1.5)]);
}
