//! Chunk records: framing, aggregate slots, and the samples inside.

use vstd::prelude::*;

#[allow(unused_imports)]
use crate::bits::{
    bit_at, bits_at, bits_value, fits_signed, holds_bits, law_written_bits_are_read,
    lemma_bit_parts, lemma_bits_value_bound, lemma_number_bits_length, lemma_pattern_of_signed,
    number_bits, signed,
};
use crate::bits::{from_pattern, BitReader, ChunkError};
#[allow(unused_imports)]
use crate::digest::{be_bytes, crc32c};
use crate::digest::crc32c_checksum;
#[allow(unused_imports)]
use crate::histogram::{
    float_histogram_samples, histogram_models, histogram_samples, xor_at, HistogramModel,
};
use crate::histogram::{
    decode_float_histogram, decode_histogram, read_xor, HistogramSample, XorValue,
};
#[allow(unused_imports)]
use crate::tsdb_index::{holds_bytes, lemma_parts, uvarint_at, uvarint_bytes, varint_at};
use crate::tsdb_index::{read_uvarint, read_varint};

verus! {

/// The record of a chunk starts with the length of its payload, in at most this many bytes.
pub const MAX_UVARINT_SIZE: usize = 5;

pub const CRC_SIZE: usize = 4;

pub const ENCODING_XOR: u8 = 1;

pub const ENCODING_HISTOGRAM: u8 = 2;

pub const ENCODING_FLOAT_HISTOGRAM: u8 = 3;

pub const ENCODING_AGGR: u8 = 0xff;

/// The number whose base-128 digits start `index` digits into a record, least significant digit
/// first, and the number of digits of the record's length. A digit of 128 or more has another
/// one behind it.
pub open spec fn length_digits(bytes: Seq<u8>, index: int) -> Result<(int, int), ChunkError>
    decreases MAX_UVARINT_SIZE - index,
{
    if index >= MAX_UVARINT_SIZE || index >= bytes.len() {
        Err(ChunkError::InvalidUvarint)
    } else if bytes[index] < 128 {
        Ok((bytes[index] as int, index + 1))
    } else {
        match length_digits(bytes, index + 1) {
            Ok((rest, size)) => Ok((bytes[index] - 128 + 128 * rest, size)),
            Err(error) => Err(error),
        }
    }
}

/// The length at the start of a record or a slot, and the number of bytes that it takes.
pub open spec fn length_at(bytes: Seq<u8>) -> Result<(int, int), ChunkError> {
    length_digits(bytes, 0)
}

/// Reads the length at the start of a record or a slot.
fn read_length(bytes: &[u8]) -> (result: Result<(u64, usize), ChunkError>)
    ensures
        match result {
            Ok((value, size)) => {
                &&& length_at(bytes@) == Ok::<(int, int), ChunkError>((value as int, size as int))
                &&& 1 <= size <= MAX_UVARINT_SIZE
                &&& size <= bytes.len()
                &&& value < 0x8_0000_0000
            },
            Err(error) => length_at(bytes@) == Err::<(int, int), ChunkError>(error),
        },
{
    let mut value: u64 = 0;
    let mut scale: u64 = 1;
    let mut index: usize = 0;
    while index < MAX_UVARINT_SIZE && index < bytes.len()
        invariant
            index <= MAX_UVARINT_SIZE,
            scale == 1 || scale == 128 || scale == 0x4000 || scale == 0x20_0000 || scale
                == 0x1000_0000 || scale == 0x8_0000_0000,
            index == 0 <==> scale == 1,
            index == 1 <==> scale == 128,
            index == 2 <==> scale == 0x4000,
            index == 3 <==> scale == 0x20_0000,
            index == 4 <==> scale == 0x1000_0000,
            index == 5 <==> scale == 0x8_0000_0000,
            value < scale,
            match length_digits(bytes@, index as int) {
                Ok((rest, size)) => length_at(bytes@) == Ok::<(int, int), ChunkError>(
                    (value + scale * rest, size),
                ),
                Err(error) => length_at(bytes@) == Err::<(int, int), ChunkError>(error),
            },
        decreases MAX_UVARINT_SIZE - index,
    {
        let byte: u8 = bytes[index];
        let digit: u64 = (byte % 128) as u64;
        let ghost before: int = value as int;
        value = value + scale * digit;
        if byte < 128 {
            return Ok((value, index + 1));
        }
        proof {
            match length_digits(bytes@, index + 1) {
                Ok((rest, size)) => {
                    assert(before + scale * (digit + 128 * rest) == (before + scale * digit) + (
                    scale * 128) * rest) by (nonlinear_arith);
                },
                Err(error) => {},
            }
        }
        scale = scale * 128;
        index = index + 1;
    }
    Err(ChunkError::InvalidUvarint)
}

/// The byte range of a record that starts at an offset, given the bytes at its start. Those of
/// [`prefix_range`] are enough to tell.
pub open spec fn record_bounds(offset: int, prefix: Seq<u8>) -> Result<(int, int), ChunkError> {
    match length_at(prefix) {
        Err(error) => Err(error),
        Ok((length, size)) => if offset + size + 1 + length + CRC_SIZE > u64::MAX {
            Err(ChunkError::LengthOverflow)
        } else {
            Ok((offset, offset + size + 1 + length + CRC_SIZE))
        },
    }
}

/// The byte range that holds the length of the record at an offset.
pub fn prefix_range(offset: u64) -> (range: (u64, u64))
    requires
        offset <= u64::MAX - 6,
    ensures
        range.0 == offset,
        range.1 == offset + MAX_UVARINT_SIZE + 1,
{
    (offset, offset + MAX_UVARINT_SIZE as u64 + 1)
}

/// The byte range of the record at an offset, given the bytes at its start.
pub fn record_range(offset: u64, prefix: &[u8]) -> (result: Result<(u64, u64), ChunkError>)
    ensures
        match result {
            Ok((start, end)) => record_bounds(offset as int, prefix@) == Ok::<
                (int, int),
                ChunkError,
            >((start as int, end as int)),
            Err(error) => record_bounds(offset as int, prefix@) == Err::<(int, int), ChunkError>(
                error,
            ),
        },
{
    let (length, size) = read_length(prefix)?;
    match offset.checked_add(size as u64 + 1 + length + CRC_SIZE as u64) {
        Some(end) => Ok((offset, end)),
        None => Err(ChunkError::LengthOverflow),
    }
}

/// The encoding and the payload of a record. A record is the length of the payload, the
/// encoding, the payload and the checksum of encoding and payload, and nothing behind it.
pub open spec fn record_content(record: Seq<u8>) -> Result<(u8, Seq<u8>), ChunkError> {
    match length_at(record) {
        Err(error) => Err(error),
        Ok((length, size)) => {
            let end = size + 1 + length;
            if end + CRC_SIZE != record.len() {
                Err(ChunkError::LengthMismatch)
            } else if crc32c(record.subrange(size, end)) != record[end] * 0x100_0000 + record[end
                + 1] * 0x1_0000 + record[end + 2] * 0x100 + record[end + 3] {
                Err(ChunkError::CrcMismatch)
            } else {
                Ok((record[size], record.subrange(size + 1, end)))
            }
        },
    }
}

/// Checks the frame of a record and returns its encoding and its payload.
fn open_record(record: &[u8]) -> (result: Result<(u8, &[u8]), ChunkError>)
    ensures
        match result {
            Ok((encoding, payload)) => record_content(record@) == Ok::<(u8, Seq<u8>), ChunkError>(
                (encoding, payload@),
            ),
            Err(error) => record_content(record@) == Err::<(u8, Seq<u8>), ChunkError>(error),
        },
{
    let (length, size) = read_length(record)?;
    let total: u64 = size as u64 + 1 + length + CRC_SIZE as u64;
    if total != record.len() as u64 {
        return Err(ChunkError::LengthMismatch);
    }
    let end: usize = record.len() - CRC_SIZE;
    let checksum: u32 = record[end] as u32 * 0x100_0000 + record[end + 1] as u32 * 0x1_0000
        + record[end + 2] as u32 * 0x100 + record[end + 3] as u32;
    if crc32c_checksum(&record[size..end]) != checksum {
        return Err(ChunkError::CrcMismatch);
    }
    Ok((record[size], &record[size + 1..end]))
}

/// How the data of a chunk is encoded.
#[derive(Clone, Copy, Debug, PartialEq, Eq, Structural)]
pub enum Encoding {
    Xor,
    Histogram,
    FloatHistogram,
}

/// The encoding that a byte stands for.
pub open spec fn encoding_of(byte: u8) -> Option<Encoding> {
    if byte == ENCODING_XOR {
        Some(Encoding::Xor)
    } else if byte == ENCODING_HISTOGRAM {
        Some(Encoding::Histogram)
    } else if byte == ENCODING_FLOAT_HISTOGRAM {
        Some(Encoding::FloatHistogram)
    } else {
        None
    }
}

fn read_encoding(byte: u8) -> (encoding: Option<Encoding>)
    ensures
        encoding == encoding_of(byte),
{
    if byte == ENCODING_XOR {
        Some(Encoding::Xor)
    } else if byte == ENCODING_HISTOGRAM {
        Some(Encoding::Histogram)
    } else if byte == ENCODING_FLOAT_HISTOGRAM {
        Some(Encoding::FloatHistogram)
    } else {
        None
    }
}

/// Encoded samples, of a whole chunk or of one aggregate of a downsampled chunk, with the byte
/// that names the encoding.
pub struct EncodedData {
    pub encoding: u8,
    pub data: Vec<u8>,
}

/// What encoded samples hold.
pub struct EncodedModel {
    pub encoding: u8,
    pub data: Seq<u8>,
}

impl View for EncodedData {
    type V = EncodedModel;

    open spec fn view(&self) -> EncodedModel {
        EncodedModel { encoding: self.encoding, data: self.data@ }
    }
}

/// The aggregate slot at the start of the bytes, and the number of bytes that it takes. A slot is
/// a length, and unless that is 0, an encoding and that many bytes.
pub open spec fn slot_at(bytes: Seq<u8>) -> Result<(Option<EncodedModel>, int), ChunkError> {
    match length_at(bytes) {
        Err(error) => Err(error),
        Ok((length, size)) => if length == 0 {
            Ok((None, size))
        } else if size + 1 + length > bytes.len() {
            Err(ChunkError::TruncatedAggregateSlot)
        } else {
            Ok(
                (
                    Some(
                        EncodedModel {
                            encoding: bytes[size],
                            data: bytes.subrange(size + 1, size + 1 + length),
                        },
                    ),
                    size + 1 + length,
                ),
            )
        },
    }
}

/// An optional value by what it holds.
pub open spec fn encoded_view(data: Option<EncodedData>) -> Option<EncodedModel> {
    match data {
        Some(data) => Some(data@),
        None => None,
    }
}

fn read_slot(bytes: &[u8]) -> (result: Result<(Option<EncodedData>, usize), ChunkError>)
    ensures
        match result {
            Ok((slot, size)) => {
                &&& slot_at(bytes@) == Ok::<(Option<EncodedModel>, int), ChunkError>(
                    (encoded_view(slot), size as int),
                )
                &&& size <= bytes.len()
            },
            Err(error) => slot_at(bytes@) == Err::<(Option<EncodedModel>, int), ChunkError>(error),
        },
{
    let (length, size) = read_length(bytes)?;
    if length == 0 {
        return Ok((None, size));
    }
    if length + 1 > (bytes.len() - size) as u64 {
        return Err(ChunkError::TruncatedAggregateSlot);
    }
    let end: usize = size + 1 + length as usize;
    let data: Vec<u8> = vstd::slice::slice_to_vec(&bytes[size + 1..end]);
    Ok((Some(EncodedData { encoding: bytes[size], data }), end))
}

/// A chunk without its frame: encoded samples, or the slots of a downsampled chunk.
pub enum EncodedChunk {
    Plain(EncodedData),
    Aggregate {
        count: Option<EncodedData>,
        sum: Option<EncodedData>,
        min: Option<EncodedData>,
        max: Option<EncodedData>,
        counter: Option<EncodedData>,
    },
}

/// What a chunk holds.
pub enum EncodedChunkModel {
    Plain(EncodedModel),
    Aggregate {
        count: Option<EncodedModel>,
        sum: Option<EncodedModel>,
        min: Option<EncodedModel>,
        max: Option<EncodedModel>,
        counter: Option<EncodedModel>,
    },
}

impl View for EncodedChunk {
    type V = EncodedChunkModel;

    open spec fn view(&self) -> EncodedChunkModel {
        match self {
            EncodedChunk::Plain(data) => EncodedChunkModel::Plain(data@),
            EncodedChunk::Aggregate { count, sum, min, max, counter } =>
            EncodedChunkModel::Aggregate {
                count: encoded_view(*count),
                sum: encoded_view(*sum),
                min: encoded_view(*min),
                max: encoded_view(*max),
                counter: encoded_view(*counter),
            },
        }
    }
}

/// The five slots at the start of an aggregate payload: count, sum, minimum, maximum and counter.
pub open spec fn aggregate_slots(payload: Seq<u8>) -> Result<EncodedChunkModel, ChunkError> {
    match slot_at(payload) {
        Err(error) => Err(error),
        Ok((count, count_size)) => {
            let after_count = payload.skip(count_size);
            match slot_at(after_count) {
                Err(error) => Err(error),
                Ok((sum, sum_size)) => {
                    let after_sum = after_count.skip(sum_size);
                    match slot_at(after_sum) {
                        Err(error) => Err(error),
                        Ok((min, min_size)) => {
                            let after_min = after_sum.skip(min_size);
                            match slot_at(after_min) {
                                Err(error) => Err(error),
                                Ok((max, max_size)) => match slot_at(after_min.skip(max_size)) {
                                    Err(error) => Err(error),
                                    Ok((counter, counter_size)) => Ok(
                                        EncodedChunkModel::Aggregate {
                                            count,
                                            sum,
                                            min,
                                            max,
                                            counter,
                                        },
                                    ),
                                },
                            }
                        },
                    }
                },
            }
        },
    }
}

/// The chunk in a record.
pub open spec fn encoded_chunk(record: Seq<u8>) -> Result<EncodedChunkModel, ChunkError> {
    match record_content(record) {
        Err(error) => Err(error),
        Ok((byte, payload)) => if byte == ENCODING_AGGR {
            aggregate_slots(payload)
        } else if encoding_of(byte) is None {
            Err(ChunkError::UnsupportedEncoding(byte))
        } else {
            Ok(EncodedChunkModel::Plain(EncodedModel { encoding: byte, data: payload }))
        },
    }
}

fn skip_bytes(bytes: &[u8], size: usize) -> (rest: &[u8])
    requires
        size <= bytes.len(),
    ensures
        rest@ == bytes@.skip(size as int),
{
    let rest: &[u8] = &bytes[size..bytes.len()];
    assert(rest@ =~= bytes@.skip(size as int));
    rest
}

fn read_slots(payload: &[u8]) -> (result: Result<EncodedChunk, ChunkError>)
    ensures
        match result {
            Ok(chunk) => aggregate_slots(payload@) == Ok::<EncodedChunkModel, ChunkError>(chunk@),
            Err(error) => aggregate_slots(payload@) == Err::<EncodedChunkModel, ChunkError>(error),
        },
{
    let (count, size) = read_slot(payload)?;
    let rest = skip_bytes(payload, size);
    let (sum, size) = read_slot(rest)?;
    let rest = skip_bytes(rest, size);
    let (min, size) = read_slot(rest)?;
    let rest = skip_bytes(rest, size);
    let (max, size) = read_slot(rest)?;
    let rest = skip_bytes(rest, size);
    let (counter, _) = read_slot(rest)?;
    Ok(EncodedChunk::Aggregate { count, sum, min, max, counter })
}

/// Takes a chunk out of its record.
pub fn decode_encoded_chunk(record: &[u8]) -> (result: Result<EncodedChunk, ChunkError>)
    ensures
        match result {
            Ok(chunk) => encoded_chunk(record@) == Ok::<EncodedChunkModel, ChunkError>(chunk@),
            Err(error) => encoded_chunk(record@) == Err::<EncodedChunkModel, ChunkError>(error),
        },
{
    let (byte, payload) = open_record(record)?;
    if byte == ENCODING_AGGR {
        return read_slots(payload);
    }
    if read_encoding(byte).is_none() {
        return Err(ChunkError::UnsupportedEncoding(byte));
    }
    let data: Vec<u8> = vstd::slice::slice_to_vec(payload);
    Ok(EncodedChunk::Plain(EncodedData { encoding: byte, data }))
}

/// The number of one bits before the next zero bit, counted on from `ones` up to four, and the
/// position behind them. Four one bits have no zero bit behind them.
pub open spec fn time_ones_at(bytes: Seq<u8>, position: int, ones: int) -> Result<
    (int, int),
    ChunkError,
>
    decreases 4 - ones,
{
    if ones >= 4 {
        Ok((ones, position))
    } else {
        match bits_at(bytes, position, 1) {
            Err(error) => Err(error),
            Ok((bit, next)) => if bit == 0 {
                Ok((ones, next))
            } else {
                time_ones_at(bytes, next, ones + 1)
            },
        }
    }
}

/// The size in bits of a change between time steps whose prefix has that many one bits.
pub open spec fn time_size(ones: int) -> int {
    if ones == 0 {
        0
    } else if ones == 1 {
        14
    } else if ones == 2 {
        17
    } else if ones == 3 {
        20
    } else {
        64
    }
}

/// The change between two time steps at a position, and the position behind it.
pub open spec fn time_change_at(bytes: Seq<u8>, position: int) -> Result<(int, int), ChunkError> {
    match time_ones_at(bytes, position, 0) {
        Err(error) => Err(error),
        Ok((ones, next)) => match bits_at(bytes, next, time_size(ones)) {
            Err(error) => Err(error),
            Ok((pattern, end)) => Ok((signed(pattern, time_size(ones)), end)),
        },
    }
}

/// A number fits into 64 bits with a sign.
pub open spec fn fits_i64(value: int) -> bool {
    i64::MIN <= value <= i64::MAX
}

/// Whether the samples of an XOR chunk from a position on keep within the ranges of their
/// numbers: no window is wider than 64 bits, and no time or time step leaves 64 bits. Bits that
/// end too early do no harm.
pub open spec fn xor_rest_in_range(
    bytes: Seq<u8>,
    position: int,
    remaining: int,
    timestamp: int,
    step: int,
    value: XorValue,
) -> bool
    decreases remaining,
{
    if remaining <= 0 {
        true
    } else {
        match time_change_at(bytes, position) {
            Err(_) => true,
            Ok((change, next)) => match xor_at(bytes, next, value) {
                Err(error) => error != ChunkError::InvalidXorWindow,
                Ok((next_value, end)) => {
                    &&& fits_i64(step + change)
                    &&& fits_i64(timestamp + step + change)
                    &&& xor_rest_in_range(
                        bytes,
                        end,
                        remaining - 1,
                        timestamp + step + change,
                        step + change,
                        next_value,
                    )
                },
            },
        }
    }
}

/// Whether the samples of an XOR chunk keep within the ranges of their numbers. The chunk is the
/// number of samples, the time and the value of the first one, the step to the second one and
/// its value, and a bit stream with the others.
pub open spec fn xor_in_range(payload: Seq<u8>) -> bool {
    if payload.len() < 2 {
        true
    } else {
        match varint_at(payload, 2) {
            Err(_) => true,
            Ok((timestamp, timestamp_size)) => {
                let second = 2 + timestamp_size + 8;
                let count = payload[0] * 256 + payload[1];
                if second > payload.len() || count < 2 {
                    true
                } else {
                    match uvarint_at(payload, second) {
                        Err(_) => true,
                        Ok((step, step_size)) => {
                            let bytes = payload.skip(second + step_size);
                            match xor_at(bytes, 0, XorValue::first(0)) {
                                Err(error) => error != ChunkError::InvalidXorWindow,
                                Ok((value, position)) => step <= i64::MAX ==> {
                                    &&& fits_i64(timestamp + step)
                                    &&& xor_rest_in_range(
                                        bytes,
                                        position,
                                        count - 2,
                                        timestamp + step,
                                        step,
                                        value,
                                    )
                                },
                            }
                        },
                    }
                }
            },
        }
    }
}

fn read_time_change(reader: &mut BitReader<'_>) -> (result: Result<i64, ChunkError>)
    requires
        old(reader).valid(),
    ensures
        final(reader).valid(),
        final(reader).stream() == old(reader).stream(),
        match result {
            Ok(change) => time_change_at(old(reader).stream(), old(reader).position()) == Ok::<
                (int, int),
                ChunkError,
            >((change as int, final(reader).position())),
            Err(error) => time_change_at(old(reader).stream(), old(reader).position()) == Err::<
                (int, int),
                ChunkError,
            >(error),
        },
{
    let mut ones: u8 = 0;
    while ones < 4
        invariant_except_break
            time_ones_at(old(reader).stream(), old(reader).position(), 0) == time_ones_at(
                reader.stream(),
                reader.position(),
                ones as int,
            ),
        invariant
            reader.valid(),
            reader.stream() == old(reader).stream(),
            ones <= 4,
        ensures
            time_ones_at(old(reader).stream(), old(reader).position(), 0) == Ok::<
                (int, int),
                ChunkError,
            >((ones as int, reader.position())),
        decreases 4 - ones,
    {
        let bit: u64 = reader.read_bits(1)?;
        if bit == 0 {
            break;
        }
        ones = ones + 1;
    }
    let size: u8 = if ones == 0 {
        0
    } else if ones == 1 {
        14
    } else if ones == 2 {
        17
    } else if ones == 3 {
        20
    } else {
        64
    };
    assert(size == time_size(ones as int));
    let ghost start = reader.position();
    let pattern: u64 = reader.read_bits(size)?;
    proof {
        lemma_bits_value_bound(reader.stream(), start, size as int);
    }
    Ok(from_pattern(pattern, size))
}

fn rest_is_in_range(
    reader: &mut BitReader<'_>,
    count: u16,
    first_timestamp: i64,
    first_step: i64,
    first_value: XorValue,
) -> (safe: bool)
    requires
        old(reader).valid(),
        first_value.valid(),
    ensures
        safe == xor_rest_in_range(
            old(reader).stream(),
            old(reader).position(),
            count as int,
            first_timestamp as int,
            first_step as int,
            first_value,
        ),
{
    let mut remaining: u16 = count;
    let mut timestamp: i64 = first_timestamp;
    let mut step: i64 = first_step;
    let mut value = first_value;
    while remaining > 0
        invariant
            reader.valid(),
            reader.stream() == old(reader).stream(),
            value.valid(),
            xor_rest_in_range(
                old(reader).stream(),
                old(reader).position(),
                count as int,
                first_timestamp as int,
                first_step as int,
                first_value,
            ) == xor_rest_in_range(
                reader.stream(),
                reader.position(),
                remaining as int,
                timestamp as int,
                step as int,
                value,
            ),
        decreases remaining,
    {
        let change: i64 = match read_time_change(reader) {
            Ok(change) => change,
            Err(_) => {
                return true;
            },
        };
        match read_xor(reader, value) {
            Ok(next) => {
                value = next;
            },
            Err(error) => {
                return error != ChunkError::InvalidXorWindow;
            },
        }
        match step.checked_add(change) {
            Some(next) => {
                step = next;
            },
            None => {
                return false;
            },
        }
        match timestamp.checked_add(step) {
            Some(next) => {
                timestamp = next;
            },
            None => {
                return false;
            },
        }
        remaining = remaining - 1;
    }
    true
}

/// Tells whether the samples of an XOR chunk keep within the ranges of their numbers.
fn is_in_range(payload: &[u8]) -> (safe: bool)
    ensures
        safe == xor_in_range(payload@),
{
    if payload.len() < 2 {
        return true;
    }
    let count: u16 = payload[0] as u16 * 256 + payload[1] as u16;
    let (timestamp, timestamp_size) = match read_varint(payload, 2) {
        Ok(pair) => pair,
        Err(_) => {
            return true;
        },
    };
    let first: usize = 2 + timestamp_size;
    if payload.len() - first < 8 || count < 2 {
        return true;
    }
    let second: usize = first + 8;
    let (step, step_size) = match read_uvarint(payload, second) {
        Ok(pair) => pair,
        Err(_) => {
            return true;
        },
    };
    let mut reader = BitReader::new(skip_bytes(payload, second + step_size));
    let value = match read_xor(&mut reader, XorValue { value: 0, leading: 0, trailing: 0 }) {
        Ok(value) => value,
        Err(error) => {
            return error != ChunkError::InvalidXorWindow;
        },
    };
    if step > i64::MAX as u64 {
        return true;
    }
    match timestamp.checked_add(step as i64) {
        Some(next) => rest_is_in_range(&mut reader, count - 2, next, step as i64, value),
        None => false,
    }
}

/// What `rusty_chunkenc::xor::read_xor_chunk_data` reads: the times and the bit patterns of the
/// values, or nothing where it rejects the payload.
pub uninterp spec fn xor_points(payload: Seq<u8>) -> Option<Seq<(i64, u64)>>;

/// Calls `rusty_chunkenc::xor::read_xor_chunk_data`, which reads the samples of an XOR chunk or
/// rejects it. What it reads is a function of the payload alone, and goes by the name
/// [`xor_points`]; each value is handed out as its bit pattern. The arithmetic of that function
/// overflows on payloads whose numbers leave their ranges, so these are left out.
#[verifier::external_body]
fn read_xor_points(payload: &[u8]) -> (points: Option<Vec<(i64, u64)>>)
    requires
        xor_in_range(payload@),
    ensures
        match points {
            Some(points) => xor_points(payload@) == Some(points@),
            None => xor_points(payload@) == None::<Seq<(i64, u64)>>,
        },
{
    match rusty_chunkenc::xor::read_xor_chunk_data(payload) {
        Ok((_, chunk)) => Some(
            chunk.samples().iter().map(|s| (s.timestamp, s.value.to_bits())).collect(),
        ),
        Err(_) => None,
    }
}

/// An aggregate of a downsampled chunk that can be asked for.
#[derive(Clone, Copy, Debug, PartialEq, Eq, Structural)]
pub enum AggregateSelection {
    Count,
    Sum,
    Counter,
}

/// What a sample stands for: a raw observation, or an aggregate of a window.
#[derive(Clone, Copy, Debug, PartialEq, Eq, Structural)]
pub enum AggregateKind {
    Raw,
    Count,
    Sum,
    Counter,
}

impl AggregateKind {
    /// The name of an aggregate.
    pub open spec fn name(&self) -> Seq<char> {
        match self {
            AggregateKind::Raw => "raw"@,
            AggregateKind::Count => "count"@,
            AggregateKind::Sum => "sum"@,
            AggregateKind::Counter => "counter"@,
        }
    }

    /// The name of an aggregate.
    pub fn as_str(&self) -> (name: &'static str)
        ensures
            name@ == self.name(),
    {
        match self {
            AggregateKind::Raw => "raw",
            AggregateKind::Count => "count",
            AggregateKind::Sum => "sum",
            AggregateKind::Counter => "counter",
        }
    }
}

/// One sample of a series: a float, as its bit pattern, or a histogram.
pub struct Sample {
    pub timestamp: i64,
    pub value: u64,
    pub histogram: Option<HistogramSample>,
    pub aggregate: AggregateKind,
}

/// What a sample holds.
pub struct SampleModel {
    pub timestamp: i64,
    pub value: u64,
    pub histogram: Option<HistogramModel>,
    pub aggregate: AggregateKind,
}

impl View for Sample {
    type V = SampleModel;

    open spec fn view(&self) -> SampleModel {
        SampleModel {
            timestamp: self.timestamp,
            value: self.value,
            histogram: match self.histogram {
                Some(histogram) => Some(histogram@),
                None => None,
            },
            aggregate: self.aggregate,
        }
    }
}

/// What the samples of a vector hold.
pub open spec fn sample_models(samples: Seq<Sample>) -> Seq<SampleModel> {
    samples.map_values(|sample: Sample| sample@)
}

/// The samples that times with the bit patterns of their values stand for.
pub open spec fn point_samples(points: Seq<(i64, u64)>, aggregate: AggregateKind) -> Seq<
    SampleModel,
> {
    points.map_values(
        |point: (i64, u64)|
            SampleModel { timestamp: point.0, value: point.1, histogram: None, aggregate },
    )
}

/// The samples that histograms stand for.
pub open spec fn histogram_points(
    histograms: Seq<HistogramModel>,
    aggregate: AggregateKind,
) -> Seq<SampleModel> {
    histograms.map_values(
        |histogram: HistogramModel|
            SampleModel {
                timestamp: histogram.timestamp,
                value: 0,
                histogram: Some(histogram),
                aggregate,
            },
    )
}

/// The samples of an XOR chunk.
pub open spec fn xor_samples(payload: Seq<u8>, aggregate: AggregateKind) -> Result<
    Seq<SampleModel>,
    ChunkError,
> {
    if !xor_in_range(payload) {
        Err(ChunkError::InvalidXorPayload)
    } else {
        match xor_points(payload) {
            Some(points) => Ok(point_samples(points, aggregate)),
            None => Err(ChunkError::InvalidXorPayload),
        }
    }
}

/// The samples of encoded data.
pub open spec fn data_samples(encoding: Encoding, data: Seq<u8>, aggregate: AggregateKind) -> Result<
    Seq<SampleModel>,
    ChunkError,
> {
    match encoding {
        Encoding::Xor => xor_samples(data, aggregate),
        Encoding::Histogram => match histogram_samples(data) {
            Ok(histograms) => Ok(histogram_points(histograms, aggregate)),
            Err(error) => Err(error),
        },
        Encoding::FloatHistogram => match float_histogram_samples(data) {
            Ok(histograms) => Ok(histogram_points(histograms, aggregate)),
            Err(error) => Err(error),
        },
    }
}

/// The aggregate that is read from a downsampled chunk: the one that was asked for, otherwise
/// the counter.
pub open spec fn selected_kind(selection: Option<AggregateSelection>) -> AggregateKind {
    match selection {
        Some(AggregateSelection::Count) => AggregateKind::Count,
        Some(AggregateSelection::Sum) => AggregateKind::Sum,
        Some(AggregateSelection::Counter) => AggregateKind::Counter,
        None => AggregateKind::Counter,
    }
}

/// The samples of one slot of a downsampled chunk. Without a selection only counters and native
/// histograms are read. A slot that is not there has no samples.
pub open spec fn slot_samples(
    slot: Option<EncodedModel>,
    counter_metric: bool,
    selection: Option<AggregateSelection>,
) -> Result<Seq<SampleModel>, ChunkError> {
    let histogram = slot matches Some(data) && (data.encoding == ENCODING_HISTOGRAM || data.encoding
        == ENCODING_FLOAT_HISTOGRAM);
    if selection is None && !counter_metric && !histogram {
        Err(ChunkError::AggregateOfNonCounter)
    } else {
        match slot {
            None => Ok(Seq::empty()),
            Some(data) => match encoding_of(data.encoding) {
                None => Err(ChunkError::UnsupportedAggregateEncoding(data.encoding)),
                Some(encoding) => data_samples(encoding, data.data, selected_kind(selection)),
            },
        }
    }
}

/// The samples of a chunk without its frame.
pub open spec fn chunk_samples(
    chunk: EncodedChunkModel,
    counter_metric: bool,
    selection: Option<AggregateSelection>,
) -> Result<Seq<SampleModel>, ChunkError> {
    match chunk {
        EncodedChunkModel::Plain(data) => match encoding_of(data.encoding) {
            None => Err(ChunkError::UnsupportedEncoding(data.encoding)),
            Some(encoding) => data_samples(encoding, data.data, AggregateKind::Raw),
        },
        EncodedChunkModel::Aggregate { count, sum, min, max, counter } => slot_samples(
            match selected_kind(selection) {
                AggregateKind::Count => count,
                AggregateKind::Sum => sum,
                _ => counter,
            },
            counter_metric,
            selection,
        ),
    }
}

/// The samples of a record.
pub open spec fn record_samples(
    record: Seq<u8>,
    counter_metric: bool,
    selection: Option<AggregateSelection>,
) -> Result<Seq<SampleModel>, ChunkError> {
    match encoded_chunk(record) {
        Err(error) => Err(error),
        Ok(chunk) => chunk_samples(chunk, counter_metric, selection),
    }
}

/// Turns times with the bit patterns of their values into samples.
pub fn samples_from_xor(points: &Vec<(i64, u64)>, aggregate: AggregateKind) -> (samples: Vec<
    Sample,
>)
    ensures
        sample_models(samples@) == point_samples(points@, aggregate),
{
    let mut samples: Vec<Sample> = Vec::new();
    let mut index: usize = 0;
    while index < points.len()
        invariant
            index <= points.len(),
            sample_models(samples@) =~= point_samples(points@.take(index as int), aggregate),
        decreases points.len() - index,
    {
        let (timestamp, value) = points[index];
        let ghost before = samples@;
        samples.push(Sample { timestamp, value, histogram: None, aggregate });
        assert(sample_models(samples@) =~= sample_models(before).push(samples@.last()@));
        assert(points@.take(index + 1) =~= points@.take(index as int).push(points@[index as int]));
        index = index + 1;
    }
    assert(points@.take(index as int) =~= points@);
    samples
}

/// Turns histograms into samples.
fn samples_from_histograms(histograms: Vec<HistogramSample>, aggregate: AggregateKind) -> (samples:
    Vec<Sample>)
    ensures
        sample_models(samples@) == histogram_points(histogram_models(histograms@), aggregate),
{
    let mut left = histograms;
    let mut reversed: Vec<Sample> = Vec::new();
    let ghost all = histogram_points(histogram_models(histograms@), aggregate);
    while left.len() > 0
        invariant
            all == histogram_points(histogram_models(histograms@), aggregate),
            left@ == histograms@.take(left@.len() as int),
            left.len() + reversed.len() == histograms@.len(),
            forall|i: int|
                0 <= i < reversed.len() ==> (#[trigger] reversed@[i])@ == all[all.len() - 1 - i],
        decreases left.len(),
    {
        if let Some(histogram) = left.pop() {
            assert(left@ =~= histograms@.take(left@.len() as int));
            reversed.push(
                Sample {
                    timestamp: histogram.timestamp,
                    value: 0,
                    histogram: Some(histogram),
                    aggregate,
                },
            );
        }
    }
    let mut samples: Vec<Sample> = Vec::new();
    while reversed.len() > 0
        invariant
            all == histogram_points(histogram_models(histograms@), aggregate),
            samples.len() + reversed.len() == all.len(),
            forall|i: int|
                0 <= i < reversed.len() ==> (#[trigger] reversed@[i])@ == all[all.len() - 1 - i],
            forall|i: int| 0 <= i < samples.len() ==> (#[trigger] samples@[i])@ == all[i],
        decreases reversed.len(),
    {
        if let Some(sample) = reversed.pop() {
            samples.push(sample);
        }
    }
    assert(sample_models(samples@) =~= all);
    samples
}

fn decode_data(encoding: Encoding, data: &Vec<u8>, aggregate: AggregateKind) -> (result: Result<
    Vec<Sample>,
    ChunkError,
>)
    ensures
        match result {
            Ok(samples) => data_samples(encoding, data@, aggregate) == Ok::<
                Seq<SampleModel>,
                ChunkError,
            >(sample_models(samples@)),
            Err(error) => data_samples(encoding, data@, aggregate) == Err::<
                Seq<SampleModel>,
                ChunkError,
            >(error),
        },
{
    match encoding {
        Encoding::Xor => {
            if !is_in_range(data.as_slice()) {
                return Err(ChunkError::InvalidXorPayload);
            }
            match read_xor_points(data.as_slice()) {
                Some(points) => Ok(samples_from_xor(&points, aggregate)),
                None => Err(ChunkError::InvalidXorPayload),
            }
        },
        Encoding::Histogram => {
            let histograms = decode_histogram(data.as_slice())?;
            Ok(samples_from_histograms(histograms, aggregate))
        },
        Encoding::FloatHistogram => {
            let histograms = decode_float_histogram(data.as_slice())?;
            Ok(samples_from_histograms(histograms, aggregate))
        },
    }
}

fn decode_slot(
    slot: &Option<EncodedData>,
    counter_metric: bool,
    selection: Option<AggregateSelection>,
) -> (result: Result<Vec<Sample>, ChunkError>)
    ensures
        match result {
            Ok(samples) => slot_samples(encoded_view(*slot), counter_metric, selection) == Ok::<
                Seq<SampleModel>,
                ChunkError,
            >(sample_models(samples@)),
            Err(error) => slot_samples(encoded_view(*slot), counter_metric, selection) == Err::<
                Seq<SampleModel>,
                ChunkError,
            >(error),
        },
{
    let histogram: bool = match slot {
        Some(data) => data.encoding == ENCODING_HISTOGRAM || data.encoding
            == ENCODING_FLOAT_HISTOGRAM,
        None => false,
    };
    if selection.is_none() && !counter_metric && !histogram {
        return Err(ChunkError::AggregateOfNonCounter);
    }
    let kind = match selection {
        Some(AggregateSelection::Count) => AggregateKind::Count,
        Some(AggregateSelection::Sum) => AggregateKind::Sum,
        _ => AggregateKind::Counter,
    };
    match slot {
        None => {
            let samples: Vec<Sample> = Vec::new();
            assert(sample_models(samples@) =~= Seq::<SampleModel>::empty());
            Ok(samples)
        },
        Some(data) => match read_encoding(data.encoding) {
            None => Err(ChunkError::UnsupportedAggregateEncoding(data.encoding)),
            Some(encoding) => decode_data(encoding, &data.data, kind),
        },
    }
}

/// Decodes the samples of a chunk without its frame.
pub fn decode_chunk(
    chunk: &EncodedChunk,
    counter_metric: bool,
    selection: Option<AggregateSelection>,
) -> (result: Result<Vec<Sample>, ChunkError>)
    ensures
        match result {
            Ok(samples) => chunk_samples(chunk@, counter_metric, selection) == Ok::<
                Seq<SampleModel>,
                ChunkError,
            >(sample_models(samples@)),
            Err(error) => chunk_samples(chunk@, counter_metric, selection) == Err::<
                Seq<SampleModel>,
                ChunkError,
            >(error),
        },
{
    match chunk {
        EncodedChunk::Plain(data) => match read_encoding(data.encoding) {
            None => Err(ChunkError::UnsupportedEncoding(data.encoding)),
            Some(encoding) => decode_data(encoding, &data.data, AggregateKind::Raw),
        },
        EncodedChunk::Aggregate { count, sum, min: _, max: _, counter } => match selection {
            Some(AggregateSelection::Count) => decode_slot(count, counter_metric, selection),
            Some(AggregateSelection::Sum) => decode_slot(sum, counter_metric, selection),
            _ => decode_slot(counter, counter_metric, selection),
        },
    }
}

/// Decodes the samples of a record, for a query that asks for one aggregate or for none.
pub fn decode_selected(
    record: &[u8],
    counter_metric: bool,
    selection: Option<AggregateSelection>,
) -> (result: Result<Vec<Sample>, ChunkError>)
    ensures
        match result {
            Ok(samples) => record_samples(record@, counter_metric, selection) == Ok::<
                Seq<SampleModel>,
                ChunkError,
            >(sample_models(samples@)),
            Err(error) => record_samples(record@, counter_metric, selection) == Err::<
                Seq<SampleModel>,
                ChunkError,
            >(error),
        },
{
    let chunk = decode_encoded_chunk(record)?;
    decode_chunk(&chunk, counter_metric, selection)
}

/// Decodes the samples of a record: the raw samples, or the counter of a downsampled chunk.
pub fn decode_record(record: &[u8], counter_metric: bool) -> (result: Result<
    Vec<Sample>,
    ChunkError,
>)
    ensures
        match result {
            Ok(samples) => record_samples(record@, counter_metric, None) == Ok::<
                Seq<SampleModel>,
                ChunkError,
            >(sample_models(samples@)),
            Err(error) => record_samples(record@, counter_metric, None) == Err::<
                Seq<SampleModel>,
                ChunkError,
            >(error),
        },
{
    decode_selected(record, counter_metric, None)
}

proof fn lemma_length_digits_local(a: Seq<u8>, b: Seq<u8>, index: int)
    requires
        0 <= index <= MAX_UVARINT_SIZE,
        a.len() >= MAX_UVARINT_SIZE,
        b.len() >= MAX_UVARINT_SIZE,
        forall|i: int| 0 <= i < MAX_UVARINT_SIZE ==> a[i] == b[i],
    ensures
        length_digits(a, index) == length_digits(b, index),
        length_digits(a, index) matches Ok((value, size)) ==> value >= 0 && index < size
            <= MAX_UVARINT_SIZE,
    decreases MAX_UVARINT_SIZE - index,
{
    if index < MAX_UVARINT_SIZE {
        lemma_length_digits_local(a, b, index + 1);
    }
}

/// The bytes at the start of a record are enough to find its end: the range that they give is
/// the range that the whole record takes.
pub proof fn law_prefix_finds_record(offset: int, record: Seq<u8>)
    requires
        record_content(record) is Ok,
        offset + record.len() <= u64::MAX,
    ensures
        record.len() >= MAX_UVARINT_SIZE + 1,
        record_bounds(offset, record.take(MAX_UVARINT_SIZE + 1)) == Ok::<(int, int), ChunkError>(
            (offset, offset + record.len()),
        ),
{
    lemma_length_size(record, 0);
    lemma_length_digits_local(record, record.take(MAX_UVARINT_SIZE + 1), 0);
}

proof fn lemma_length_size(bytes: Seq<u8>, index: int)
    requires
        0 <= index,
    ensures
        length_digits(bytes, index) matches Ok((value, size)) ==> value >= 0 && index < size
            <= MAX_UVARINT_SIZE && size <= bytes.len(),
    decreases MAX_UVARINT_SIZE - index,
{
    if index < MAX_UVARINT_SIZE {
        lemma_length_size(bytes, index + 1);
    }
}

/// A record is accepted with one checksum only: two records that differ at most in their last
/// four bytes and that are both accepted are the same.
pub proof fn law_checksum_is_unique(a: Seq<u8>, b: Seq<u8>)
    requires
        record_content(a) is Ok,
        record_content(b) is Ok,
        a.len() == b.len(),
        forall|i: int| 0 <= i < a.len() - CRC_SIZE ==> a[i] == b[i],
    ensures
        a == b,
{
    lemma_length_size(a, 0);
    lemma_length_size(b, 0);
    lemma_length_prefix(a, b, 0);
    let (length, size) = length_at(a)->Ok_0;
    let end = size + 1 + length;
    assert(a.subrange(size, end) =~= b.subrange(size, end));
    lemma_same_digits(
        a[end],
        a[end + 1],
        a[end + 2],
        a[end + 3],
        b[end],
        b[end + 1],
        b[end + 2],
        b[end + 3],
    );
    assert forall|i: int| 0 <= i < a.len() implies a[i] == b[i] by {
        assert(i < end || i == end || i == end + 1 || i == end + 2 || i == end + 3);
    }
    assert(a =~= b);
}

/// Four bytes are told by the number that they stand for.
proof fn lemma_same_digits(a: u8, b: u8, c: u8, d: u8, e: u8, f: u8, g: u8, h: u8)
    requires
        a * 0x100_0000 + b * 0x1_0000 + c * 0x100 + d == e * 0x100_0000 + f * 0x1_0000 + g * 0x100
            + h,
    ensures
        a == e && b == f && c == g && d == h,
{
}

proof fn lemma_length_prefix(a: Seq<u8>, b: Seq<u8>, index: int)
    requires
        0 <= index,
        length_digits(a, index) is Ok,
        length_digits(a, index)->Ok_0.1 <= a.len() - CRC_SIZE,
        a.len() == b.len(),
        forall|i: int| 0 <= i < a.len() - CRC_SIZE ==> a[i] == b[i],
    ensures
        length_digits(a, index) == length_digits(b, index),
    decreases MAX_UVARINT_SIZE - index,
{
    lemma_length_size(a, index);
    if index < MAX_UVARINT_SIZE && a[index] >= 128 {
        lemma_length_prefix(a, b, index + 1);
    }
}

proof fn lemma_written_length_digits(bytes: Seq<u8>, index: int, value: int, limit: int)
    requires
        0 <= index < MAX_UVARINT_SIZE,
        0 <= value < limit,
        index == 0 ==> limit == 0x8_0000_0000,
        index == 1 ==> limit == 0x1000_0000,
        index == 2 ==> limit == 0x20_0000,
        index == 3 ==> limit == 0x4000,
        index == 4 ==> limit == 128,
        holds_bytes(bytes, index, uvarint_bytes(value)),
    ensures
        length_digits(bytes, index) == Ok::<(int, int), ChunkError>(
            (value, index + uvarint_bytes(value).len()),
        ),
    decreases MAX_UVARINT_SIZE - index,
{
    let written = uvarint_bytes(value);
    assert(written[0] == bytes[index + 0]);
    if value >= 128 {
        let first = seq![(value % 128 + 128) as u8];
        lemma_parts(bytes, index, first, uvarint_bytes(value / 128));
        lemma_written_length_digits(bytes, index + 1, value / 128, limit / 128);
    }
}

/// Reading undoes writing: where the bytes of a length of at most 35 bits stand, the length is read,
/// with the number of its bytes.
pub proof fn law_written_lengths_are_read(bytes: Seq<u8>, length: int)
    requires
        0 <= length < 0x8_0000_0000,
        holds_bytes(bytes, 0, uvarint_bytes(length)),
    ensures
        length_at(bytes) == Ok::<(int, int), ChunkError>(
            (length, uvarint_bytes(length).len() as int),
        ),
{
    lemma_written_length_digits(bytes, 0, length, 0x8_0000_0000);
}

/// The bytes that a record is written with: the length of the payload, the encoding, the payload,
/// and the checksum of encoding and payload.
pub open spec fn record_bytes(encoding: u8, payload: Seq<u8>) -> Seq<u8> {
    uvarint_bytes(payload.len() as int) + (seq![encoding] + (payload + be_bytes(
        crc32c(seq![encoding] + payload) as int,
        4,
    )))
}

/// Reading undoes writing: a record gives its encoding and its payload back.
#[verifier::spinoff_prover]
#[verifier::rlimit(60)]
pub proof fn law_written_records_are_read(encoding: u8, payload: Seq<u8>)
    requires
        payload.len() < 0x8_0000_0000,
    ensures
        record_content(record_bytes(encoding, payload)) == Ok::<(u8, Seq<u8>), ChunkError>(
            (encoding, payload),
        ),
{
    let record = record_bytes(encoding, payload);
    let length = uvarint_bytes(payload.len() as int);
    let content = seq![encoding] + payload;
    let checksum = be_bytes(crc32c(content) as int, 4);
    let size = length.len() as int;
    let end = size + 1 + payload.len();
    assert(holds_bytes(record, 0, record));
    lemma_parts(record, 0, length, seq![encoding] + (payload + checksum));
    law_written_lengths_are_read(record, payload.len() as int);
    lemma_checksum_bytes(crc32c(content) as int);
    assert(record.len() == end + 4);
    assert(record[size] == encoding);
    assert(record.subrange(size, end) =~= content);
    assert(record.subrange(size + 1, end) =~= payload);
    assert(record[end] == checksum[0] && record[end + 1] == checksum[1] && record[end + 2]
        == checksum[2] && record[end + 3] == checksum[3]);
}

proof fn lemma_checksum_bytes(value: int)
    requires
        0 <= value <= u32::MAX,
    ensures
        ({
            let bytes = be_bytes(value, 4);
            &&& bytes.len() == 4
            &&& bytes[0] * 0x100_0000 + bytes[1] * 0x1_0000 + bytes[2] * 0x100 + bytes[3] == value
        }),
{
    let a = value / 256;
    let b = a / 256;
    let c = b / 256;
    assert(be_bytes(c / 256, 0) == Seq::<u8>::empty());
    assert(be_bytes(c, 1) == be_bytes(c / 256, 0).push((c % 256) as u8));
    assert(be_bytes(b, 2) == be_bytes(c, 1).push((b % 256) as u8));
    assert(be_bytes(a, 3) == be_bytes(b, 2).push((a % 256) as u8));
    assert(be_bytes(value, 4) == be_bytes(a, 3).push((value % 256) as u8));
}

/// The bytes that a slot of a downsampled chunk is written with: a zero for one that is not there,
/// otherwise the length of the data, the encoding and the data.
pub open spec fn slot_bytes(slot: Option<EncodedModel>) -> Seq<u8> {
    match slot {
        None => seq![0u8],
        Some(data) => uvarint_bytes(data.data.len() as int) + (seq![data.encoding] + data.data),
    }
}

/// A slot can be written: it is not there, or its data has at least one byte and at most so many as
/// 35 bits can say.
pub open spec fn slot_can_be_written(slot: Option<EncodedModel>) -> bool {
    slot matches Some(data) ==> 0 < data.data.len() < 0x8_0000_0000
}

proof fn lemma_written_slot(bytes: Seq<u8>, slot: Option<EncodedModel>, more: Seq<u8>)
    requires
        slot_can_be_written(slot),
        bytes == slot_bytes(slot) + more,
    ensures
        slot_at(bytes) == Ok::<(Option<EncodedModel>, int), ChunkError>(
            (slot, slot_bytes(slot).len() as int),
        ),
        bytes.skip(slot_bytes(slot).len() as int) == more,
{
    assert(bytes.skip(slot_bytes(slot).len() as int) =~= more);
    match slot {
        None => {
            assert(bytes[0] == 0);
        },
        Some(data) => {
            let length = uvarint_bytes(data.data.len() as int);
            let size = length.len() as int;
            assert(holds_bytes(bytes, 0, length)) by {
                assert forall|i: int| 0 <= i < length.len() implies #[trigger] length[i] == bytes[0
                    + i] by {
                }
            }
            law_written_lengths_are_read(bytes, data.data.len() as int);
            assert(bytes[size] == data.encoding);
            assert(bytes.subrange(size + 1, size + 1 + data.data.len()) =~= data.data);
        },
    }
}

/// Reading undoes writing: a downsampled chunk gives its slots back, which stand in the order count,
/// sum, minimum, maximum and counter.
#[verifier::spinoff_prover]
#[verifier::rlimit(60)]
pub proof fn law_written_slots_are_read(
    count: Option<EncodedModel>,
    sum: Option<EncodedModel>,
    min: Option<EncodedModel>,
    max: Option<EncodedModel>,
    counter: Option<EncodedModel>,
)
    requires
        slot_can_be_written(count),
        slot_can_be_written(sum),
        slot_can_be_written(min),
        slot_can_be_written(max),
        slot_can_be_written(counter),
    ensures
        aggregate_slots(
            slot_bytes(count) + (slot_bytes(sum) + (slot_bytes(min) + (slot_bytes(max)
                + slot_bytes(counter)))),
        ) == Ok::<EncodedChunkModel, ChunkError>(
            EncodedChunkModel::Aggregate { count, sum, min, max, counter },
        ),
{
    let last = slot_bytes(counter);
    let fourth = slot_bytes(max) + last;
    let third = slot_bytes(min) + fourth;
    let second = slot_bytes(sum) + third;
    lemma_written_slot(slot_bytes(count) + second, count, second);
    lemma_written_slot(second, sum, third);
    lemma_written_slot(third, min, fourth);
    lemma_written_slot(fourth, max, last);
    assert(last =~= last + Seq::<u8>::empty());
    lemma_written_slot(last, counter, Seq::empty());
}

/// What the encoding of a record says: a chunk of samples where it is 1 (XOR), 2 (histograms) or 3
/// (float histograms), a downsampled chunk where it is 255, and nothing otherwise.
pub proof fn law_encodings_tell_chunks_apart(record: Seq<u8>)
    requires
        record_content(record) is Ok,
    ensures
        ({
            let (encoding, payload) = record_content(record)->Ok_0;
            match encoded_chunk(record) {
                Ok(EncodedChunkModel::Plain(data)) => (encoding == 1 || encoding == 2 || encoding
                    == 3) && data.encoding == encoding && data.data == payload,
                Ok(EncodedChunkModel::Aggregate { .. }) => encoding == 255 && aggregate_slots(
                    payload,
                ) is Ok,
                Err(error) => {
                    ||| encoding == 255 && aggregate_slots(payload) is Err
                    ||| encoding != 1 && encoding != 2 && encoding != 3 && encoding != 255 && error
                        == ChunkError::UnsupportedEncoding(encoding)
                },
            }
        }),
{
}

/// Samples are those that data of an encoding holds: of XOR data the times with their values, of
/// histogram data the histograms with their times, and no values beside them.
pub open spec fn are_samples_of(
    samples: Seq<SampleModel>,
    data: EncodedModel,
    aggregate: AggregateKind,
) -> bool {
    &&& forall|i: int| 0 <= i < samples.len() ==> (#[trigger] samples[i]).aggregate == aggregate
    &&& data.encoding == 1 ==> (xor_points(data.data) matches Some(points) && points.len()
        == samples.len() && forall|i: int|
        0 <= i < samples.len() ==> (#[trigger] samples[i]).timestamp == points[i].0
            && samples[i].value == points[i].1 && samples[i].histogram is None)
    &&& data.encoding == 2 ==> (histogram_samples(data.data) matches Ok(histograms)
        && histograms.len() == samples.len() && forall|i: int|
        0 <= i < samples.len() ==> (#[trigger] samples[i]).timestamp == histograms[i].timestamp
            && samples[i].histogram == Some(histograms[i]) && samples[i].value == 0)
    &&& data.encoding == 3 ==> (float_histogram_samples(data.data) matches Ok(histograms)
        && histograms.len() == samples.len() && forall|i: int|
        0 <= i < samples.len() ==> (#[trigger] samples[i]).timestamp == histograms[i].timestamp
            && samples[i].histogram == Some(histograms[i]) && samples[i].value == 0)
    &&& 1 <= data.encoding <= 3
}

/// A chunk of samples gives its samples as raw ones. Of a downsampled chunk the slot that is asked
/// for is read, and the counter where none is; its samples are those of that aggregate.
#[verifier::spinoff_prover]
#[verifier::rlimit(60)]
pub proof fn law_samples_are_those_of_the_slot_asked_for(
    chunk: EncodedChunkModel,
    counter_metric: bool,
    selection: Option<AggregateSelection>,
)
    requires
        chunk_samples(chunk, counter_metric, selection) is Ok,
    ensures
        ({
            let samples = chunk_samples(chunk, counter_metric, selection)->Ok_0;
            match chunk {
                EncodedChunkModel::Plain(data) => are_samples_of(samples, data, AggregateKind::Raw),
                EncodedChunkModel::Aggregate { count, sum, min, max, counter } => match selection {
                    Some(AggregateSelection::Count) => match count {
                        Some(data) => are_samples_of(samples, data, AggregateKind::Count),
                        None => samples.len() == 0,
                    },
                    Some(AggregateSelection::Sum) => match sum {
                        Some(data) => are_samples_of(samples, data, AggregateKind::Sum),
                        None => samples.len() == 0,
                    },
                    _ => match counter {
                        Some(data) => are_samples_of(samples, data, AggregateKind::Counter),
                        None => samples.len() == 0,
                    },
                },
            }
        }),
{
}

/// Where no aggregate is asked for, a downsampled chunk is read for counters, and for others only
/// where its counter slot holds histograms.
#[verifier::spinoff_prover]
#[verifier::rlimit(60)]
pub proof fn law_downsampled_gauges_are_refused(
    chunk: EncodedChunkModel,
    selection: Option<AggregateSelection>,
)
    requires
        chunk is Aggregate,
    ensures
        selection is None && !(chunk->counter matches Some(data) && (data.encoding == 2
            || data.encoding == 3)) ==> chunk_samples(chunk, false, selection) == Err::<
            Seq<SampleModel>,
            ChunkError,
        >(ChunkError::AggregateOfNonCounter),
        selection is Some || (chunk->counter matches Some(data) && (data.encoding == 2
            || data.encoding == 3)) ==> chunk_samples(chunk, false, selection) == chunk_samples(
            chunk,
            true,
            selection,
        ),
        chunk_samples(chunk, true, None) == chunk_samples(
            chunk,
            true,
            Some(AggregateSelection::Counter),
        ),
{
}

/// The bits that a change between two time steps is written with: a zero bit for no change, otherwise
/// a prefix of one bits that a zero bit closes unless there are four, and the change in 14, 17, 20 or
/// 64 bits.
pub open spec fn time_change_bits(change: int, place: nat) -> Seq<int> {
    if place == 0 {
        seq![0int]
    } else if place == 1 {
        seq![1int, 0] + number_bits(change, 14)
    } else if place == 2 {
        seq![1int, 1, 0] + number_bits(change, 17)
    } else if place == 3 {
        seq![1int, 1, 1, 0] + number_bits(change, 20)
    } else {
        seq![1int, 1, 1, 1] + number_bits(change, 64)
    }
}

/// Reading undoes writing: a change between two time steps is read where it was written in a size
/// that holds it.
#[verifier::spinoff_prover]
#[verifier::rlimit(60)]
pub proof fn law_written_time_changes_are_read(
    bytes: Seq<u8>,
    position: int,
    change: int,
    place: nat,
)
    requires
        place <= 4,
        place == 0 ==> change == 0,
        place == 1 ==> fits_signed(change, 14),
        place == 2 ==> fits_signed(change, 17),
        place == 3 ==> fits_signed(change, 20),
        place == 4 ==> fits_signed(change, 64),
        holds_bits(bytes, position, time_change_bits(change, place)),
    ensures
        time_change_at(bytes, position) == Ok::<(int, int), ChunkError>(
            (change, position + time_change_bits(change, place).len()),
        ),
{
    let bits = time_change_bits(change, place);
    let size: nat = if place == 0 {
        0
    } else if place == 1 {
        14
    } else if place == 2 {
        17
    } else if place == 3 {
        20
    } else {
        64
    };
    let prefix: Seq<int> = if place == 0 {
        seq![0int]
    } else if place == 1 {
        seq![1int, 0]
    } else if place == 2 {
        seq![1int, 1, 0]
    } else if place == 3 {
        seq![1int, 1, 1, 0]
    } else {
        seq![1int, 1, 1, 1]
    };
    lemma_number_bits_length(change, size);
    assert(bits =~= prefix + number_bits(change, size));
    lemma_bit_parts(bytes, position, prefix, number_bits(change, size));
    assert forall|i: int| 0 <= i < prefix.len() implies bits_at(bytes, #[trigger] (position + i), 1)
        == Ok::<(int, int), ChunkError>((prefix[i], position + i + 1)) by {
        reveal_with_fuel(bits_value, 2);
        assert(prefix[i] == bit_at(bytes, position + i));
    }
    assert(bits_at(bytes, position + 0, 1) == Ok::<(int, int), ChunkError>(
        (prefix[0], position + 1),
    ));
    reveal_with_fuel(time_ones_at, 6);
    if place >= 1 {
        assert(bits_at(bytes, position + 1, 1) == Ok::<(int, int), ChunkError>(
            (prefix[1], position + 2),
        ));
    }
    if place >= 2 {
        assert(bits_at(bytes, position + 2, 1) == Ok::<(int, int), ChunkError>(
            (prefix[2], position + 3),
        ));
    }
    if place >= 3 {
        assert(bits_at(bytes, position + 3, 1) == Ok::<(int, int), ChunkError>(
            (prefix[3], position + 4),
        ));
    }
    law_written_bits_are_read(bytes, position + prefix.len(), change, size);
    lemma_pattern_of_signed(change, size as int);
}

/// A record is accepted only if it is as long as it says, to the byte, and its last four bytes are the
/// checksum of its encoding and its payload, which stand before them.
pub proof fn law_read_records_have_their_length_and_checksum(record: Seq<u8>)
    ensures
        record_content(record) matches Ok((encoding, payload)) ==> {
            let end = record.len() - 4;
            let start = end - payload.len() - 1;
            &&& start >= 1
            &&& length_at(record) == Ok::<(int, int), ChunkError>((payload.len() as int, start))
            &&& record[start] == encoding
            &&& record.subrange(start + 1, end) == payload
            &&& crc32c(record.subrange(start, end)) == record[end] * 0x100_0000 + record[end + 1]
                * 0x1_0000 + record[end + 2] * 0x100 + record[end + 3]
        },
{
    lemma_length_size(record, 0);
}

/// Data can be read: it has a known encoding and is sound for it.
pub open spec fn can_be_read(data: EncodedModel) -> bool {
    ||| data.encoding == 1 && xor_in_range(data.data) && xor_points(data.data) is Some
    ||| data.encoding == 2 && histogram_samples(data.data) is Ok
    ||| data.encoding == 3 && float_histogram_samples(data.data) is Ok
}

/// Samples are read from every chunk whose data can be read, and from no other. Of a downsampled chunk
/// only the slot that is asked for counts, and a slot that is not there can be read where an aggregate
/// is asked for or the metric is a counter.
pub proof fn law_sound_data_is_read(
    chunk: EncodedChunkModel,
    counter_metric: bool,
    selection: Option<AggregateSelection>,
)
    ensures
        chunk_samples(chunk, counter_metric, selection) is Ok <==> match chunk {
            EncodedChunkModel::Plain(data) => can_be_read(data),
            EncodedChunkModel::Aggregate { count, sum, min, max, counter } => {
                let slot = if selection == Some(AggregateSelection::Count) {
                    count
                } else if selection == Some(AggregateSelection::Sum) {
                    sum
                } else {
                    counter
                };
                match slot {
                    Some(data) => can_be_read(data) && (selection is Some || counter_metric
                        || data.encoding != 1),
                    None => selection is Some || counter_metric,
                }
            },
        },
{
}

} // verus!
