//! Native histogram chunks: integer and float histograms. Floating-point numbers are held as
//! their IEEE 754 bit patterns.

use vstd::prelude::*;

#[allow(unused_imports)]
use crate::bits::{bits_at, lemma_bits_value_bound, varbit_int_at, varbit_uint_at};
use crate::bits::{BitReader, ChunkError};

verus! {

pub const HISTOGRAM_HEADER_SIZE: usize = 3;

pub const CUSTOM_BUCKET_SCHEMA: i32 = -53;

/// The bit pattern of the value that marks a series as stale.
pub const STALE_NAN_BITS: u64 = 0x7ff0_0000_0000_0002;

/// A run of buckets: its distance from the run before and its length.
#[derive(Clone, Copy, Debug, PartialEq, Eq, Structural)]
pub struct Span {
    pub offset: i32,
    pub length: u32,
}

/// The upper bound of a custom bucket: a bit pattern, or a number of thousandths.
#[derive(Clone, Copy, Debug, PartialEq, Eq, Structural)]
pub enum CustomBound {
    Bits(u64),
    Thousandths(u64),
}

/// A count of observations. A float count is a bit pattern.
#[derive(Clone, Copy, Debug, PartialEq, Eq, Structural)]
pub enum HistogramCount {
    Integer(u64),
    Float(u64),
}

/// The contents of buckets. Float contents are bit patterns.
#[derive(Debug, PartialEq, Eq)]
pub enum HistogramBuckets {
    Integer(Vec<i64>),
    Float(Vec<u64>),
}

/// The contents of buckets.
pub enum BucketsModel {
    Integer(Seq<i64>),
    Float(Seq<u64>),
}

impl View for HistogramBuckets {
    type V = BucketsModel;

    open spec fn view(&self) -> BucketsModel {
        match self {
            HistogramBuckets::Integer(values) => BucketsModel::Integer(values@),
            HistogramBuckets::Float(values) => BucketsModel::Float(values@),
        }
    }
}

/// One histogram of a series.
#[derive(Debug, PartialEq, Eq)]
pub struct HistogramSample {
    pub timestamp: i64,
    pub schema: i32,
    pub count: HistogramCount,
    pub sum: u64,
    pub zero_threshold: u64,
    pub zero_count: HistogramCount,
    pub reset_hint: u8,
    pub positive_spans: Vec<Span>,
    pub negative_spans: Vec<Span>,
    pub positive_buckets: HistogramBuckets,
    pub negative_buckets: HistogramBuckets,
    pub custom_values: Vec<CustomBound>,
}

/// What a histogram holds.
pub struct HistogramModel {
    pub timestamp: i64,
    pub schema: i32,
    pub count: HistogramCount,
    pub sum: u64,
    pub zero_threshold: u64,
    pub zero_count: HistogramCount,
    pub reset_hint: u8,
    pub positive_spans: Seq<Span>,
    pub negative_spans: Seq<Span>,
    pub positive_buckets: BucketsModel,
    pub negative_buckets: BucketsModel,
    pub custom_values: Seq<CustomBound>,
}

impl View for HistogramSample {
    type V = HistogramModel;

    open spec fn view(&self) -> HistogramModel {
        HistogramModel {
            timestamp: self.timestamp,
            schema: self.schema,
            count: self.count,
            sum: self.sum,
            zero_threshold: self.zero_threshold,
            zero_count: self.zero_count,
            reset_hint: self.reset_hint,
            positive_spans: self.positive_spans@,
            negative_spans: self.negative_spans@,
            positive_buckets: self.positive_buckets@,
            negative_buckets: self.negative_buckets@,
            custom_values: self.custom_values@,
        }
    }
}

/// What the samples of a vector hold.
pub open spec fn histogram_models(samples: Seq<HistogramSample>) -> Seq<HistogramModel> {
    samples.map_values(|sample: HistogramSample| sample@)
}

/// What all histograms of a chunk have in common.
pub struct Layout {
    pub schema: i32,
    pub zero_threshold: u64,
    pub positive_spans: Vec<Span>,
    pub negative_spans: Vec<Span>,
    pub custom_values: Vec<CustomBound>,
}

/// What a layout holds.
pub struct LayoutModel {
    pub schema: i32,
    pub zero_threshold: u64,
    pub positive_spans: Seq<Span>,
    pub negative_spans: Seq<Span>,
    pub custom_values: Seq<CustomBound>,
}

impl View for Layout {
    type V = LayoutModel;

    open spec fn view(&self) -> LayoutModel {
        LayoutModel {
            schema: self.schema,
            zero_threshold: self.zero_threshold,
            positive_spans: self.positive_spans@,
            negative_spans: self.negative_spans@,
            custom_values: self.custom_values@,
        }
    }
}

/// The bit pattern of the zero threshold at a position, and the position behind it. The byte 0
/// stands for zero and the byte 255 for the pattern behind it; any other byte `b` stands for two
/// to the power of `b - 244`, whose biased exponent is `b + 779`.
pub open spec fn zero_threshold_at(bytes: Seq<u8>, position: int) -> Result<
    (int, int),
    ChunkError,
> {
    match bits_at(bytes, position, 8) {
        Err(error) => Err(error),
        Ok((byte, next)) => if byte == 0 {
            Ok((0, next))
        } else if byte == 255 {
            bits_at(bytes, next, 64)
        } else {
            Ok(((byte + 779) * 0x10_0000_0000_0000, next))
        },
    }
}

/// `count` spans from a position on, behind those in `spans`, and the position behind them.
pub open spec fn spans_from(bytes: Seq<u8>, position: int, count: int, spans: Seq<Span>) -> Result<
    (Seq<Span>, int),
    ChunkError,
>
    decreases count,
{
    if count <= 0 {
        Ok((spans, position))
    } else {
        match varbit_uint_at(bytes, position) {
            Err(error) => Err(error),
            Ok((length, next)) => if length > u32::MAX {
                Err(ChunkError::SpanLengthOverflow)
            } else {
                match varbit_int_at(bytes, next) {
                    Err(error) => Err(error),
                    Ok((offset, end)) => if offset < i32::MIN || offset > i32::MAX {
                        Err(ChunkError::SpanOffsetOverflow)
                    } else {
                        spans_from(
                            bytes,
                            end,
                            count - 1,
                            spans.push(Span { offset: offset as i32, length: length as u32 }),
                        )
                    },
                }
            },
        }
    }
}

/// The spans at a position, their number first, and the position behind them.
pub open spec fn spans_at(bytes: Seq<u8>, position: int) -> Result<(Seq<Span>, int), ChunkError> {
    match varbit_uint_at(bytes, position) {
        Err(error) => Err(error),
        Ok((count, next)) => spans_from(bytes, next, count, Seq::empty()),
    }
}

/// `count` custom bounds from a position on, behind those in `bounds`, and the position behind
/// them. The number 0 has a bit pattern behind it, any other number is one more than a number of
/// thousandths.
pub open spec fn bounds_from(
    bytes: Seq<u8>,
    position: int,
    count: int,
    bounds: Seq<CustomBound>,
) -> Result<(Seq<CustomBound>, int), ChunkError>
    decreases count,
{
    if count <= 0 {
        Ok((bounds, position))
    } else {
        match varbit_uint_at(bytes, position) {
            Err(error) => Err(error),
            Ok((code, next)) => if code == 0 {
                match bits_at(bytes, next, 64) {
                    Err(error) => Err(error),
                    Ok((pattern, end)) => bounds_from(
                        bytes,
                        end,
                        count - 1,
                        bounds.push(CustomBound::Bits(pattern as u64)),
                    ),
                }
            } else {
                bounds_from(
                    bytes,
                    next,
                    count - 1,
                    bounds.push(CustomBound::Thousandths((code - 1) as u64)),
                )
            },
        }
    }
}

/// The custom bounds at a position, their number first, and the position behind them. Only
/// layouts of the custom schema have any.
pub open spec fn bounds_at(bytes: Seq<u8>, position: int, schema: int) -> Result<
    (Seq<CustomBound>, int),
    ChunkError,
> {
    if schema != CUSTOM_BUCKET_SCHEMA {
        Ok((Seq::empty(), position))
    } else {
        match varbit_uint_at(bytes, position) {
            Err(error) => Err(error),
            Ok((count, next)) => bounds_from(bytes, next, count, Seq::empty()),
        }
    }
}

/// The layout at a position and the position behind it.
pub open spec fn layout_at(bytes: Seq<u8>, position: int) -> Result<
    (LayoutModel, int),
    ChunkError,
> {
    match zero_threshold_at(bytes, position) {
        Err(error) => Err(error),
        Ok((zero_threshold, after_threshold)) => match varbit_int_at(bytes, after_threshold) {
            Err(error) => Err(error),
            Ok((schema, after_schema)) => if schema < i32::MIN || schema > i32::MAX {
                Err(ChunkError::SchemaOverflow)
            } else if schema != CUSTOM_BUCKET_SCHEMA && !(-4 <= schema <= 8) {
                Err(ChunkError::UnknownSchema(schema as i32))
            } else {
                match spans_at(bytes, after_schema) {
                    Err(error) => Err(error),
                    Ok((positive_spans, after_positive)) => match spans_at(bytes, after_positive) {
                        Err(error) => Err(error),
                        Ok((negative_spans, after_negative)) => match bounds_at(
                            bytes,
                            after_negative,
                            schema,
                        ) {
                            Err(error) => Err(error),
                            Ok((custom_values, end)) => Ok(
                                (
                                    LayoutModel {
                                        schema: schema as i32,
                                        zero_threshold: zero_threshold as u64,
                                        positive_spans,
                                        negative_spans,
                                        custom_values,
                                    },
                                    end,
                                ),
                            ),
                        },
                    },
                }
            },
        },
    }
}

/// The number of buckets that spans cover.
pub open spec fn span_buckets(spans: Seq<Span>) -> int
    decreases spans.len(),
{
    if spans.len() == 0 {
        0
    } else {
        span_buckets(spans.drop_last()) + spans.last().length
    }
}

fn read_zero_threshold(reader: &mut BitReader<'_>) -> (result: Result<u64, ChunkError>)
    requires
        old(reader).valid(),
    ensures
        final(reader).valid(),
        final(reader).stream() == old(reader).stream(),
        match result {
            Ok(value) => zero_threshold_at(old(reader).stream(), old(reader).position()) == Ok::<
                (int, int),
                ChunkError,
            >((value as int, final(reader).position())),
            Err(error) => zero_threshold_at(old(reader).stream(), old(reader).position())
                == Err::<(int, int), ChunkError>(error),
        },
{
    let byte: u64 = reader.read_bits(8)?;
    proof {
        lemma_bits_value_bound(old(reader).stream(), old(reader).position(), 8);
        vstd::arithmetic::power2::lemma2_to64();
    }
    if byte == 0 {
        Ok(0)
    } else if byte == 255 {
        reader.read_bits(64)
    } else {
        Ok((byte + 779) * 0x10_0000_0000_0000)
    }
}

fn read_spans(reader: &mut BitReader<'_>) -> (result: Result<Vec<Span>, ChunkError>)
    requires
        old(reader).valid(),
    ensures
        final(reader).valid(),
        final(reader).stream() == old(reader).stream(),
        match result {
            Ok(spans) => spans_at(old(reader).stream(), old(reader).position()) == Ok::<
                (Seq<Span>, int),
                ChunkError,
            >((spans@, final(reader).position())),
            Err(error) => spans_at(old(reader).stream(), old(reader).position()) == Err::<
                (Seq<Span>, int),
                ChunkError,
            >(error),
        },
{
    let count: u64 = reader.read_varbit_uint()?;
    let mut spans: Vec<Span> = Vec::new();
    let mut remaining: u64 = count;
    while remaining > 0
        invariant
            reader.valid(),
            reader.stream() == old(reader).stream(),
            spans_at(old(reader).stream(), old(reader).position()) == spans_from(
                reader.stream(),
                reader.position(),
                remaining as int,
                spans@,
            ),
        decreases remaining,
    {
        let length: u64 = reader.read_varbit_uint()?;
        if length > u32::MAX as u64 {
            return Err(ChunkError::SpanLengthOverflow);
        }
        let offset: i64 = reader.read_varbit_int()?;
        if offset < i32::MIN as i64 || offset > i32::MAX as i64 {
            return Err(ChunkError::SpanOffsetOverflow);
        }
        spans.push(Span { offset: offset as i32, length: length as u32 });
        remaining = remaining - 1;
    }
    Ok(spans)
}

fn read_bounds(reader: &mut BitReader<'_>, schema: i32) -> (result: Result<
    Vec<CustomBound>,
    ChunkError,
>)
    requires
        old(reader).valid(),
    ensures
        final(reader).valid(),
        final(reader).stream() == old(reader).stream(),
        match result {
            Ok(bounds) => bounds_at(old(reader).stream(), old(reader).position(), schema as int)
                == Ok::<(Seq<CustomBound>, int), ChunkError>((bounds@, final(reader).position())),
            Err(error) => bounds_at(old(reader).stream(), old(reader).position(), schema as int)
                == Err::<(Seq<CustomBound>, int), ChunkError>(error),
        },
{
    let mut bounds: Vec<CustomBound> = Vec::new();
    if schema != CUSTOM_BUCKET_SCHEMA {
        return Ok(bounds);
    }
    let count: u64 = reader.read_varbit_uint()?;
    let mut remaining: u64 = count;
    while remaining > 0
        invariant
            reader.valid(),
            reader.stream() == old(reader).stream(),
            bounds_at(old(reader).stream(), old(reader).position(), schema as int) == bounds_from(
                reader.stream(),
                reader.position(),
                remaining as int,
                bounds@,
            ),
        decreases remaining,
    {
        let code: u64 = reader.read_varbit_uint()?;
        if code == 0 {
            let pattern: u64 = reader.read_bits(64)?;
            bounds.push(CustomBound::Bits(pattern));
        } else {
            bounds.push(CustomBound::Thousandths(code - 1));
        }
        remaining = remaining - 1;
    }
    Ok(bounds)
}

fn read_layout(reader: &mut BitReader<'_>) -> (result: Result<Layout, ChunkError>)
    requires
        old(reader).valid(),
    ensures
        final(reader).valid(),
        final(reader).stream() == old(reader).stream(),
        match result {
            Ok(layout) => layout_at(old(reader).stream(), old(reader).position()) == Ok::<
                (LayoutModel, int),
                ChunkError,
            >((layout@, final(reader).position())),
            Err(error) => layout_at(old(reader).stream(), old(reader).position()) == Err::<
                (LayoutModel, int),
                ChunkError,
            >(error),
        },
{
    let zero_threshold: u64 = read_zero_threshold(reader)?;
    let schema: i64 = reader.read_varbit_int()?;
    if schema < i32::MIN as i64 || schema > i32::MAX as i64 {
        return Err(ChunkError::SchemaOverflow);
    }
    let schema: i32 = schema as i32;
    if schema != CUSTOM_BUCKET_SCHEMA && (schema < -4 || schema > 8) {
        return Err(ChunkError::UnknownSchema(schema));
    }
    let positive_spans = read_spans(reader)?;
    let negative_spans = read_spans(reader)?;
    let custom_values = read_bounds(reader, schema)?;
    Ok(Layout { schema, zero_threshold, positive_spans, negative_spans, custom_values })
}

fn bucket_count(spans: &Vec<Span>) -> (result: Result<usize, ChunkError>)
    ensures
        match result {
            Ok(count) => count == span_buckets(spans@),
            Err(error) => error == ChunkError::BucketCountOverflow && span_buckets(spans@)
                > usize::MAX,
        },
{
    let mut count: usize = 0;
    let mut index: usize = 0;
    assert(spans@.take(0) =~= Seq::<Span>::empty());
    while index < spans.len()
        invariant
            index <= spans.len(),
            count == span_buckets(spans@.take(index as int)),
        decreases spans.len() - index,
    {
        assert(spans@.take(index + 1).drop_last() =~= spans@.take(index as int));
        assert(span_buckets(spans@.take(index + 1)) == count + spans@[index as int].length);
        match count.checked_add(spans[index].length as usize) {
            Some(sum) => {
                count = sum;
            },
            None => {
                proof {
                    lemma_span_buckets_grow(spans@, index + 1);
                }
                return Err(ChunkError::BucketCountOverflow);
            },
        }
        index = index + 1;
    }
    assert(spans@.take(index as int) =~= spans@);
    Ok(count)
}

proof fn lemma_span_buckets_grow(spans: Seq<Span>, n: int)
    requires
        0 <= n <= spans.len(),
    ensures
        span_buckets(spans.take(n)) <= span_buckets(spans),
    decreases spans.len() - n,
{
    if n < spans.len() {
        lemma_span_buckets_grow(spans, n + 1);
        assert(spans.take(n + 1).drop_last() =~= spans.take(n));
    } else {
        assert(spans.take(n) =~= spans);
    }
}

/// A float that is written as its difference from the float before: its bit pattern, and the
/// number of leading and trailing zero bits of the last difference that was written with its own
/// window.
#[derive(Clone, Copy, Debug, PartialEq, Eq, Structural)]
pub struct XorValue {
    pub value: u64,
    pub leading: u64,
    pub trailing: u64,
}

impl XorValue {
    /// The window between the leading and the trailing bits is not empty.
    pub open spec fn valid(&self) -> bool {
        self.leading + self.trailing <= 63
    }

    /// A float before any difference was read.
    pub open spec fn first(value: int) -> XorValue {
        XorValue { value: value as u64, leading: 0, trailing: 0 }
    }

    /// The float after a difference was read into a window.
    pub open spec fn changed(&self, delta: int, leading: int, trailing: int) -> XorValue {
        XorValue {
            value: self.value ^ ((delta as u64) << (trailing as u64)),
            leading: leading as u64,
            trailing: trailing as u64,
        }
    }
}

/// The float behind `previous` at a position, and the position behind it. The bit 0 repeats the
/// float; the bits 10 have a difference in the window of before behind them; the bits 11 have
/// five bits for the leading zeros, six bits for the size of the window (0 stands for 64) and the
/// difference behind them.
pub open spec fn xor_at(bytes: Seq<u8>, position: int, previous: XorValue) -> Result<
    (XorValue, int),
    ChunkError,
> {
    match bits_at(bytes, position, 1) {
        Err(error) => Err(error),
        Ok((changed, after_changed)) => if changed == 0 {
            Ok((previous, after_changed))
        } else {
            match bits_at(bytes, after_changed, 1) {
                Err(error) => Err(error),
                Ok((window, after_window)) => if window == 0 {
                    match bits_at(
                        bytes,
                        after_window,
                        64 - previous.leading - previous.trailing,
                    ) {
                        Err(error) => Err(error),
                        Ok((delta, end)) => Ok(
                            (
                                previous.changed(
                                    delta,
                                    previous.leading as int,
                                    previous.trailing as int,
                                ),
                                end,
                            ),
                        ),
                    }
                } else {
                    match bits_at(bytes, after_window, 5) {
                        Err(error) => Err(error),
                        Ok((leading, after_leading)) => match bits_at(bytes, after_leading, 6) {
                            Err(error) => Err(error),
                            Ok((code, after_size)) => {
                                let size = if code == 0 {
                                    64
                                } else {
                                    code
                                };
                                if leading + size > 64 {
                                    Err(ChunkError::InvalidXorWindow)
                                } else {
                                    match bits_at(bytes, after_size, size) {
                                        Err(error) => Err(error),
                                        Ok((delta, end)) => Ok(
                                            (
                                                previous.changed(
                                                    delta,
                                                    leading,
                                                    64 - leading - size,
                                                ),
                                                end,
                                            ),
                                        ),
                                    }
                                }
                            },
                        },
                    }
                },
            }
        },
    }
}

pub(crate) fn read_xor(reader: &mut BitReader<'_>, previous: XorValue) -> (result: Result<
    XorValue,
    ChunkError,
>)
    requires
        old(reader).valid(),
        previous.valid(),
    ensures
        final(reader).valid(),
        final(reader).stream() == old(reader).stream(),
        match result {
            Ok(value) => {
                &&& xor_at(old(reader).stream(), old(reader).position(), previous) == Ok::<
                    (XorValue, int),
                    ChunkError,
                >((value, final(reader).position()))
                &&& value.valid()
            },
            Err(error) => xor_at(old(reader).stream(), old(reader).position(), previous) == Err::<
                (XorValue, int),
                ChunkError,
            >(error),
        },
{
    let changed: u64 = reader.read_bits(1)?;
    if changed == 0 {
        return Ok(previous);
    }
    let window: u64 = reader.read_bits(1)?;
    if window == 0 {
        let size: u64 = 64 - previous.leading - previous.trailing;
        let delta: u64 = reader.read_bits(size as u8)?;
        return Ok(
            XorValue {
                value: previous.value ^ (delta << previous.trailing),
                leading: previous.leading,
                trailing: previous.trailing,
            },
        );
    }
    let ghost leading_at = reader.position();
    let leading: u64 = reader.read_bits(5)?;
    let ghost size_at = reader.position();
    let code: u64 = reader.read_bits(6)?;
    proof {
        lemma_bits_value_bound(reader.stream(), leading_at, 5);
        lemma_bits_value_bound(reader.stream(), size_at, 6);
        vstd::arithmetic::power2::lemma2_to64();
    }
    let size: u64 = if code == 0 {
        64
    } else {
        code
    };
    if leading + size > 64 {
        return Err(ChunkError::InvalidXorWindow);
    }
    let trailing: u64 = 64 - leading - size;
    let delta: u64 = reader.read_bits(size as u8)?;
    Ok(XorValue { value: previous.value ^ (delta << trailing), leading, trailing })
}

/// The hint of a histogram about counter resets: 3 for gauges, 2 for a histogram that is not the
/// first one of its chunk, otherwise 0.
pub open spec fn reset_hint_of(gauge: bool, index: int) -> u8 {
    if gauge {
        3
    } else if index > 1 {
        2
    } else {
        0
    }
}

fn reset_hint(gauge: bool, index: u16) -> (hint: u8)
    ensures
        hint == reset_hint_of(gauge, index as int),
{
    if gauge {
        3
    } else if index > 1 {
        2
    } else {
        0
    }
}

/// The histogram that marks a series as stale: nothing but its time and its sum.
pub open spec fn stale_model(timestamp: i64, sum: u64, float: bool) -> HistogramModel {
    let count = if float {
        HistogramCount::Float(0)
    } else {
        HistogramCount::Integer(0)
    };
    let buckets = if float {
        BucketsModel::Float(Seq::empty())
    } else {
        BucketsModel::Integer(Seq::empty())
    };
    HistogramModel {
        timestamp,
        schema: 0,
        count,
        sum,
        zero_threshold: 0,
        zero_count: count,
        reset_hint: 0,
        positive_spans: Seq::empty(),
        negative_spans: Seq::empty(),
        positive_buckets: buckets,
        negative_buckets: buckets,
        custom_values: Seq::empty(),
    }
}

fn stale_sample(timestamp: i64, sum: u64, float: bool) -> (sample: HistogramSample)
    ensures
        sample@ == stale_model(timestamp, sum, float),
{
    let count = if float {
        HistogramCount::Float(0)
    } else {
        HistogramCount::Integer(0)
    };
    let positive_buckets = if float {
        HistogramBuckets::Float(Vec::new())
    } else {
        HistogramBuckets::Integer(Vec::new())
    };
    let negative_buckets = if float {
        HistogramBuckets::Float(Vec::new())
    } else {
        HistogramBuckets::Integer(Vec::new())
    };
    HistogramSample {
        timestamp,
        schema: 0,
        count,
        sum,
        zero_threshold: 0,
        zero_count: count,
        reset_hint: 0,
        positive_spans: Vec::new(),
        negative_spans: Vec::new(),
        positive_buckets,
        negative_buckets,
        custom_values: Vec::new(),
    }
}

/// The running values of an integer histogram chunk.
struct IntegerState {
    timestamp: i64,
    timestamp_delta: i64,
    count: u64,
    count_delta: i64,
    zero_count: u64,
    zero_count_delta: i64,
    sum: XorValue,
    positive: Vec<i64>,
    positive_deltas: Vec<i64>,
    negative: Vec<i64>,
    negative_deltas: Vec<i64>,
}

/// The running values of an integer histogram chunk: times, counts and bucket contents change by
/// amounts, and what is written are the changes of these amounts.
pub struct IntegerModel {
    pub timestamp: i64,
    pub timestamp_delta: i64,
    pub count: u64,
    pub count_delta: i64,
    pub zero_count: u64,
    pub zero_count_delta: i64,
    pub sum: XorValue,
    pub positive: Seq<i64>,
    pub positive_deltas: Seq<i64>,
    pub negative: Seq<i64>,
    pub negative_deltas: Seq<i64>,
}

impl View for IntegerState {
    type V = IntegerModel;

    closed spec fn view(&self) -> IntegerModel {
        IntegerModel {
            timestamp: self.timestamp,
            timestamp_delta: self.timestamp_delta,
            count: self.count,
            count_delta: self.count_delta,
            zero_count: self.zero_count,
            zero_count_delta: self.zero_count_delta,
            sum: self.sum,
            positive: self.positive@,
            positive_deltas: self.positive_deltas@,
            negative: self.negative@,
            negative_deltas: self.negative_deltas@,
        }
    }
}

/// `count` signed numbers from a position on, behind those in `values`, and the position behind
/// them.
pub open spec fn ints_from(bytes: Seq<u8>, position: int, count: int, values: Seq<i64>) -> Result<
    (Seq<i64>, int),
    ChunkError,
>
    decreases count,
{
    if count <= 0 {
        Ok((values, position))
    } else {
        match varbit_int_at(bytes, position) {
            Err(error) => Err(error),
            Ok((value, next)) => ints_from(bytes, next, count - 1, values.push(value as i64)),
        }
    }
}

/// The buckets and their changes after the changes of the changes were read for the buckets from
/// `index` on, and the position behind them.
pub open spec fn deltas_from(
    bytes: Seq<u8>,
    position: int,
    buckets: Seq<i64>,
    deltas: Seq<i64>,
    index: int,
) -> Result<((Seq<i64>, Seq<i64>), int), ChunkError>
    decreases buckets.len() - index,
{
    if index < 0 || index >= buckets.len() {
        Ok(((buckets, deltas), position))
    } else {
        match varbit_int_at(bytes, position) {
            Err(error) => Err(error),
            Ok((change, next)) => {
                let delta = deltas[index].wrapping_add(change as i64);
                deltas_from(
                    bytes,
                    next,
                    buckets.update(index, buckets[index].wrapping_add(delta)),
                    deltas.update(index, delta),
                    index + 1,
                )
            },
        }
    }
}

/// The first histogram of an integer chunk: time, count, zero count, sum and all buckets.
pub open spec fn integer_first(bytes: Seq<u8>, position: int, positive: int, negative: int) -> Result<
    (IntegerModel, int),
    ChunkError,
> {
    match varbit_int_at(bytes, position) {
        Err(error) => Err(error),
        Ok((timestamp, after_timestamp)) => match varbit_uint_at(bytes, after_timestamp) {
            Err(error) => Err(error),
            Ok((count, after_count)) => match varbit_uint_at(bytes, after_count) {
                Err(error) => Err(error),
                Ok((zero_count, after_zero)) => match bits_at(bytes, after_zero, 64) {
                    Err(error) => Err(error),
                    Ok((sum, after_sum)) => match ints_from(
                        bytes,
                        after_sum,
                        positive,
                        Seq::empty(),
                    ) {
                        Err(error) => Err(error),
                        Ok((positive_buckets, after_positive)) => match ints_from(
                            bytes,
                            after_positive,
                            negative,
                            Seq::empty(),
                        ) {
                            Err(error) => Err(error),
                            Ok((negative_buckets, end)) => Ok(
                                (
                                    IntegerModel {
                                        timestamp: timestamp as i64,
                                        timestamp_delta: 0,
                                        count: count as u64,
                                        count_delta: 0,
                                        zero_count: zero_count as u64,
                                        zero_count_delta: 0,
                                        sum: XorValue::first(sum),
                                        positive: positive_buckets,
                                        positive_deltas: zeros(positive),
                                        negative: negative_buckets,
                                        negative_deltas: zeros(negative),
                                    },
                                    end,
                                ),
                            ),
                        },
                    },
                },
            },
        },
    }
}

/// That many zeros.
pub open spec fn zeros(count: int) -> Seq<i64> {
    Seq::new(count as nat, |i: int| 0i64)
}

/// The histogram behind another one in an integer chunk. One that marks a series as stale has no
/// buckets.
pub open spec fn integer_next(bytes: Seq<u8>, position: int, state: IntegerModel) -> Result<
    (IntegerModel, int),
    ChunkError,
> {
    match varbit_int_at(bytes, position) {
        Err(error) => Err(error),
        Ok((timestamp_change, after_timestamp)) => match varbit_int_at(bytes, after_timestamp) {
            Err(error) => Err(error),
            Ok((count_change, after_count)) => match varbit_int_at(bytes, after_count) {
                Err(error) => Err(error),
                Ok((zero_change, after_zero)) => match xor_at(bytes, after_zero, state.sum) {
                    Err(error) => Err(error),
                    Ok((sum, after_sum)) => {
                        let timestamp_delta = state.timestamp_delta.wrapping_add(
                            timestamp_change as i64,
                        );
                        let count_delta = state.count_delta.wrapping_add(count_change as i64);
                        let zero_count_delta = state.zero_count_delta.wrapping_add(
                            zero_change as i64,
                        );
                        let moved = IntegerModel {
                            timestamp: state.timestamp.wrapping_add(timestamp_delta),
                            timestamp_delta,
                            count: state.count.wrapping_add_signed(count_delta),
                            count_delta,
                            zero_count: state.zero_count.wrapping_add_signed(zero_count_delta),
                            zero_count_delta,
                            sum,
                            ..state
                        };
                        if sum.value == STALE_NAN_BITS {
                            Ok((moved, after_sum))
                        } else {
                            match deltas_from(
                                bytes,
                                after_sum,
                                state.positive,
                                state.positive_deltas,
                                0,
                            ) {
                                Err(error) => Err(error),
                                Ok(((positive, positive_deltas), after_positive)) =>
                                match deltas_from(
                                    bytes,
                                    after_positive,
                                    state.negative,
                                    state.negative_deltas,
                                    0,
                                ) {
                                    Err(error) => Err(error),
                                    Ok(((negative, negative_deltas), end)) => Ok(
                                        (
                                            IntegerModel {
                                                positive,
                                                positive_deltas,
                                                negative,
                                                negative_deltas,
                                                ..moved
                                            },
                                            end,
                                        ),
                                    ),
                                },
                            }
                        }
                    },
                },
            },
        },
    }
}

/// The histogram that the running values of an integer chunk stand for.
pub open spec fn integer_model(
    state: IntegerModel,
    gauge: bool,
    index: int,
    layout: LayoutModel,
) -> HistogramModel {
    if state.sum.value == STALE_NAN_BITS {
        stale_model(state.timestamp, state.sum.value, false)
    } else {
        HistogramModel {
            timestamp: state.timestamp,
            schema: layout.schema,
            count: HistogramCount::Integer(state.count),
            sum: state.sum.value,
            zero_threshold: layout.zero_threshold,
            zero_count: HistogramCount::Integer(state.zero_count),
            reset_hint: reset_hint_of(gauge, index),
            positive_spans: layout.positive_spans,
            negative_spans: layout.negative_spans,
            positive_buckets: BucketsModel::Integer(state.positive),
            negative_buckets: BucketsModel::Integer(state.negative),
            custom_values: layout.custom_values,
        }
    }
}

/// The histograms of an integer chunk from the one with the given index up to the last one,
/// behind those in `samples`. `state` holds the running values of the one before.
pub open spec fn integer_samples_from(
    bytes: Seq<u8>,
    position: int,
    state: IntegerModel,
    index: int,
    count: int,
    gauge: bool,
    layout: LayoutModel,
    samples: Seq<HistogramModel>,
) -> Result<Seq<HistogramModel>, ChunkError>
    decreases count - index + 1,
{
    if index > count {
        Ok(samples)
    } else {
        match integer_next(bytes, position, state) {
            Err(error) => Err(error),
            Ok((next, end)) => integer_samples_from(
                bytes,
                end,
                next,
                index + 1,
                count,
                gauge,
                layout,
                samples.push(integer_model(next, gauge, index, layout)),
            ),
        }
    }
}

/// The number of histograms in a chunk.
pub open spec fn sample_count(payload: Seq<u8>) -> int {
    payload[0] * 256 + payload[1]
}

/// Whether a chunk holds gauge histograms.
pub open spec fn is_gauge(payload: Seq<u8>) -> bool {
    payload[2] >= 0b1100_0000
}

/// The layout of a chunk, the number of its positive and negative buckets and the position of
/// its first histogram, counted in bits behind the header.
pub open spec fn chunk_layout(payload: Seq<u8>) -> Result<
    (LayoutModel, int, int, int),
    ChunkError,
> {
    match layout_at(payload.skip(HISTOGRAM_HEADER_SIZE as int), 0) {
        Err(error) => Err(error),
        Ok((layout, position)) => {
            let positive = span_buckets(layout.positive_spans);
            let negative = span_buckets(layout.negative_spans);
            if positive > usize::MAX || negative > usize::MAX {
                Err(ChunkError::BucketCountOverflow)
            } else {
                Ok((layout, positive, negative, position))
            }
        },
    }
}

/// The histograms of an integer histogram chunk.
pub open spec fn histogram_samples(payload: Seq<u8>) -> Result<Seq<HistogramModel>, ChunkError> {
    if payload.len() < HISTOGRAM_HEADER_SIZE {
        Err(ChunkError::TruncatedHistogramHeader)
    } else if sample_count(payload) == 0 {
        Ok(Seq::empty())
    } else {
        let bytes = payload.skip(HISTOGRAM_HEADER_SIZE as int);
        match chunk_layout(payload) {
            Err(error) => Err(error),
            Ok((layout, positive, negative, position)) => match integer_first(
                bytes,
                position,
                positive,
                negative,
            ) {
                Err(error) => Err(error),
                Ok((state, next)) => integer_samples_from(
                    bytes,
                    next,
                    state,
                    2,
                    sample_count(payload),
                    is_gauge(payload),
                    layout,
                    seq![integer_model(state, is_gauge(payload), 1, layout)],
                ),
            },
        }
    }
}

fn read_integer_buckets(reader: &mut BitReader<'_>, count: usize) -> (result: Result<
    Vec<i64>,
    ChunkError,
>)
    requires
        old(reader).valid(),
    ensures
        final(reader).valid(),
        final(reader).stream() == old(reader).stream(),
        match result {
            Ok(values) => {
                &&& ints_from(
                    old(reader).stream(),
                    old(reader).position(),
                    count as int,
                    Seq::empty(),
                ) == Ok::<(Seq<i64>, int), ChunkError>((values@, final(reader).position()))
                &&& values@.len() == count
            },
            Err(error) => ints_from(
                old(reader).stream(),
                old(reader).position(),
                count as int,
                Seq::empty(),
            ) == Err::<(Seq<i64>, int), ChunkError>(error),
        },
{
    let mut values: Vec<i64> = Vec::new();
    while values.len() < count
        invariant
            reader.valid(),
            reader.stream() == old(reader).stream(),
            values.len() <= count,
            ints_from(old(reader).stream(), old(reader).position(), count as int, Seq::empty())
                == ints_from(
                reader.stream(),
                reader.position(),
                count - values.len(),
                values@,
            ),
        decreases count - values.len(),
    {
        let value: i64 = reader.read_varbit_int()?;
        values.push(value);
    }
    Ok(values)
}

fn read_integer_deltas(
    reader: &mut BitReader<'_>,
    buckets: &mut Vec<i64>,
    deltas: &mut Vec<i64>,
) -> (result: Result<(), ChunkError>)
    requires
        old(reader).valid(),
        old(buckets)@.len() == old(deltas)@.len(),
    ensures
        final(reader).valid(),
        final(reader).stream() == old(reader).stream(),
        final(buckets)@.len() == old(buckets)@.len(),
        final(deltas)@.len() == old(deltas)@.len(),
        match result {
            Ok(_) => deltas_from(
                old(reader).stream(),
                old(reader).position(),
                old(buckets)@,
                old(deltas)@,
                0,
            ) == Ok::<((Seq<i64>, Seq<i64>), int), ChunkError>(
                ((final(buckets)@, final(deltas)@), final(reader).position()),
            ),
            Err(error) => deltas_from(
                old(reader).stream(),
                old(reader).position(),
                old(buckets)@,
                old(deltas)@,
                0,
            ) == Err::<((Seq<i64>, Seq<i64>), int), ChunkError>(error),
        },
{
    let mut index: usize = 0;
    while index < buckets.len()
        invariant
            reader.valid(),
            reader.stream() == old(reader).stream(),
            index <= buckets.len(),
            buckets.len() == deltas.len(),
            buckets.len() == old(buckets)@.len(),
            deltas.len() == old(deltas)@.len(),
            deltas_from(
                old(reader).stream(),
                old(reader).position(),
                old(buckets)@,
                old(deltas)@,
                0,
            ) == deltas_from(
                reader.stream(),
                reader.position(),
                buckets@,
                deltas@,
                index as int,
            ),
        decreases buckets.len() - index,
    {
        let change: i64 = reader.read_varbit_int()?;
        let delta: i64 = deltas[index].wrapping_add(change);
        let bucket: i64 = buckets[index].wrapping_add(delta);
        deltas.set(index, delta);
        buckets.set(index, bucket);
        index = index + 1;
    }
    Ok(())
}

fn copy_spans(spans: &Vec<Span>) -> (copy: Vec<Span>)
    ensures
        copy@ == spans@,
{
    vstd::slice::slice_to_vec(spans.as_slice())
}

fn integer_sample(state: &IntegerState, gauge: bool, index: u16, layout: &Layout) -> (sample:
    HistogramSample)
    ensures
        sample@ == integer_model(state@, gauge, index as int, layout@),
{
    if state.sum.value == STALE_NAN_BITS {
        return stale_sample(state.timestamp, state.sum.value, false);
    }
    HistogramSample {
        timestamp: state.timestamp,
        schema: layout.schema,
        count: HistogramCount::Integer(state.count),
        sum: state.sum.value,
        zero_threshold: layout.zero_threshold,
        zero_count: HistogramCount::Integer(state.zero_count),
        reset_hint: reset_hint(gauge, index),
        positive_spans: copy_spans(&layout.positive_spans),
        negative_spans: copy_spans(&layout.negative_spans),
        positive_buckets: HistogramBuckets::Integer(
            vstd::slice::slice_to_vec(state.positive.as_slice()),
        ),
        negative_buckets: HistogramBuckets::Integer(
            vstd::slice::slice_to_vec(state.negative.as_slice()),
        ),
        custom_values: vstd::slice::slice_to_vec(layout.custom_values.as_slice()),
    }
}

impl IntegerState {
    spec fn valid(&self) -> bool {
        &&& self.sum.valid()
        &&& self.positive@.len() == self.positive_deltas@.len()
        &&& self.negative@.len() == self.negative_deltas@.len()
    }
}

fn read_first_integer(reader: &mut BitReader<'_>, positive: usize, negative: usize) -> (result:
    Result<IntegerState, ChunkError>)
    requires
        old(reader).valid(),
    ensures
        final(reader).valid(),
        final(reader).stream() == old(reader).stream(),
        match result {
            Ok(state) => {
                &&& integer_first(
                    old(reader).stream(),
                    old(reader).position(),
                    positive as int,
                    negative as int,
                ) == Ok::<(IntegerModel, int), ChunkError>((state@, final(reader).position()))
                &&& state.valid()
            },
            Err(error) => integer_first(
                old(reader).stream(),
                old(reader).position(),
                positive as int,
                negative as int,
            ) == Err::<(IntegerModel, int), ChunkError>(error),
        },
{
    let timestamp: i64 = reader.read_varbit_int()?;
    let count: u64 = reader.read_varbit_uint()?;
    let zero_count: u64 = reader.read_varbit_uint()?;
    let sum: u64 = reader.read_bits(64)?;
    let positive_buckets = read_integer_buckets(reader, positive)?;
    let negative_buckets = read_integer_buckets(reader, negative)?;
    let positive_deltas: Vec<i64> = vec![0i64; positive];
    let negative_deltas: Vec<i64> = vec![0i64; negative];
    assert(positive_deltas@ =~= zeros(positive as int));
    assert(negative_deltas@ =~= zeros(negative as int));
    Ok(
        IntegerState {
            timestamp,
            timestamp_delta: 0,
            count,
            count_delta: 0,
            zero_count,
            zero_count_delta: 0,
            sum: XorValue { value: sum, leading: 0, trailing: 0 },
            positive: positive_buckets,
            positive_deltas,
            negative: negative_buckets,
            negative_deltas,
        },
    )
}

fn read_next_integer(reader: &mut BitReader<'_>, state: &mut IntegerState) -> (result: Result<
    (),
    ChunkError,
>)
    requires
        old(reader).valid(),
        old(state).valid(),
    ensures
        final(reader).valid(),
        final(reader).stream() == old(reader).stream(),
        final(state).valid(),
        match result {
            Ok(_) => integer_next(old(reader).stream(), old(reader).position(), old(state)@)
                == Ok::<(IntegerModel, int), ChunkError>(
                (final(state)@, final(reader).position()),
            ),
            Err(error) => integer_next(old(reader).stream(), old(reader).position(), old(state)@)
                == Err::<(IntegerModel, int), ChunkError>(error),
        },
{
    let timestamp_change: i64 = reader.read_varbit_int()?;
    let count_change: i64 = reader.read_varbit_int()?;
    let zero_change: i64 = reader.read_varbit_int()?;
    let sum = read_xor(reader, state.sum)?;
    state.timestamp_delta = state.timestamp_delta.wrapping_add(timestamp_change);
    state.timestamp = state.timestamp.wrapping_add(state.timestamp_delta);
    state.count_delta = state.count_delta.wrapping_add(count_change);
    state.count = state.count.wrapping_add_signed(state.count_delta);
    state.zero_count_delta = state.zero_count_delta.wrapping_add(zero_change);
    state.zero_count = state.zero_count.wrapping_add_signed(state.zero_count_delta);
    state.sum = sum;
    if sum.value == STALE_NAN_BITS {
        return Ok(());
    }
    read_integer_deltas(reader, &mut state.positive, &mut state.positive_deltas)?;
    read_integer_deltas(reader, &mut state.negative, &mut state.negative_deltas)?;
    Ok(())
}

/// The header of a histogram chunk: the number of histograms, whether they are gauges, and a
/// reader over what is behind the header.
fn chunk_header(payload: &[u8]) -> (result: Result<(u16, bool, BitReader<'_>), ChunkError>)
    ensures
        match result {
            Ok((count, gauge, reader)) => {
                &&& payload@.len() >= HISTOGRAM_HEADER_SIZE
                &&& count == sample_count(payload@)
                &&& gauge == is_gauge(payload@)
                &&& reader.valid()
                &&& reader.stream() == payload@.skip(HISTOGRAM_HEADER_SIZE as int)
                &&& reader.position() == 0
            },
            Err(error) => error == ChunkError::TruncatedHistogramHeader && payload@.len()
                < HISTOGRAM_HEADER_SIZE,
        },
{
    if payload.len() < HISTOGRAM_HEADER_SIZE {
        return Err(ChunkError::TruncatedHistogramHeader);
    }
    let count: u16 = payload[0] as u16 * 256 + payload[1] as u16;
    let body: &[u8] = &payload[HISTOGRAM_HEADER_SIZE..payload.len()];
    assert(body@ =~= payload@.skip(HISTOGRAM_HEADER_SIZE as int));
    Ok((count, payload[2] >= 0b1100_0000, BitReader::new(body)))
}

/// Decodes the histograms of an integer histogram chunk.
pub fn decode_histogram(payload: &[u8]) -> (result: Result<Vec<HistogramSample>, ChunkError>)
    ensures
        match result {
            Ok(samples) => histogram_samples(payload@) == Ok::<Seq<HistogramModel>, ChunkError>(
                histogram_models(samples@),
            ),
            Err(error) => histogram_samples(payload@) == Err::<Seq<HistogramModel>, ChunkError>(
                error,
            ),
        },
{
    let (count, gauge, mut reader) = chunk_header(payload)?;
    let mut samples: Vec<HistogramSample> = Vec::new();
    if count == 0 {
        assert(histogram_models(samples@) =~= Seq::<HistogramModel>::empty());
        return Ok(samples);
    }
    let ghost bytes = payload@.skip(HISTOGRAM_HEADER_SIZE as int);
    let layout = read_layout(&mut reader)?;
    let positive: usize = bucket_count(&layout.positive_spans)?;
    let negative: usize = bucket_count(&layout.negative_spans)?;
    let mut state = read_first_integer(&mut reader, positive, negative)?;
    samples.push(integer_sample(&state, gauge, 1, &layout));
    assert(histogram_models(samples@) =~= seq![integer_model(state@, gauge, 1, layout@)]);
    let mut done: u16 = 1;
    while done < count
        invariant
            1 <= done <= count,
            reader.valid(),
            reader.stream() == bytes,
            state.valid(),
            histogram_samples(payload@) == integer_samples_from(
                bytes,
                reader.position(),
                state@,
                done + 1,
                count as int,
                gauge,
                layout@,
                histogram_models(samples@),
            ),
        decreases count - done,
    {
        read_next_integer(&mut reader, &mut state)?;
        let ghost before = histogram_models(samples@);
        let sample = integer_sample(&state, gauge, done + 1, &layout);
        let ghost added = sample@;
        samples.push(sample);
        assert(histogram_models(samples@) =~= before.push(added));
        done = done + 1;
    }
    Ok(samples)
}

/// The running values of a float histogram chunk.
struct FloatState {
    timestamp: i64,
    timestamp_delta: i64,
    count: XorValue,
    zero_count: XorValue,
    sum: XorValue,
    positive: Vec<XorValue>,
    negative: Vec<XorValue>,
}

/// The running values of a float histogram chunk: times change by amounts, and what is written
/// are the changes of these amounts; everything else is written as differences of floats.
pub struct FloatModel {
    pub timestamp: i64,
    pub timestamp_delta: i64,
    pub count: XorValue,
    pub zero_count: XorValue,
    pub sum: XorValue,
    pub positive: Seq<XorValue>,
    pub negative: Seq<XorValue>,
}

impl View for FloatState {
    type V = FloatModel;

    closed spec fn view(&self) -> FloatModel {
        FloatModel {
            timestamp: self.timestamp,
            timestamp_delta: self.timestamp_delta,
            count: self.count,
            zero_count: self.zero_count,
            sum: self.sum,
            positive: self.positive@,
            negative: self.negative@,
        }
    }
}

/// `count` floats from a position on, behind those in `values`, and the position behind them.
pub open spec fn floats_from(
    bytes: Seq<u8>,
    position: int,
    count: int,
    values: Seq<XorValue>,
) -> Result<(Seq<XorValue>, int), ChunkError>
    decreases count,
{
    if count <= 0 {
        Ok((values, position))
    } else {
        match bits_at(bytes, position, 64) {
            Err(error) => Err(error),
            Ok((value, next)) => floats_from(
                bytes,
                next,
                count - 1,
                values.push(XorValue::first(value)),
            ),
        }
    }
}

/// The floats after the differences were read for those from `index` on, and the position behind
/// them.
pub open spec fn xors_from(
    bytes: Seq<u8>,
    position: int,
    values: Seq<XorValue>,
    index: int,
) -> Result<(Seq<XorValue>, int), ChunkError>
    decreases values.len() - index,
{
    if index < 0 || index >= values.len() {
        Ok((values, position))
    } else {
        match xor_at(bytes, position, values[index]) {
            Err(error) => Err(error),
            Ok((value, next)) => xors_from(bytes, next, values.update(index, value), index + 1),
        }
    }
}

/// The first histogram of a float chunk: time, count, zero count, sum and all buckets.
pub open spec fn float_first(bytes: Seq<u8>, position: int, positive: int, negative: int) -> Result<
    (FloatModel, int),
    ChunkError,
> {
    match varbit_int_at(bytes, position) {
        Err(error) => Err(error),
        Ok((timestamp, after_timestamp)) => match bits_at(bytes, after_timestamp, 64) {
            Err(error) => Err(error),
            Ok((count, after_count)) => match bits_at(bytes, after_count, 64) {
                Err(error) => Err(error),
                Ok((zero_count, after_zero)) => match bits_at(bytes, after_zero, 64) {
                    Err(error) => Err(error),
                    Ok((sum, after_sum)) => match floats_from(
                        bytes,
                        after_sum,
                        positive,
                        Seq::empty(),
                    ) {
                        Err(error) => Err(error),
                        Ok((positive_buckets, after_positive)) => match floats_from(
                            bytes,
                            after_positive,
                            negative,
                            Seq::empty(),
                        ) {
                            Err(error) => Err(error),
                            Ok((negative_buckets, end)) => Ok(
                                (
                                    FloatModel {
                                        timestamp: timestamp as i64,
                                        timestamp_delta: 0,
                                        count: XorValue::first(count),
                                        zero_count: XorValue::first(zero_count),
                                        sum: XorValue::first(sum),
                                        positive: positive_buckets,
                                        negative: negative_buckets,
                                    },
                                    end,
                                ),
                            ),
                        },
                    },
                },
            },
        },
    }
}

/// The histogram behind another one in a float chunk. One that marks a series as stale has no
/// buckets.
pub open spec fn float_next(bytes: Seq<u8>, position: int, state: FloatModel) -> Result<
    (FloatModel, int),
    ChunkError,
> {
    match varbit_int_at(bytes, position) {
        Err(error) => Err(error),
        Ok((timestamp_change, after_timestamp)) => match xor_at(
            bytes,
            after_timestamp,
            state.count,
        ) {
            Err(error) => Err(error),
            Ok((count, after_count)) => match xor_at(bytes, after_count, state.zero_count) {
                Err(error) => Err(error),
                Ok((zero_count, after_zero)) => match xor_at(bytes, after_zero, state.sum) {
                    Err(error) => Err(error),
                    Ok((sum, after_sum)) => {
                        let timestamp_delta = state.timestamp_delta.wrapping_add(
                            timestamp_change as i64,
                        );
                        let moved = FloatModel {
                            timestamp: state.timestamp.wrapping_add(timestamp_delta),
                            timestamp_delta,
                            count,
                            zero_count,
                            sum,
                            ..state
                        };
                        if sum.value == STALE_NAN_BITS {
                            Ok((moved, after_sum))
                        } else {
                            match xors_from(bytes, after_sum, state.positive, 0) {
                                Err(error) => Err(error),
                                Ok((positive, after_positive)) => match xors_from(
                                    bytes,
                                    after_positive,
                                    state.negative,
                                    0,
                                ) {
                                    Err(error) => Err(error),
                                    Ok((negative, end)) => Ok(
                                        (FloatModel { positive, negative, ..moved }, end),
                                    ),
                                },
                            }
                        }
                    },
                },
            },
        },
    }
}

/// The bit patterns of floats.
pub open spec fn float_patterns(values: Seq<XorValue>) -> Seq<u64> {
    values.map_values(|value: XorValue| value.value)
}

/// The histogram that the running values of a float chunk stand for.
pub open spec fn float_model(
    state: FloatModel,
    gauge: bool,
    index: int,
    layout: LayoutModel,
) -> HistogramModel {
    if state.sum.value == STALE_NAN_BITS {
        stale_model(state.timestamp, state.sum.value, true)
    } else {
        HistogramModel {
            timestamp: state.timestamp,
            schema: layout.schema,
            count: HistogramCount::Float(state.count.value),
            sum: state.sum.value,
            zero_threshold: layout.zero_threshold,
            zero_count: HistogramCount::Float(state.zero_count.value),
            reset_hint: reset_hint_of(gauge, index),
            positive_spans: layout.positive_spans,
            negative_spans: layout.negative_spans,
            positive_buckets: BucketsModel::Float(float_patterns(state.positive)),
            negative_buckets: BucketsModel::Float(float_patterns(state.negative)),
            custom_values: layout.custom_values,
        }
    }
}

/// The histograms of a float chunk from the one with the given index up to the last one, behind
/// those in `samples`. `state` holds the running values of the one before.
pub open spec fn float_samples_from(
    bytes: Seq<u8>,
    position: int,
    state: FloatModel,
    index: int,
    count: int,
    gauge: bool,
    layout: LayoutModel,
    samples: Seq<HistogramModel>,
) -> Result<Seq<HistogramModel>, ChunkError>
    decreases count - index + 1,
{
    if index > count {
        Ok(samples)
    } else {
        match float_next(bytes, position, state) {
            Err(error) => Err(error),
            Ok((next, end)) => float_samples_from(
                bytes,
                end,
                next,
                index + 1,
                count,
                gauge,
                layout,
                samples.push(float_model(next, gauge, index, layout)),
            ),
        }
    }
}

/// The histograms of a float histogram chunk.
pub open spec fn float_histogram_samples(payload: Seq<u8>) -> Result<
    Seq<HistogramModel>,
    ChunkError,
> {
    if payload.len() < HISTOGRAM_HEADER_SIZE {
        Err(ChunkError::TruncatedHistogramHeader)
    } else if sample_count(payload) == 0 {
        Ok(Seq::empty())
    } else {
        let bytes = payload.skip(HISTOGRAM_HEADER_SIZE as int);
        match chunk_layout(payload) {
            Err(error) => Err(error),
            Ok((layout, positive, negative, position)) => match float_first(
                bytes,
                position,
                positive,
                negative,
            ) {
                Err(error) => Err(error),
                Ok((state, next)) => float_samples_from(
                    bytes,
                    next,
                    state,
                    2,
                    sample_count(payload),
                    is_gauge(payload),
                    layout,
                    seq![float_model(state, is_gauge(payload), 1, layout)],
                ),
            },
        }
    }
}

spec fn all_valid(values: Seq<XorValue>) -> bool {
    forall|i: int| 0 <= i < values.len() ==> (#[trigger] values[i]).valid()
}

impl FloatState {
    spec fn valid(&self) -> bool {
        &&& self.count.valid()
        &&& self.zero_count.valid()
        &&& self.sum.valid()
        &&& all_valid(self.positive@)
        &&& all_valid(self.negative@)
    }
}

fn read_floats(reader: &mut BitReader<'_>, count: usize) -> (result: Result<
    Vec<XorValue>,
    ChunkError,
>)
    requires
        old(reader).valid(),
    ensures
        final(reader).valid(),
        final(reader).stream() == old(reader).stream(),
        match result {
            Ok(values) => {
                &&& floats_from(
                    old(reader).stream(),
                    old(reader).position(),
                    count as int,
                    Seq::empty(),
                ) == Ok::<(Seq<XorValue>, int), ChunkError>((values@, final(reader).position()))
                &&& all_valid(values@)
            },
            Err(error) => floats_from(
                old(reader).stream(),
                old(reader).position(),
                count as int,
                Seq::empty(),
            ) == Err::<(Seq<XorValue>, int), ChunkError>(error),
        },
{
    let mut values: Vec<XorValue> = Vec::new();
    while values.len() < count
        invariant
            reader.valid(),
            reader.stream() == old(reader).stream(),
            values.len() <= count,
            all_valid(values@),
            floats_from(old(reader).stream(), old(reader).position(), count as int, Seq::empty())
                == floats_from(
                reader.stream(),
                reader.position(),
                count - values.len(),
                values@,
            ),
        decreases count - values.len(),
    {
        let value: u64 = reader.read_bits(64)?;
        values.push(XorValue { value, leading: 0, trailing: 0 });
    }
    Ok(values)
}

fn read_xors(reader: &mut BitReader<'_>, values: &mut Vec<XorValue>) -> (result: Result<
    (),
    ChunkError,
>)
    requires
        old(reader).valid(),
        all_valid(old(values)@),
    ensures
        final(reader).valid(),
        final(reader).stream() == old(reader).stream(),
        all_valid(final(values)@),
        match result {
            Ok(_) => xors_from(old(reader).stream(), old(reader).position(), old(values)@, 0)
                == Ok::<(Seq<XorValue>, int), ChunkError>(
                (final(values)@, final(reader).position()),
            ),
            Err(error) => xors_from(old(reader).stream(), old(reader).position(), old(values)@, 0)
                == Err::<(Seq<XorValue>, int), ChunkError>(error),
        },
{
    let mut index: usize = 0;
    while index < values.len()
        invariant
            reader.valid(),
            reader.stream() == old(reader).stream(),
            index <= values.len(),
            all_valid(values@),
            xors_from(old(reader).stream(), old(reader).position(), old(values)@, 0) == xors_from(
                reader.stream(),
                reader.position(),
                values@,
                index as int,
            ),
        decreases values.len() - index,
    {
        let value = read_xor(reader, values[index])?;
        values.set(index, value);
        index = index + 1;
    }
    Ok(())
}

fn patterns(values: &Vec<XorValue>) -> (result: Vec<u64>)
    ensures
        result@ == float_patterns(values@),
{
    let mut result: Vec<u64> = Vec::new();
    let mut index: usize = 0;
    while index < values.len()
        invariant
            index <= values.len(),
            result@ =~= float_patterns(values@.take(index as int)),
        decreases values.len() - index,
    {
        result.push(values[index].value);
        index = index + 1;
    }
    assert(values@.take(index as int) =~= values@);
    result
}

fn float_sample(state: &FloatState, gauge: bool, index: u16, layout: &Layout) -> (sample:
    HistogramSample)
    ensures
        sample@ == float_model(state@, gauge, index as int, layout@),
{
    if state.sum.value == STALE_NAN_BITS {
        return stale_sample(state.timestamp, state.sum.value, true);
    }
    HistogramSample {
        timestamp: state.timestamp,
        schema: layout.schema,
        count: HistogramCount::Float(state.count.value),
        sum: state.sum.value,
        zero_threshold: layout.zero_threshold,
        zero_count: HistogramCount::Float(state.zero_count.value),
        reset_hint: reset_hint(gauge, index),
        positive_spans: copy_spans(&layout.positive_spans),
        negative_spans: copy_spans(&layout.negative_spans),
        positive_buckets: HistogramBuckets::Float(patterns(&state.positive)),
        negative_buckets: HistogramBuckets::Float(patterns(&state.negative)),
        custom_values: vstd::slice::slice_to_vec(layout.custom_values.as_slice()),
    }
}

fn read_first_float(reader: &mut BitReader<'_>, positive: usize, negative: usize) -> (result:
    Result<FloatState, ChunkError>)
    requires
        old(reader).valid(),
    ensures
        final(reader).valid(),
        final(reader).stream() == old(reader).stream(),
        match result {
            Ok(state) => {
                &&& float_first(
                    old(reader).stream(),
                    old(reader).position(),
                    positive as int,
                    negative as int,
                ) == Ok::<(FloatModel, int), ChunkError>((state@, final(reader).position()))
                &&& state.valid()
            },
            Err(error) => float_first(
                old(reader).stream(),
                old(reader).position(),
                positive as int,
                negative as int,
            ) == Err::<(FloatModel, int), ChunkError>(error),
        },
{
    let timestamp: i64 = reader.read_varbit_int()?;
    let count: u64 = reader.read_bits(64)?;
    let zero_count: u64 = reader.read_bits(64)?;
    let sum: u64 = reader.read_bits(64)?;
    let positive_buckets = read_floats(reader, positive)?;
    let negative_buckets = read_floats(reader, negative)?;
    Ok(
        FloatState {
            timestamp,
            timestamp_delta: 0,
            count: XorValue { value: count, leading: 0, trailing: 0 },
            zero_count: XorValue { value: zero_count, leading: 0, trailing: 0 },
            sum: XorValue { value: sum, leading: 0, trailing: 0 },
            positive: positive_buckets,
            negative: negative_buckets,
        },
    )
}

fn read_next_float(reader: &mut BitReader<'_>, state: &mut FloatState) -> (result: Result<
    (),
    ChunkError,
>)
    requires
        old(reader).valid(),
        old(state).valid(),
    ensures
        final(reader).valid(),
        final(reader).stream() == old(reader).stream(),
        final(state).valid(),
        match result {
            Ok(_) => float_next(old(reader).stream(), old(reader).position(), old(state)@) == Ok::<
                (FloatModel, int),
                ChunkError,
            >((final(state)@, final(reader).position())),
            Err(error) => float_next(old(reader).stream(), old(reader).position(), old(state)@)
                == Err::<(FloatModel, int), ChunkError>(error),
        },
{
    let timestamp_change: i64 = reader.read_varbit_int()?;
    state.timestamp_delta = state.timestamp_delta.wrapping_add(timestamp_change);
    state.timestamp = state.timestamp.wrapping_add(state.timestamp_delta);
    state.count = read_xor(reader, state.count)?;
    state.zero_count = read_xor(reader, state.zero_count)?;
    state.sum = read_xor(reader, state.sum)?;
    if state.sum.value == STALE_NAN_BITS {
        return Ok(());
    }
    read_xors(reader, &mut state.positive)?;
    read_xors(reader, &mut state.negative)?;
    Ok(())
}

/// Decodes the histograms of a float histogram chunk.
pub fn decode_float_histogram(payload: &[u8]) -> (result: Result<
    Vec<HistogramSample>,
    ChunkError,
>)
    ensures
        match result {
            Ok(samples) => float_histogram_samples(payload@) == Ok::<
                Seq<HistogramModel>,
                ChunkError,
            >(histogram_models(samples@)),
            Err(error) => float_histogram_samples(payload@) == Err::<
                Seq<HistogramModel>,
                ChunkError,
            >(error),
        },
{
    let (count, gauge, mut reader) = chunk_header(payload)?;
    let mut samples: Vec<HistogramSample> = Vec::new();
    if count == 0 {
        assert(histogram_models(samples@) =~= Seq::<HistogramModel>::empty());
        return Ok(samples);
    }
    let ghost bytes = payload@.skip(HISTOGRAM_HEADER_SIZE as int);
    let layout = read_layout(&mut reader)?;
    let positive: usize = bucket_count(&layout.positive_spans)?;
    let negative: usize = bucket_count(&layout.negative_spans)?;
    let mut state = read_first_float(&mut reader, positive, negative)?;
    samples.push(float_sample(&state, gauge, 1, &layout));
    assert(histogram_models(samples@) =~= seq![float_model(state@, gauge, 1, layout@)]);
    let mut done: u16 = 1;
    while done < count
        invariant
            1 <= done <= count,
            reader.valid(),
            reader.stream() == bytes,
            state.valid(),
            float_histogram_samples(payload@) == float_samples_from(
                bytes,
                reader.position(),
                state@,
                done + 1,
                count as int,
                gauge,
                layout@,
                histogram_models(samples@),
            ),
        decreases count - done,
    {
        read_next_float(&mut reader, &mut state)?;
        let ghost before = histogram_models(samples@);
        let sample = float_sample(&state, gauge, done + 1, &layout);
        let ghost added = sample@;
        samples.push(sample);
        assert(histogram_models(samples@) =~= before.push(added));
        done = done + 1;
    }
    Ok(samples)
}

/// The number of buckets that have contents.
pub open spec fn bucket_contents(buckets: BucketsModel) -> nat {
    match buckets {
        BucketsModel::Integer(values) => values.len(),
        BucketsModel::Float(values) => values.len(),
    }
}

/// A histogram has contents for exactly the buckets that its spans cover, and one that marks a
/// series as stale has no spans at all.
pub open spec fn well_shaped(sample: HistogramModel) -> bool {
    &&& bucket_contents(sample.positive_buckets) == span_buckets(sample.positive_spans)
    &&& bucket_contents(sample.negative_buckets) == span_buckets(sample.negative_spans)
}

spec fn all_well_shaped(samples: Seq<HistogramModel>) -> bool {
    forall|i: int| 0 <= i < samples.len() ==> well_shaped(#[trigger] samples[i])
}

proof fn lemma_span_buckets_positive(spans: Seq<Span>)
    ensures
        span_buckets(spans) >= 0,
    decreases spans.len(),
{
    if spans.len() > 0 {
        lemma_span_buckets_positive(spans.drop_last());
    }
}

proof fn lemma_ints_count(bytes: Seq<u8>, position: int, count: int, values: Seq<i64>)
    requires
        count >= 0,
    ensures
        ints_from(bytes, position, count, values) matches Ok((all, end)) ==> all.len()
            == values.len() + count,
    decreases count,
{
    if count > 0 {
        match varbit_int_at(bytes, position) {
            Err(error) => {},
            Ok((value, next)) => {
                lemma_ints_count(bytes, next, count - 1, values.push(value as i64));
            },
        }
    }
}

proof fn lemma_deltas_count(
    bytes: Seq<u8>,
    position: int,
    buckets: Seq<i64>,
    deltas: Seq<i64>,
    index: int,
)
    requires
        0 <= index,
    ensures
        deltas_from(bytes, position, buckets, deltas, index) matches Ok(((all, changes), end))
            ==> all.len() == buckets.len(),
    decreases buckets.len() - index,
{
    if index < buckets.len() {
        match varbit_int_at(bytes, position) {
            Err(error) => {},
            Ok((change, next)) => {
                let delta = deltas[index].wrapping_add(change as i64);
                lemma_deltas_count(
                    bytes,
                    next,
                    buckets.update(index, buckets[index].wrapping_add(delta)),
                    deltas.update(index, delta),
                    index + 1,
                );
            },
        }
    }
}

proof fn lemma_integer_next_shape(bytes: Seq<u8>, position: int, state: IntegerModel)
    ensures
        integer_next(bytes, position, state) matches Ok((next, end)) ==> next.positive.len()
            == state.positive.len() && next.negative.len() == state.negative.len(),
{
    match integer_next(bytes, position, state) {
        Err(error) => {},
        Ok((next, end)) => {
            let after_timestamp = varbit_int_at(bytes, position)->Ok_0.1;
            let after_count = varbit_int_at(bytes, after_timestamp)->Ok_0.1;
            let after_zero = varbit_int_at(bytes, after_count)->Ok_0.1;
            let (sum, after_sum) = xor_at(bytes, after_zero, state.sum)->Ok_0;
            lemma_deltas_count(bytes, after_sum, state.positive, state.positive_deltas, 0);
            if sum.value != STALE_NAN_BITS {
                let after_positive = deltas_from(
                    bytes,
                    after_sum,
                    state.positive,
                    state.positive_deltas,
                    0,
                )->Ok_0.1;
                lemma_deltas_count(bytes, after_positive, state.negative, state.negative_deltas, 0);
            }
        },
    }
}

proof fn lemma_integer_samples_shape(
    bytes: Seq<u8>,
    position: int,
    state: IntegerModel,
    index: int,
    count: int,
    gauge: bool,
    layout: LayoutModel,
    samples: Seq<HistogramModel>,
)
    requires
        state.positive.len() == span_buckets(layout.positive_spans),
        state.negative.len() == span_buckets(layout.negative_spans),
        all_well_shaped(samples),
        samples.len() == index - 1,
        index <= count + 1,
    ensures
        integer_samples_from(bytes, position, state, index, count, gauge, layout, samples) matches
            Ok(all) ==> all.len() == count && all_well_shaped(all),
    decreases count - index + 1,
{
    if index <= count {
        match integer_next(bytes, position, state) {
            Err(error) => {},
            Ok((next, end)) => {
                lemma_integer_next_shape(bytes, position, state);
                let grown = samples.push(integer_model(next, gauge, index, layout));
                assert forall|i: int| 0 <= i < grown.len() implies well_shaped(
                    #[trigger] grown[i],
                ) by {
                    if i < samples.len() {
                        assert(grown[i] == samples[i]);
                    }
                }
                lemma_integer_samples_shape(
                    bytes,
                    end,
                    next,
                    index + 1,
                    count,
                    gauge,
                    layout,
                    grown,
                );
            },
        }
    }
}

/// An integer histogram chunk that is accepted holds as many histograms as its header says, and
/// each of them has contents for exactly the buckets that its spans cover.
pub proof fn law_histogram_shape(payload: Seq<u8>)
    ensures
        histogram_samples(payload) matches Ok(samples) ==> samples.len() == sample_count(payload)
            && forall|i: int| 0 <= i < samples.len() ==> well_shaped(#[trigger] samples[i]),
{
    if histogram_samples(payload) is Ok && sample_count(payload) != 0 {
        let bytes = payload.skip(HISTOGRAM_HEADER_SIZE as int);
        let (layout, positive, negative, position) = chunk_layout(payload)->Ok_0;
        lemma_span_buckets_positive(layout.positive_spans);
        lemma_span_buckets_positive(layout.negative_spans);
        let (state, next) = integer_first(bytes, position, positive, negative)->Ok_0;
        let after_timestamp = varbit_int_at(bytes, position)->Ok_0.1;
        let after_count = varbit_uint_at(bytes, after_timestamp)->Ok_0.1;
        let after_zero = varbit_uint_at(bytes, after_count)->Ok_0.1;
        let after_sum = bits_at(bytes, after_zero, 64)->Ok_0.1;
        lemma_ints_count(bytes, after_sum, positive, Seq::empty());
        let after_positive = ints_from(bytes, after_sum, positive, Seq::empty())->Ok_0.1;
        lemma_ints_count(bytes, after_positive, negative, Seq::empty());
        lemma_integer_samples_shape(
            bytes,
            next,
            state,
            2,
            sample_count(payload),
            is_gauge(payload),
            layout,
            seq![integer_model(state, is_gauge(payload), 1, layout)],
        );
    }
}

proof fn lemma_floats_count(bytes: Seq<u8>, position: int, count: int, values: Seq<XorValue>)
    requires
        count >= 0,
    ensures
        floats_from(bytes, position, count, values) matches Ok((all, end)) ==> all.len()
            == values.len() + count,
    decreases count,
{
    if count > 0 {
        match bits_at(bytes, position, 64) {
            Err(error) => {},
            Ok((value, next)) => {
                lemma_floats_count(bytes, next, count - 1, values.push(XorValue::first(value)));
            },
        }
    }
}

proof fn lemma_xors_count(bytes: Seq<u8>, position: int, values: Seq<XorValue>, index: int)
    requires
        0 <= index,
    ensures
        xors_from(bytes, position, values, index) matches Ok((all, end)) ==> all.len()
            == values.len(),
    decreases values.len() - index,
{
    if index < values.len() {
        match xor_at(bytes, position, values[index]) {
            Err(error) => {},
            Ok((value, next)) => {
                lemma_xors_count(bytes, next, values.update(index, value), index + 1);
            },
        }
    }
}

proof fn lemma_float_next_shape(bytes: Seq<u8>, position: int, state: FloatModel)
    ensures
        float_next(bytes, position, state) matches Ok((next, end)) ==> next.positive.len()
            == state.positive.len() && next.negative.len() == state.negative.len(),
{
    match float_next(bytes, position, state) {
        Err(error) => {},
        Ok((next, end)) => {
            let after_timestamp = varbit_int_at(bytes, position)->Ok_0.1;
            let after_count = xor_at(bytes, after_timestamp, state.count)->Ok_0.1;
            let after_zero = xor_at(bytes, after_count, state.zero_count)->Ok_0.1;
            let (sum, after_sum) = xor_at(bytes, after_zero, state.sum)->Ok_0;
            lemma_xors_count(bytes, after_sum, state.positive, 0);
            if sum.value != STALE_NAN_BITS {
                let after_positive = xors_from(bytes, after_sum, state.positive, 0)->Ok_0.1;
                lemma_xors_count(bytes, after_positive, state.negative, 0);
            }
        },
    }
}

proof fn lemma_float_samples_shape(
    bytes: Seq<u8>,
    position: int,
    state: FloatModel,
    index: int,
    count: int,
    gauge: bool,
    layout: LayoutModel,
    samples: Seq<HistogramModel>,
)
    requires
        state.positive.len() == span_buckets(layout.positive_spans),
        state.negative.len() == span_buckets(layout.negative_spans),
        all_well_shaped(samples),
        samples.len() == index - 1,
        index <= count + 1,
    ensures
        float_samples_from(bytes, position, state, index, count, gauge, layout, samples) matches
            Ok(all) ==> all.len() == count && all_well_shaped(all),
    decreases count - index + 1,
{
    if index <= count {
        match float_next(bytes, position, state) {
            Err(error) => {},
            Ok((next, end)) => {
                lemma_float_next_shape(bytes, position, state);
                let grown = samples.push(float_model(next, gauge, index, layout));
                assert forall|i: int| 0 <= i < grown.len() implies well_shaped(
                    #[trigger] grown[i],
                ) by {
                    if i < samples.len() {
                        assert(grown[i] == samples[i]);
                    }
                }
                lemma_float_samples_shape(
                    bytes,
                    end,
                    next,
                    index + 1,
                    count,
                    gauge,
                    layout,
                    grown,
                );
            },
        }
    }
}

/// A float histogram chunk that is accepted holds as many histograms as its header says, and
/// each of them has contents for exactly the buckets that its spans cover.
pub proof fn law_float_histogram_shape(payload: Seq<u8>)
    ensures
        float_histogram_samples(payload) matches Ok(samples) ==> samples.len() == sample_count(
            payload,
        ) && forall|i: int| 0 <= i < samples.len() ==> well_shaped(#[trigger] samples[i]),
{
    if float_histogram_samples(payload) is Ok && sample_count(payload) != 0 {
        let bytes = payload.skip(HISTOGRAM_HEADER_SIZE as int);
        let (layout, positive, negative, position) = chunk_layout(payload)->Ok_0;
        lemma_span_buckets_positive(layout.positive_spans);
        lemma_span_buckets_positive(layout.negative_spans);
        let (state, next) = float_first(bytes, position, positive, negative)->Ok_0;
        let after_timestamp = varbit_int_at(bytes, position)->Ok_0.1;
        let after_count = bits_at(bytes, after_timestamp, 64)->Ok_0.1;
        let after_zero = bits_at(bytes, after_count, 64)->Ok_0.1;
        let after_sum = bits_at(bytes, after_zero, 64)->Ok_0.1;
        lemma_floats_count(bytes, after_sum, positive, Seq::empty());
        let after_positive = floats_from(bytes, after_sum, positive, Seq::empty())->Ok_0.1;
        lemma_floats_count(bytes, after_positive, negative, Seq::empty());
        lemma_float_samples_shape(
            bytes,
            next,
            state,
            2,
            sample_count(payload),
            is_gauge(payload),
            layout,
            seq![float_model(state, is_gauge(payload), 1, layout)],
        );
    }
}

} // verus!
