//! How native histogram chunks are written, and the laws that reading them undoes it.

#[allow(unused_imports)]
use vstd::arithmetic::power2::pow2;
use vstd::prelude::*;

#[allow(unused_imports)]
use crate::bits::{
    bit_at, bits_at, bits_value, fits_signed, fits_unsigned, holds_bits,
    law_written_ints_are_read, law_written_uints_are_read, lemma_bit_parts,
    lemma_number_bits_length, lemma_written_number, number_bits, varbit_int_at, varbit_uint_at, written_int, written_uint, ChunkError,
};
#[allow(unused_imports)]
use crate::histogram::{
    bounds_at, bounds_from, deltas_from, float_first, float_histogram_samples, float_model,
    float_next, float_samples_from, floats_from, histogram_samples, integer_first, integer_model,
    integer_next, integer_samples_from, ints_from, layout_at, span_buckets, spans_at, spans_from,
    xor_at, xors_from, zero_threshold_at, zeros, BucketsModel, CustomBound, FloatModel,
    HistogramCount, HistogramModel, IntegerModel, LayoutModel, Span, XorValue,
};

verus! {

/// Reading undoes writing: a threshold of zero is one byte of zero, any other one may be written as
/// the byte 255 and its bit pattern, and the byte `b` between them stands for two to the power of
/// `b - 244`, a float with that exponent and no fraction.
#[verifier::rlimit(40)]
pub proof fn law_written_thresholds_are_read(
    bytes: Seq<u8>,
    position: int,
    byte: int,
    pattern: int,
)
    requires
        0 <= byte <= 255,
        0 <= pattern <= u64::MAX,
        holds_bits(
            bytes,
            position,
            number_bits(byte, 8) + (if byte == 255 {
                number_bits(pattern, 64)
            } else {
                Seq::empty()
            }),
        ),
    ensures
        byte == 0 ==> zero_threshold_at(bytes, position) == Ok::<(int, int), ChunkError>(
            (0, position + 8),
        ),
        byte == 255 ==> zero_threshold_at(bytes, position) == Ok::<(int, int), ChunkError>(
            (pattern, position + 72),
        ),
        0 < byte < 255 ==> zero_threshold_at(bytes, position) == Ok::<(int, int), ChunkError>(
            ((1023 + byte - 244) * 0x10_0000_0000_0000, position + 8),
        ),
{
    vstd::arithmetic::power2::lemma2_to64();
    vstd::arithmetic::power2::lemma2_to64_rest();
    let rest = if byte == 255 {
        number_bits(pattern, 64)
    } else {
        Seq::empty()
    };
    lemma_bit_parts(bytes, position, number_bits(byte, 8), rest);
    lemma_written_number(bytes, position, byte, 8);
    if byte == 255 {
        lemma_written_number(bytes, position + 8, pattern, 64);
    }
}

/// The bits of spans, behind their number: of each the length and the distance from the one before.
pub open spec fn span_bits(spans: Seq<Span>) -> Seq<int>
    decreases spans.len(),
{
    if spans.len() == 0 {
        Seq::empty()
    } else {
        written_uint(spans[0].length as int, 0) + (written_int(spans[0].offset as int, 0)
            + span_bits(spans.drop_first()))
    }
}

proof fn lemma_fits_64(value: int)
    requires
        i64::MIN <= value <= u64::MAX,
    ensures
        0 <= value ==> fits_unsigned(value, 64),
        value <= i64::MAX ==> fits_signed(value, 64),
{
    vstd::arithmetic::power2::lemma2_to64_rest();
}

#[verifier::rlimit(40)]
proof fn lemma_written_spans(bytes: Seq<u8>, position: int, before: Seq<Span>, spans: Seq<Span>)
    requires
        holds_bits(bytes, position, span_bits(spans)),
    ensures
        spans_from(bytes, position, spans.len() as int, before) == Ok::<
            (Seq<Span>, int),
            ChunkError,
        >((before + spans, position + span_bits(spans).len())),
    decreases spans.len(),
{
    if spans.len() == 0 {
        assert(before + spans =~= before);
    } else {
        let span = spans[0];
        let rest = spans.drop_first();
        let a = written_uint(span.length as int, 0);
        let b = written_int(span.offset as int, 0);
        lemma_fits_64(span.length as int);
        lemma_fits_64(span.offset as int);
        lemma_bit_parts(bytes, position, a, b + span_bits(rest));
        lemma_bit_parts(bytes, position + a.len(), b, span_bits(rest));
        law_written_uints_are_read(bytes, position, span.length as int);
        law_written_ints_are_read(bytes, position + a.len(), span.offset as int);
        assert(Span { offset: span.offset, length: span.length } == span);
        lemma_written_spans(bytes, position + a.len() + b.len(), before.push(span), rest);
        assert(before.push(span) + rest =~= before + spans);
    }
}

/// The bits of custom bounds, behind their number: of a number of thousandths one more than it, of
/// any other bound a zero and its bit pattern.
pub open spec fn bound_bits(bounds: Seq<CustomBound>) -> Seq<int>
    decreases bounds.len(),
{
    if bounds.len() == 0 {
        Seq::empty()
    } else {
        match bounds[0] {
            CustomBound::Thousandths(number) => written_uint(number + 1, 0) + bound_bits(
                bounds.drop_first(),
            ),
            CustomBound::Bits(pattern) => written_uint(0, 0) + (number_bits(pattern as int, 64)
                + bound_bits(bounds.drop_first())),
        }
    }
}

/// Bounds can be written: no number of thousandths is the largest one of 64 bits.
pub open spec fn bounds_can_be_written(bounds: Seq<CustomBound>) -> bool {
    forall|i: int|
        0 <= i < bounds.len() ==> ((#[trigger] bounds[i]) matches CustomBound::Thousandths(number)
            ==> number < u64::MAX)
}

#[verifier::rlimit(40)]
proof fn lemma_written_bounds(
    bytes: Seq<u8>,
    position: int,
    before: Seq<CustomBound>,
    bounds: Seq<CustomBound>,
)
    requires
        bounds_can_be_written(bounds),
        holds_bits(bytes, position, bound_bits(bounds)),
    ensures
        bounds_from(bytes, position, bounds.len() as int, before) == Ok::<
            (Seq<CustomBound>, int),
            ChunkError,
        >((before + bounds, position + bound_bits(bounds).len())),
    decreases bounds.len(),
{
    if bounds.len() == 0 {
        assert(before + bounds =~= before);
    } else {
        let rest = bounds.drop_first();
        let bound = bounds[0];
        vstd::arithmetic::power2::lemma2_to64_rest();
        assert(bounds_can_be_written(rest)) by {
            assert forall|i: int| 0 <= i < rest.len() implies ((
            #[trigger] rest[i]) matches CustomBound::Thousandths(number) ==> number < u64::MAX) by {
                assert(rest[i] == bounds[i + 1]);
            }
        }
        match bound {
            CustomBound::Thousandths(number) => {
                let a = written_uint(number + 1, 0);
                lemma_bit_parts(bytes, position, a, bound_bits(rest));
                law_written_uints_are_read(bytes, position, number + 1);
                lemma_written_bounds(bytes, position + a.len(), before.push(bound), rest);
            },
            CustomBound::Bits(pattern) => {
                let a = written_uint(0, 0);
                let b = number_bits(pattern as int, 64);
                lemma_bit_parts(bytes, position, a, b + bound_bits(rest));
                lemma_bit_parts(bytes, position + a.len(), b, bound_bits(rest));
                law_written_uints_are_read(bytes, position, 0);
                lemma_written_number(bytes, position + a.len(), pattern as int, 64);
                lemma_written_bounds(bytes, position + a.len() + 64, before.push(bound), rest);
            },
        }
        assert(before.push(bound) + rest =~= before + bounds);
    }
}

/// The bits of a layout, whose threshold is written as a bit pattern: the threshold, the schema, the
/// positive spans, the negative spans, and for the custom schema the bounds.
pub open spec fn layout_bits(layout: LayoutModel) -> Seq<int> {
    number_bits(255, 8) + (number_bits(layout.zero_threshold as int, 64) + (written_int(
        layout.schema as int,
        0,
    ) + (written_uint(layout.positive_spans.len() as int, 0) + (span_bits(layout.positive_spans) + (
    written_uint(layout.negative_spans.len() as int, 0) + (span_bits(layout.negative_spans) + (
    if layout.schema == -53 {
        written_uint(layout.custom_values.len() as int, 0) + bound_bits(layout.custom_values)
    } else {
        Seq::empty()
    })))))))
}

/// A layout can be written: its schema is the custom one, with bounds, or one from -4 to 8, without.
pub open spec fn layout_can_be_written(layout: LayoutModel) -> bool {
    &&& layout.schema == -53 || -4 <= layout.schema <= 8 && layout.custom_values.len() == 0
    &&& bounds_can_be_written(layout.custom_values)
    &&& layout.custom_values.len() <= u64::MAX
    &&& layout.positive_spans.len() <= u64::MAX
    &&& layout.negative_spans.len() <= u64::MAX
}

/// Reading undoes writing: a layout is read where it was written.
#[verifier::rlimit(40)]
pub proof fn law_written_layouts_are_read(bytes: Seq<u8>, position: int, layout: LayoutModel)
    requires
        layout_can_be_written(layout),
        holds_bits(bytes, position, layout_bits(layout)),
    ensures
        layout_at(bytes, position) == Ok::<(LayoutModel, int), ChunkError>(
            (layout, position + layout_bits(layout).len()),
        ),
{
    let a = number_bits(255, 8);
    let b = number_bits(layout.zero_threshold as int, 64);
    let c = written_int(layout.schema as int, 0);
    let d = written_uint(layout.positive_spans.len() as int, 0);
    let e = span_bits(layout.positive_spans);
    let f = written_uint(layout.negative_spans.len() as int, 0);
    let g = span_bits(layout.negative_spans);
    let h = if layout.schema == -53 {
        written_uint(layout.custom_values.len() as int, 0) + bound_bits(layout.custom_values)
    } else {
        Seq::empty()
    };
    let after_g = g + h;
    let after_f = f + after_g;
    let after_e = e + after_f;
    let after_d = d + after_e;
    let after_c = c + after_d;
    assert(a + (b + after_c) =~= (a + b) + after_c);
    lemma_bit_parts(bytes, position, a + b, after_c);
    law_written_thresholds_are_read(bytes, position, 255, layout.zero_threshold as int);
    lemma_number_bits_length(255, 8);
    lemma_number_bits_length(layout.zero_threshold as int, 64);
    let p = position + 72;
    lemma_bit_parts(bytes, p, c, after_d);
    lemma_fits_64(layout.schema as int);
    law_written_ints_are_read(bytes, p, layout.schema as int);
    let p = p + c.len();
    lemma_bit_parts(bytes, p, d, after_e);
    lemma_fits_64(layout.positive_spans.len() as int);
    law_written_uints_are_read(bytes, p, layout.positive_spans.len() as int);
    let p = p + d.len();
    lemma_bit_parts(bytes, p, e, after_f);
    lemma_written_spans(bytes, p, Seq::empty(), layout.positive_spans);
    assert(Seq::<Span>::empty() + layout.positive_spans =~= layout.positive_spans);
    let p = p + e.len();
    lemma_bit_parts(bytes, p, f, after_g);
    lemma_fits_64(layout.negative_spans.len() as int);
    law_written_uints_are_read(bytes, p, layout.negative_spans.len() as int);
    let p = p + f.len();
    lemma_bit_parts(bytes, p, g, h);
    lemma_written_spans(bytes, p, Seq::empty(), layout.negative_spans);
    assert(Seq::<Span>::empty() + layout.negative_spans =~= layout.negative_spans);
    let p = p + g.len();
    if layout.schema == -53 {
        let count = written_uint(layout.custom_values.len() as int, 0);
        lemma_bit_parts(bytes, p, count, bound_bits(layout.custom_values));
        lemma_fits_64(layout.custom_values.len() as int);
        law_written_uints_are_read(bytes, p, layout.custom_values.len() as int);
        lemma_written_bounds(bytes, p + count.len(), Seq::empty(), layout.custom_values);
        assert(Seq::<CustomBound>::empty() + layout.custom_values =~= layout.custom_values);
    } else {
        assert(layout.custom_values =~= Seq::<CustomBound>::empty());
    }
}

/// Bits say how a float follows another one: a zero bit that it is the same; the bits 10 that the
/// difference of the patterns stands in the window of the last difference; the bits 11 that it stands
/// in a window of its own, whose leading zeros and whose size (0 for 64) come first. `next` keeps the
/// window that was used last.
pub open spec fn xor_bits_say(bits: Seq<int>, previous: XorValue, next: XorValue, delta: int) -> bool {
    let size = 64 - next.leading - next.trailing;
    ||| bits == seq![0int] && next == previous
    ||| {
        &&& bits == seq![1int, 0] + number_bits(delta, size as nat)
        &&& next.leading == previous.leading
        &&& next.trailing == previous.trailing
        &&& 0 <= delta < pow2(size as nat)
        &&& delta * pow2(next.trailing as nat) == previous.value ^ next.value
    }
    ||| {
        &&& bits == seq![1int, 1] + (number_bits(next.leading as int, 5) + (number_bits(
            size % 64,
            6,
        ) + number_bits(delta, size as nat)))
        &&& next.leading <= 31
        &&& next.leading + next.trailing <= 63
        &&& 0 <= delta < pow2(size as nat)
        &&& delta * pow2(next.trailing as nat) == previous.value ^ next.value
    }
}

proof fn lemma_bit(bytes: Seq<u8>, position: int, bits: Seq<int>, i: int)
    requires
        holds_bits(bytes, position, bits),
        0 <= i < bits.len(),
    ensures
        bits_at(bytes, position + i, 1) == Ok::<(int, int), ChunkError>(
            (bits[i], position + i + 1),
        ),
{
    reveal_with_fuel(bits_value, 2);
    assert(bits[i] == bit_at(bytes, position + i));
}

proof fn lemma_difference(previous: u64, next: u64, delta: int, trailing: u64)
    requires
        trailing <= 63,
        0 <= delta,
        delta * pow2(trailing as nat) == previous ^ next,
    ensures
        delta <= u64::MAX,
        previous ^ ((delta as u64) << trailing) == next,
{
    vstd::arithmetic::power2::lemma_pow2_pos(trailing as nat);
    assert(delta <= delta * pow2(trailing as nat)) by (nonlinear_arith)
        requires
            delta >= 0,
            pow2(trailing as nat) >= 1,
    ;
    let small = delta as u64;
    vstd::bits::lemma_u64_shl_is_mul(small, trailing);
    assert((small << trailing) == previous ^ next);
    assert(previous ^ (previous ^ next) == next) by (bit_vector);
}

proof fn lemma_in_last_window(
    bytes: Seq<u8>,
    position: int,
    previous: XorValue,
    next: XorValue,
    delta: int,
)
    requires
        previous.valid(),
        next.leading == previous.leading,
        next.trailing == previous.trailing,
        0 <= delta < pow2((64 - next.leading - next.trailing) as nat),
        delta * pow2(next.trailing as nat) == previous.value ^ next.value,
        holds_bits(
            bytes,
            position,
            seq![1int, 0] + number_bits(delta, (64 - next.leading - next.trailing) as nat),
        ),
    ensures
        xor_at(bytes, position, previous) == Ok::<(XorValue, int), ChunkError>(
            (next, position + 2 + 64 - next.leading - next.trailing),
        ),
{
    let size = 64 - next.leading - next.trailing;
    let head = seq![1int, 0];
    lemma_difference(previous.value, next.value, delta, next.trailing);
    lemma_bit_parts(bytes, position, head, number_bits(delta, size as nat));
    lemma_bit(bytes, position, head, 0);
    lemma_bit(bytes, position, head, 1);
    lemma_written_number(bytes, position + 2, delta, size as nat);
}

proof fn lemma_two_bits(bytes: Seq<u8>, position: int, second: int, tail: Seq<int>)
    requires
        holds_bits(bytes, position, seq![1int, second] + tail),
    ensures
        bits_at(bytes, position, 1) == Ok::<(int, int), ChunkError>((1, position + 1)),
        bits_at(bytes, position + 1, 1) == Ok::<(int, int), ChunkError>((second, position + 2)),
        holds_bits(bytes, position + 2, tail),
{
    let head = seq![1int, second];
    lemma_bit_parts(bytes, position, head, tail);
    lemma_bit(bytes, position, head, 0);
    lemma_bit(bytes, position, head, 1);
}

proof fn lemma_three_numbers(
    bytes: Seq<u8>,
    position: int,
    first: int,
    second: int,
    third: int,
    size: nat,
)
    requires
        size <= 64,
        0 <= first < pow2(5),
        0 <= second < pow2(6),
        0 <= third < pow2(size),
        holds_bits(
            bytes,
            position,
            number_bits(first, 5) + (number_bits(second, 6) + number_bits(third, size)),
        ),
    ensures
        bits_at(bytes, position, 5) == Ok::<(int, int), ChunkError>((first, position + 5)),
        bits_at(bytes, position + 5, 6) == Ok::<(int, int), ChunkError>((second, position + 11)),
        bits_at(bytes, position + 11, size as int) == Ok::<(int, int), ChunkError>(
            (third, position + 11 + size),
        ),
{
    let a = number_bits(first, 5);
    let b = number_bits(second, 6);
    let c = number_bits(third, size);
    lemma_bit_parts(bytes, position, a, b + c);
    lemma_written_number(bytes, position, first, 5);
    lemma_bit_parts(bytes, position + 5, b, c);
    lemma_written_number(bytes, position + 5, second, 6);
    lemma_written_number(bytes, position + 11, third, size);
}

proof fn lemma_own_window_is_used(
    bytes: Seq<u8>,
    position: int,
    previous: XorValue,
    next: XorValue,
    delta: int,
)
    requires
        next.leading <= 31,
        next.leading + next.trailing <= 63,
        0 <= delta <= u64::MAX,
        previous.value ^ ((delta as u64) << next.trailing) == next.value,
        bits_at(bytes, position, 1) == Ok::<(int, int), ChunkError>((1, position + 1)),
        bits_at(bytes, position + 1, 1) == Ok::<(int, int), ChunkError>((1, position + 2)),
        bits_at(bytes, position + 2, 5) == Ok::<(int, int), ChunkError>(
            (next.leading as int, position + 7),
        ),
        bits_at(bytes, position + 7, 6) == Ok::<(int, int), ChunkError>(
            ((64 - next.leading - next.trailing) % 64, position + 13),
        ),
        bits_at(bytes, position + 13, 64 - next.leading - next.trailing) == Ok::<
            (int, int),
            ChunkError,
        >((delta, position + 13 + 64 - next.leading - next.trailing)),
    ensures
        xor_at(bytes, position, previous) == Ok::<(XorValue, int), ChunkError>(
            (next, position + 13 + 64 - next.leading - next.trailing),
        ),
{
}

proof fn lemma_in_own_window(
    bytes: Seq<u8>,
    position: int,
    previous: XorValue,
    next: XorValue,
    delta: int,
)
    requires
        next.leading <= 31,
        next.leading + next.trailing <= 63,
        0 <= delta < pow2((64 - next.leading - next.trailing) as nat),
        delta * pow2(next.trailing as nat) == previous.value ^ next.value,
        holds_bits(
            bytes,
            position,
            seq![1int, 1] + (number_bits(next.leading as int, 5) + (number_bits(
                (64 - next.leading - next.trailing) % 64,
                6,
            ) + number_bits(delta, (64 - next.leading - next.trailing) as nat))),
        ),
    ensures
        xor_at(bytes, position, previous) == Ok::<(XorValue, int), ChunkError>(
            (next, position + 13 + 64 - next.leading - next.trailing),
        ),
{
    let size = 64 - next.leading - next.trailing;
    let head = seq![1int, 1];
    let a = number_bits(next.leading as int, 5);
    let b = number_bits(size % 64, 6);
    let c = number_bits(delta, size as nat);
    assert(pow2(5) == 32 && pow2(6) == 64) by {
        vstd::arithmetic::power2::lemma2_to64();
    }
    lemma_two_bits(bytes, position, 1, a + (b + c));
    lemma_three_numbers(bytes, position + 2, next.leading as int, size % 64, delta, size as nat);
    lemma_difference(previous.value, next.value, delta, next.trailing);
    lemma_own_window_is_used(bytes, position, previous, next, delta);
}

/// Reading undoes writing: where bits say how a float follows another one, that float is read, with
/// the window that was used last.
#[verifier::rlimit(40)]
pub proof fn law_written_differences_are_read(
    bytes: Seq<u8>,
    position: int,
    bits: Seq<int>,
    previous: XorValue,
    next: XorValue,
    delta: int,
)
    requires
        previous.valid(),
        xor_bits_say(bits, previous, next, delta),
        holds_bits(bytes, position, bits),
    ensures
        xor_at(bytes, position, previous) == Ok::<(XorValue, int), ChunkError>(
            (next, position + bits.len()),
        ),
        next.valid(),
{
    let size = 64 - next.leading - next.trailing;
    if bits == seq![0int] && next == previous {
        lemma_bit(bytes, position, bits, 0);
    } else {
        lemma_number_bits_length(delta, size as nat);
        if bits == seq![1int, 0] + number_bits(delta, size as nat) && next.leading
            == previous.leading && next.trailing == previous.trailing {
            lemma_in_last_window(bytes, position, previous, next, delta);
        } else {
            lemma_number_bits_length(next.leading as int, 5);
            lemma_number_bits_length(size % 64, 6);
            lemma_in_own_window(bytes, position, previous, next, delta);
        }
    }
}

/// The bits of signed numbers.
pub open spec fn int_bits(values: Seq<i64>) -> Seq<int>
    decreases values.len(),
{
    if values.len() == 0 {
        Seq::empty()
    } else {
        written_int(values[0] as int, 0) + int_bits(values.drop_first())
    }
}

#[verifier::rlimit(40)]
proof fn lemma_written_ints(bytes: Seq<u8>, position: int, before: Seq<i64>, values: Seq<i64>)
    requires
        holds_bits(bytes, position, int_bits(values)),
    ensures
        ints_from(bytes, position, values.len() as int, before) == Ok::<
            (Seq<i64>, int),
            ChunkError,
        >((before + values, position + int_bits(values).len())),
    decreases values.len(),
{
    if values.len() == 0 {
        assert(before + values =~= before);
    } else {
        let rest = values.drop_first();
        let a = written_int(values[0] as int, 0);
        lemma_fits_64(values[0] as int);
        lemma_bit_parts(bytes, position, a, int_bits(rest));
        law_written_ints_are_read(bytes, position, values[0] as int);
        lemma_written_ints(bytes, position + a.len(), before.push(values[0]), rest);
        assert(before.push(values[0]) + rest =~= before + values);
    }
}

/// The bits of the first histogram of an integer chunk: time, count, zero count, the pattern of the
/// sum, and the positive and negative buckets.
pub open spec fn first_integer_bits(first: IntegerModel) -> Seq<int> {
    written_int(first.timestamp as int, 0) + (written_uint(first.count as int, 0) + (written_uint(
        first.zero_count as int,
        0,
    ) + (number_bits(first.sum.value as int, 64) + (int_bits(first.positive) + int_bits(
        first.negative,
    )))))
}

/// Nothing has changed yet.
pub open spec fn is_first_integer(first: IntegerModel) -> bool {
    &&& first.timestamp_delta == 0
    &&& first.count_delta == 0
    &&& first.zero_count_delta == 0
    &&& first.sum.leading == 0
    &&& first.sum.trailing == 0
    &&& first.positive_deltas.len() == first.positive.len()
    &&& first.negative_deltas.len() == first.negative.len()
    &&& forall|i: int|
        0 <= i < first.positive_deltas.len() ==> #[trigger] first.positive_deltas[i] == 0
    &&& forall|i: int|
        0 <= i < first.negative_deltas.len() ==> #[trigger] first.negative_deltas[i] == 0
}

/// Reading undoes writing: the first histogram of an integer chunk is read where it was written.
#[verifier::rlimit(40)]
pub proof fn law_written_first_integers_are_read(
    bytes: Seq<u8>,
    position: int,
    first: IntegerModel,
)
    requires
        is_first_integer(first),
        holds_bits(bytes, position, first_integer_bits(first)),
    ensures
        integer_first(
            bytes,
            position,
            first.positive.len() as int,
            first.negative.len() as int,
        ) == Ok::<(IntegerModel, int), ChunkError>(
            (first, position + first_integer_bits(first).len()),
        ),
{
    let a = written_int(first.timestamp as int, 0);
    let b = written_uint(first.count as int, 0);
    let c = written_uint(first.zero_count as int, 0);
    let d = number_bits(first.sum.value as int, 64);
    let e = int_bits(first.positive);
    let f = int_bits(first.negative);
    assert(pow2(64) == 0x1_0000_0000_0000_0000) by {
        vstd::arithmetic::power2::lemma2_to64();
    }
    lemma_fits_64(first.timestamp as int);
    lemma_fits_64(first.count as int);
    lemma_fits_64(first.zero_count as int);
    lemma_bit_parts(bytes, position, a, b + (c + (d + (e + f))));
    law_written_ints_are_read(bytes, position, first.timestamp as int);
    let p = position + a.len();
    lemma_bit_parts(bytes, p, b, c + (d + (e + f)));
    law_written_uints_are_read(bytes, p, first.count as int);
    let p = p + b.len();
    lemma_bit_parts(bytes, p, c, d + (e + f));
    law_written_uints_are_read(bytes, p, first.zero_count as int);
    let p = p + c.len();
    lemma_bit_parts(bytes, p, d, e + f);
    lemma_written_number(bytes, p, first.sum.value as int, 64);
    let p = p + 64;
    lemma_bit_parts(bytes, p, e, f);
    lemma_written_ints(bytes, p, Seq::empty(), first.positive);
    lemma_written_ints(bytes, p + e.len(), Seq::empty(), first.negative);
    assert(Seq::<i64>::empty() + first.positive =~= first.positive);
    assert(Seq::<i64>::empty() + first.negative =~= first.negative);
    assert(first.positive_deltas =~= zeros(first.positive.len() as int));
    assert(first.negative_deltas =~= zeros(first.negative.len() as int));
    assert(XorValue::first(first.sum.value as int) == first.sum);
}

/// The bits of the changes of changes from a bucket on.
pub open spec fn change_bits(deltas: Seq<i64>, next: Seq<i64>, i: int) -> Seq<int>
    decreases next.len() - i,
{
    if i < 0 || i >= next.len() {
        Seq::empty()
    } else {
        written_int(next[i] - deltas[i], 0) + change_bits(deltas, next, i + 1)
    }
}

/// Buckets follow others by amounts: each new amount is the difference of the contents, and differs
/// from the amount before by no more than 64 bits with a sign can say.
pub open spec fn buckets_follow(
    buckets: Seq<i64>,
    deltas: Seq<i64>,
    next: Seq<i64>,
    next_deltas: Seq<i64>,
) -> bool {
    &&& buckets.len() == next.len()
    &&& deltas.len() == next.len()
    &&& next_deltas.len() == next.len()
    &&& forall|i: int|
        0 <= i < next.len() ==> {
            &&& (#[trigger] next[i]) - buckets[i] == next_deltas[i]
            &&& i64::MIN <= next_deltas[i] - deltas[i] <= i64::MAX
        }
}

#[verifier::rlimit(40)]
proof fn lemma_written_changes(
    bytes: Seq<u8>,
    position: int,
    buckets: Seq<i64>,
    deltas: Seq<i64>,
    next: Seq<i64>,
    next_deltas: Seq<i64>,
    i: int,
)
    requires
        buckets_follow(buckets, deltas, next, next_deltas),
        0 <= i <= next.len(),
        holds_bits(bytes, position, change_bits(deltas, next_deltas, i)),
    ensures
        deltas_from(
            bytes,
            position,
            next.take(i) + buckets.skip(i),
            next_deltas.take(i) + deltas.skip(i),
            i,
        ) == Ok::<((Seq<i64>, Seq<i64>), int), ChunkError>(
            ((next, next_deltas), position + change_bits(deltas, next_deltas, i).len()),
        ),
    decreases next.len() - i,
{
    let now = next.take(i) + buckets.skip(i);
    let now_deltas = next_deltas.take(i) + deltas.skip(i);
    if i == next.len() {
        assert(now =~= next);
        assert(now_deltas =~= next_deltas);
    } else {
        let change = next_deltas[i] - deltas[i];
        assert(next[i] - buckets[i] == next_deltas[i]);
        let a = written_int(change, 0);
        lemma_fits_64(change);
        lemma_bit_parts(bytes, position, a, change_bits(deltas, next_deltas, i + 1));
        law_written_ints_are_read(bytes, position, change);
        assert(now[i] == buckets[i] && now_deltas[i] == deltas[i]);
        assert(deltas[i].wrapping_add(change as i64) == next_deltas[i]);
        assert(buckets[i].wrapping_add(next_deltas[i]) == next[i]);
        assert(now.update(i, next[i]) =~= next.take(i + 1) + buckets.skip(i + 1));
        assert(now_deltas.update(i, next_deltas[i]) =~= next_deltas.take(i + 1) + deltas.skip(
            i + 1,
        ));
        lemma_written_changes(
            bytes,
            position + a.len(),
            buckets,
            deltas,
            next,
            next_deltas,
            i + 1,
        );
    }
}

/// How a float is written behind another one.
pub struct XorStep {
    pub bits: Seq<int>,
    pub delta: int,
}

/// A histogram of an integer chunk follows another one: time, count, zero count and buckets by
/// amounts that are their differences, the sum as bits say. One that marks a series as stale leaves
/// the buckets as they are.
pub open spec fn integer_follows(state: IntegerModel, next: IntegerModel, sum: XorStep) -> bool {
    &&& state.sum.valid()
    &&& next.timestamp - state.timestamp == next.timestamp_delta
    &&& i64::MIN <= next.timestamp_delta - state.timestamp_delta <= i64::MAX
    &&& next.count - state.count == next.count_delta
    &&& i64::MIN <= next.count_delta - state.count_delta <= i64::MAX
    &&& next.zero_count - state.zero_count == next.zero_count_delta
    &&& i64::MIN <= next.zero_count_delta - state.zero_count_delta <= i64::MAX
    &&& xor_bits_say(sum.bits, state.sum, next.sum, sum.delta)
    &&& if next.sum.value == 0x7ff0_0000_0000_0002 {
        &&& next.positive == state.positive
        &&& next.positive_deltas == state.positive_deltas
        &&& next.negative == state.negative
        &&& next.negative_deltas == state.negative_deltas
    } else {
        &&& buckets_follow(
            state.positive,
            state.positive_deltas,
            next.positive,
            next.positive_deltas,
        )
        &&& buckets_follow(
            state.negative,
            state.negative_deltas,
            next.negative,
            next.negative_deltas,
        )
    }
}

/// The bits of a histogram of an integer chunk behind another one.
pub open spec fn next_integer_bits(
    state: IntegerModel,
    next: IntegerModel,
    sum: XorStep,
) -> Seq<int> {
    written_int(next.timestamp_delta - state.timestamp_delta, 0) + (written_int(
        next.count_delta - state.count_delta,
        0,
    ) + (written_int(next.zero_count_delta - state.zero_count_delta, 0) + (sum.bits + (
    if next.sum.value == 0x7ff0_0000_0000_0002 {
        Seq::empty()
    } else {
        change_bits(state.positive_deltas, next.positive_deltas, 0) + change_bits(
            state.negative_deltas,
            next.negative_deltas,
            0,
        )
    }))))
}

/// Reading undoes writing: a histogram of an integer chunk is read where it was written behind
/// another one.
#[verifier::spinoff_prover]
#[verifier::rlimit(40)]
pub proof fn law_written_next_integers_are_read(
    bytes: Seq<u8>,
    position: int,
    state: IntegerModel,
    next: IntegerModel,
    sum: XorStep,
)
    requires
        integer_follows(state, next, sum),
        holds_bits(bytes, position, next_integer_bits(state, next, sum)),
    ensures
        integer_next(bytes, position, state) == Ok::<(IntegerModel, int), ChunkError>(
            (next, position + next_integer_bits(state, next, sum).len()),
        ),
        next.sum.valid(),
{
    let stale = next.sum.value == 0x7ff0_0000_0000_0002;
    let a = written_int(next.timestamp_delta - state.timestamp_delta, 0);
    let b = written_int(next.count_delta - state.count_delta, 0);
    let c = written_int(next.zero_count_delta - state.zero_count_delta, 0);
    let d = change_bits(state.positive_deltas, next.positive_deltas, 0);
    let e = change_bits(state.negative_deltas, next.negative_deltas, 0);
    let tail = if stale {
        Seq::empty()
    } else {
        d + e
    };
    lemma_fits_64(next.timestamp_delta - state.timestamp_delta);
    lemma_fits_64(next.count_delta - state.count_delta);
    lemma_fits_64(next.zero_count_delta - state.zero_count_delta);
    lemma_bit_parts(bytes, position, a, b + (c + (sum.bits + tail)));
    law_written_ints_are_read(bytes, position, next.timestamp_delta - state.timestamp_delta);
    let p = position + a.len();
    lemma_bit_parts(bytes, p, b, c + (sum.bits + tail));
    law_written_ints_are_read(bytes, p, next.count_delta - state.count_delta);
    let p = p + b.len();
    lemma_bit_parts(bytes, p, c, sum.bits + tail);
    law_written_ints_are_read(bytes, p, next.zero_count_delta - state.zero_count_delta);
    let p = p + c.len();
    lemma_bit_parts(bytes, p, sum.bits, tail);
    law_written_differences_are_read(bytes, p, sum.bits, state.sum, next.sum, sum.delta);
    let p = p + sum.bits.len();
    if !stale {
        lemma_bit_parts(bytes, p, d, e);
        lemma_written_changes(
            bytes,
            p,
            state.positive,
            state.positive_deltas,
            next.positive,
            next.positive_deltas,
            0,
        );
        lemma_written_changes(
            bytes,
            p + d.len(),
            state.negative,
            state.negative_deltas,
            next.negative,
            next.negative_deltas,
            0,
        );
        assert(next.positive.take(0) + state.positive.skip(0) =~= state.positive);
        assert(next.positive_deltas.take(0) + state.positive_deltas.skip(0)
            =~= state.positive_deltas);
        assert(next.negative.take(0) + state.negative.skip(0) =~= state.negative);
        assert(next.negative_deltas.take(0) + state.negative_deltas.skip(0)
            =~= state.negative_deltas);
    }
}

/// The bits of the histograms of an integer chunk from an index on.
pub open spec fn later_integer_bits(
    states: Seq<IntegerModel>,
    sums: Seq<XorStep>,
    i: int,
) -> Seq<int>
    decreases states.len() - i,
{
    if i < 1 || i >= states.len() {
        Seq::empty()
    } else {
        next_integer_bits(states[i - 1], states[i], sums[i]) + later_integer_bits(
            states,
            sums,
            i + 1,
        )
    }
}

#[verifier::rlimit(40)]
proof fn lemma_written_integers(
    bytes: Seq<u8>,
    position: int,
    states: Seq<IntegerModel>,
    sums: Seq<XorStep>,
    i: int,
    gauge: bool,
    layout: LayoutModel,
    before: Seq<HistogramModel>,
)
    requires
        1 <= i <= states.len(),
        forall|k: int|
            1 <= k < states.len() ==> integer_follows(
                states[k - 1],
                #[trigger] states[k],
                sums[k],
            ),
        holds_bits(bytes, position, later_integer_bits(states, sums, i)),
        before.len() == i,
        forall|k: int|
            0 <= k < i ==> #[trigger] before[k] == integer_model(states[k], gauge, k + 1, layout),
    ensures
        integer_samples_from(
            bytes,
            position,
            states[i - 1],
            i + 1,
            states.len() as int,
            gauge,
            layout,
            before,
        ) matches Ok(samples) && samples.len() == states.len() && forall|k: int|
            0 <= k < states.len() ==> #[trigger] samples[k] == integer_model(
                states[k],
                gauge,
                k + 1,
                layout,
            ),
    decreases states.len() - i,
{
    if i < states.len() {
        let a = next_integer_bits(states[i - 1], states[i], sums[i]);
        assert(integer_follows(states[i - 1], states[i], sums[i]));
        lemma_bit_parts(bytes, position, a, later_integer_bits(states, sums, i + 1));
        law_written_next_integers_are_read(bytes, position, states[i - 1], states[i], sums[i]);
        let after = before.push(integer_model(states[i], gauge, i + 1, layout));
        assert forall|k: int| 0 <= k < i + 1 implies #[trigger] after[k] == integer_model(
            states[k],
            gauge,
            k + 1,
            layout,
        ) by {
            if k < i {
                assert(after[k] == before[k]);
            }
        }
        lemma_written_integers(
            bytes,
            position + a.len(),
            states,
            sums,
            i + 1,
            gauge,
            layout,
            after,
        );
    }
}

/// A histogram is what the running values of an integer chunk and its layout say. One that marks a
/// series as stale has only its time. A gauge has the hint 3; of others the first one of a chunk has
/// the hint 0 and the later ones have the hint 2.
pub open spec fn is_integer_histogram(
    sample: HistogramModel,
    state: IntegerModel,
    layout: LayoutModel,
    gauge: bool,
    first: bool,
) -> bool {
    &&& sample.timestamp == state.timestamp
    &&& sample.sum == state.sum.value
    &&& if state.sum.value == 0x7ff0_0000_0000_0002 {
        &&& sample.count == HistogramCount::Integer(0)
        &&& sample.zero_count == HistogramCount::Integer(0)
        &&& sample.positive_spans.len() == 0
        &&& sample.negative_spans.len() == 0
        &&& sample.positive_buckets == BucketsModel::Integer(Seq::empty())
        &&& sample.negative_buckets == BucketsModel::Integer(Seq::empty())
        &&& sample.custom_values.len() == 0
        &&& sample.schema == 0
        &&& sample.zero_threshold == 0
        &&& sample.reset_hint == 0
    } else {
        &&& sample.count == HistogramCount::Integer(state.count)
        &&& sample.zero_count == HistogramCount::Integer(state.zero_count)
        &&& sample.positive_buckets == BucketsModel::Integer(state.positive)
        &&& sample.negative_buckets == BucketsModel::Integer(state.negative)
        &&& sample.schema == layout.schema
        &&& sample.zero_threshold == layout.zero_threshold
        &&& sample.positive_spans == layout.positive_spans
        &&& sample.negative_spans == layout.negative_spans
        &&& sample.custom_values == layout.custom_values
        &&& sample.reset_hint == (if gauge {
            3u8
        } else if first {
            0u8
        } else {
            2u8
        })
    }
}

/// The spans of a layout cover as many buckets as a histogram has.
pub open spec fn covers_buckets(layout: LayoutModel, positive: int, negative: int) -> bool {
    &&& span_buckets(layout.positive_spans) == positive <= usize::MAX
    &&& span_buckets(layout.negative_spans) == negative <= usize::MAX
}

proof fn lemma_integer_model(state: IntegerModel, gauge: bool, index: int, layout: LayoutModel)
    requires
        index >= 1,
    ensures
        is_integer_histogram(
            integer_model(state, gauge, index, layout),
            state,
            layout,
            gauge,
            index == 1,
        ),
{
}

/// Reading undoes writing: an integer histogram chunk gives the histograms that it was written from,
/// in their order. The chunk is the number of its histograms in two bytes, a byte whose two highest
/// bits are set for gauges, and the bits of the layout, the first histogram and the later ones.
#[verifier::spinoff_prover]
#[verifier::rlimit(40)]
pub proof fn law_written_integer_chunks_are_read(
    payload: Seq<u8>,
    layout: LayoutModel,
    states: Seq<IntegerModel>,
    sums: Seq<XorStep>,
)
    requires
        layout_can_be_written(layout),
        0 < states.len() <= u16::MAX,
        is_first_integer(states[0]),
        covers_buckets(
            layout,
            states[0].positive.len() as int,
            states[0].negative.len() as int,
        ),
        forall|k: int|
            1 <= k < states.len() ==> integer_follows(
                states[k - 1],
                #[trigger] states[k],
                sums[k],
            ),
        payload.len() >= 3,
        payload[0] == states.len() / 256,
        payload[1] == states.len() % 256,
        holds_bits(
            payload.skip(3),
            0,
            layout_bits(layout) + (first_integer_bits(states[0]) + later_integer_bits(
                states,
                sums,
                1,
            )),
        ),
    ensures
        histogram_samples(payload) matches Ok(samples) && samples.len() == states.len() && forall|
            i: int,
        |
            0 <= i < states.len() ==> is_integer_histogram(
                #[trigger] samples[i],
                states[i],
                layout,
                payload[2] >= 192,
                i == 0,
            ),
{
    let bytes = payload.skip(3);
    let gauge = payload[2] >= 192;
    let a = layout_bits(layout);
    let b = first_integer_bits(states[0]);
    let c = later_integer_bits(states, sums, 1);
    lemma_bit_parts(bytes, 0, a, b + c);
    lemma_bit_parts(bytes, a.len() as int, b, c);
    law_written_layouts_are_read(bytes, 0, layout);
    law_written_first_integers_are_read(bytes, a.len() as int, states[0]);
    let before = seq![integer_model(states[0], gauge, 1, layout)];
    lemma_written_integers(
        bytes,
        (a.len() + b.len()) as int,
        states,
        sums,
        1,
        gauge,
        layout,
        before,
    );
    let samples = histogram_samples(payload)->Ok_0;
    assert forall|i: int| 0 <= i < states.len() implies is_integer_histogram(
        #[trigger] samples[i],
        states[i],
        layout,
        payload[2] >= 192,
        i == 0,
    ) by {
        lemma_integer_model(states[i], gauge, i + 1, layout);
    }
}

/// The bits of floats.
pub open spec fn float_bits(values: Seq<XorValue>) -> Seq<int>
    decreases values.len(),
{
    if values.len() == 0 {
        Seq::empty()
    } else {
        number_bits(values[0].value as int, 64) + float_bits(values.drop_first())
    }
}

/// No difference was written yet.
pub open spec fn are_first_floats(values: Seq<XorValue>) -> bool {
    forall|i: int|
        0 <= i < values.len() ==> (#[trigger] values[i]).leading == 0 && values[i].trailing == 0
}

#[verifier::rlimit(40)]
proof fn lemma_written_floats(
    bytes: Seq<u8>,
    position: int,
    before: Seq<XorValue>,
    values: Seq<XorValue>,
)
    requires
        are_first_floats(values),
        holds_bits(bytes, position, float_bits(values)),
    ensures
        floats_from(bytes, position, values.len() as int, before) == Ok::<
            (Seq<XorValue>, int),
            ChunkError,
        >((before + values, position + float_bits(values).len())),
    decreases values.len(),
{
    if values.len() == 0 {
        assert(before + values =~= before);
    } else {
        let rest = values.drop_first();
        let a = number_bits(values[0].value as int, 64);
        assert(pow2(64) == 0x1_0000_0000_0000_0000) by {
            vstd::arithmetic::power2::lemma2_to64();
        }
        lemma_bit_parts(bytes, position, a, float_bits(rest));
        lemma_written_number(bytes, position, values[0].value as int, 64);
        assert(XorValue::first(values[0].value as int) == values[0]);
        assert forall|i: int| 0 <= i < rest.len() implies (#[trigger] rest[i]).leading == 0
            && rest[i].trailing == 0 by {
            assert(rest[i] == values[i + 1]);
        }
        lemma_written_floats(bytes, position + 64, before.push(values[0]), rest);
        assert(before.push(values[0]) + rest =~= before + values);
    }
}

/// The bits of the first histogram of a float chunk: time, and the patterns of count, zero count,
/// sum, and the positive and negative buckets.
pub open spec fn first_float_bits(first: FloatModel) -> Seq<int> {
    written_int(first.timestamp as int, 0) + (number_bits(first.count.value as int, 64) + (
    number_bits(first.zero_count.value as int, 64) + (number_bits(first.sum.value as int, 64) + (
    float_bits(first.positive) + float_bits(first.negative)))))
}

/// Nothing has changed yet.
pub open spec fn is_first_float(first: FloatModel) -> bool {
    &&& first.timestamp_delta == 0
    &&& are_first_floats(seq![first.count, first.zero_count, first.sum])
    &&& are_first_floats(first.positive)
    &&& are_first_floats(first.negative)
}

/// Reading undoes writing: the first histogram of a float chunk is read where it was written.
#[verifier::rlimit(40)]
pub proof fn law_written_first_floats_are_read(bytes: Seq<u8>, position: int, first: FloatModel)
    requires
        is_first_float(first),
        holds_bits(bytes, position, first_float_bits(first)),
    ensures
        float_first(
            bytes,
            position,
            first.positive.len() as int,
            first.negative.len() as int,
        ) == Ok::<(FloatModel, int), ChunkError>(
            (first, position + first_float_bits(first).len()),
        ),
{
    let a = written_int(first.timestamp as int, 0);
    let b = number_bits(first.count.value as int, 64);
    let c = number_bits(first.zero_count.value as int, 64);
    let d = number_bits(first.sum.value as int, 64);
    let e = float_bits(first.positive);
    let f = float_bits(first.negative);
    assert(pow2(64) == 0x1_0000_0000_0000_0000) by {
        vstd::arithmetic::power2::lemma2_to64();
    }
    let firsts = seq![first.count, first.zero_count, first.sum];
    assert(firsts[0] == first.count && firsts[1] == first.zero_count && firsts[2] == first.sum);
    assert(XorValue::first(first.count.value as int) == first.count);
    assert(XorValue::first(first.zero_count.value as int) == first.zero_count);
    assert(XorValue::first(first.sum.value as int) == first.sum);
    lemma_fits_64(first.timestamp as int);
    lemma_bit_parts(bytes, position, a, b + (c + (d + (e + f))));
    law_written_ints_are_read(bytes, position, first.timestamp as int);
    let p = position + a.len();
    lemma_bit_parts(bytes, p, b, c + (d + (e + f)));
    lemma_written_number(bytes, p, first.count.value as int, 64);
    let p = p + 64;
    lemma_bit_parts(bytes, p, c, d + (e + f));
    lemma_written_number(bytes, p, first.zero_count.value as int, 64);
    let p = p + 64;
    lemma_bit_parts(bytes, p, d, e + f);
    lemma_written_number(bytes, p, first.sum.value as int, 64);
    let p = p + 64;
    lemma_bit_parts(bytes, p, e, f);
    lemma_written_floats(bytes, p, Seq::empty(), first.positive);
    lemma_written_floats(bytes, p + e.len(), Seq::empty(), first.negative);
    assert(Seq::<XorValue>::empty() + first.positive =~= first.positive);
    assert(Seq::<XorValue>::empty() + first.negative =~= first.negative);
}

/// The bits of the differences from a float on.
pub open spec fn step_bits(steps: Seq<XorStep>, i: int) -> Seq<int>
    decreases steps.len() - i,
{
    if i < 0 || i >= steps.len() {
        Seq::empty()
    } else {
        steps[i].bits + step_bits(steps, i + 1)
    }
}

/// Floats follow others as bits say.
pub open spec fn floats_follow(
    values: Seq<XorValue>,
    next: Seq<XorValue>,
    steps: Seq<XorStep>,
) -> bool {
    &&& values.len() == next.len()
    &&& steps.len() == next.len()
    &&& forall|i: int|
        0 <= i < next.len() ==> values[i].valid() && xor_bits_say(
            steps[i].bits,
            values[i],
            #[trigger] next[i],
            steps[i].delta,
        )
}

#[verifier::rlimit(40)]
proof fn lemma_written_steps(
    bytes: Seq<u8>,
    position: int,
    values: Seq<XorValue>,
    next: Seq<XorValue>,
    steps: Seq<XorStep>,
    i: int,
)
    requires
        floats_follow(values, next, steps),
        0 <= i <= next.len(),
        holds_bits(bytes, position, step_bits(steps, i)),
    ensures
        xors_from(bytes, position, next.take(i) + values.skip(i), i) == Ok::<
            (Seq<XorValue>, int),
            ChunkError,
        >((next, position + step_bits(steps, i).len())),
    decreases next.len() - i,
{
    let now = next.take(i) + values.skip(i);
    if i == next.len() {
        assert(now =~= next);
    } else {
        assert(xor_bits_say(steps[i].bits, values[i], next[i], steps[i].delta));
        lemma_bit_parts(bytes, position, steps[i].bits, step_bits(steps, i + 1));
        assert(now[i] == values[i]);
        law_written_differences_are_read(
            bytes,
            position,
            steps[i].bits,
            values[i],
            next[i],
            steps[i].delta,
        );
        assert(now.update(i, next[i]) =~= next.take(i + 1) + values.skip(i + 1));
        lemma_written_steps(bytes, position + steps[i].bits.len(), values, next, steps, i + 1);
    }
}

/// How a histogram of a float chunk is written behind another one.
pub struct FloatStep {
    pub count: XorStep,
    pub zero_count: XorStep,
    pub sum: XorStep,
    pub positive: Seq<XorStep>,
    pub negative: Seq<XorStep>,
}

/// A histogram of a float chunk follows another one: the time by an amount that is the difference,
/// everything else as bits say. One that marks a series as stale leaves the buckets as they are.
pub open spec fn float_follows(state: FloatModel, next: FloatModel, step: FloatStep) -> bool {
    &&& next.timestamp - state.timestamp == next.timestamp_delta
    &&& i64::MIN <= next.timestamp_delta - state.timestamp_delta <= i64::MAX
    &&& state.count.valid()
    &&& state.zero_count.valid()
    &&& state.sum.valid()
    &&& xor_bits_say(step.count.bits, state.count, next.count, step.count.delta)
    &&& xor_bits_say(
        step.zero_count.bits,
        state.zero_count,
        next.zero_count,
        step.zero_count.delta,
    )
    &&& xor_bits_say(step.sum.bits, state.sum, next.sum, step.sum.delta)
    &&& if next.sum.value == 0x7ff0_0000_0000_0002 {
        &&& next.positive == state.positive
        &&& next.negative == state.negative
    } else {
        &&& floats_follow(state.positive, next.positive, step.positive)
        &&& floats_follow(state.negative, next.negative, step.negative)
    }
}

/// The bits of a histogram of a float chunk behind another one.
pub open spec fn next_float_bits(state: FloatModel, next: FloatModel, step: FloatStep) -> Seq<int> {
    written_int(next.timestamp_delta - state.timestamp_delta, 0) + (step.count.bits + (
    step.zero_count.bits + (step.sum.bits + (if next.sum.value == 0x7ff0_0000_0000_0002 {
        Seq::empty()
    } else {
        step_bits(step.positive, 0) + step_bits(step.negative, 0)
    }))))
}

/// Reading undoes writing: a histogram of a float chunk is read where it was written behind another
/// one.
#[verifier::spinoff_prover]
#[verifier::rlimit(40)]
pub proof fn law_written_next_floats_are_read(
    bytes: Seq<u8>,
    position: int,
    state: FloatModel,
    next: FloatModel,
    step: FloatStep,
)
    requires
        float_follows(state, next, step),
        holds_bits(bytes, position, next_float_bits(state, next, step)),
    ensures
        float_next(bytes, position, state) == Ok::<(FloatModel, int), ChunkError>(
            (next, position + next_float_bits(state, next, step).len()),
        ),
{
    let stale = next.sum.value == 0x7ff0_0000_0000_0002;
    let change = next.timestamp_delta - state.timestamp_delta;
    let a = written_int(change, 0);
    let b = step.count.bits;
    let c = step.zero_count.bits;
    let d = step.sum.bits;
    let e = step_bits(step.positive, 0);
    let f = step_bits(step.negative, 0);
    let tail = if stale {
        Seq::empty()
    } else {
        e + f
    };
    lemma_fits_64(change);
    lemma_bit_parts(bytes, position, a, b + (c + (d + tail)));
    law_written_ints_are_read(bytes, position, change);
    let p = position + a.len();
    lemma_bit_parts(bytes, p, b, c + (d + tail));
    law_written_differences_are_read(bytes, p, b, state.count, next.count, step.count.delta);
    let p = p + b.len();
    lemma_bit_parts(bytes, p, c, d + tail);
    law_written_differences_are_read(
        bytes,
        p,
        c,
        state.zero_count,
        next.zero_count,
        step.zero_count.delta,
    );
    let p = p + c.len();
    lemma_bit_parts(bytes, p, d, tail);
    law_written_differences_are_read(bytes, p, d, state.sum, next.sum, step.sum.delta);
    let p = p + d.len();
    if !stale {
        lemma_bit_parts(bytes, p, e, f);
        lemma_written_steps(bytes, p, state.positive, next.positive, step.positive, 0);
        lemma_written_steps(bytes, p + e.len(), state.negative, next.negative, step.negative, 0);
        assert(next.positive.take(0) + state.positive.skip(0) =~= state.positive);
        assert(next.negative.take(0) + state.negative.skip(0) =~= state.negative);
    }
}

/// The bits of the histograms of a float chunk from an index on.
pub open spec fn later_float_bits(states: Seq<FloatModel>, steps: Seq<FloatStep>, i: int) -> Seq<
    int,
>
    decreases states.len() - i,
{
    if i < 1 || i >= states.len() {
        Seq::empty()
    } else {
        next_float_bits(states[i - 1], states[i], steps[i]) + later_float_bits(
            states,
            steps,
            i + 1,
        )
    }
}

#[verifier::rlimit(40)]
proof fn lemma_written_float_states(
    bytes: Seq<u8>,
    position: int,
    states: Seq<FloatModel>,
    steps: Seq<FloatStep>,
    i: int,
    gauge: bool,
    layout: LayoutModel,
    before: Seq<HistogramModel>,
)
    requires
        1 <= i <= states.len(),
        forall|k: int|
            1 <= k < states.len() ==> float_follows(states[k - 1], #[trigger] states[k], steps[k]),
        holds_bits(bytes, position, later_float_bits(states, steps, i)),
        before.len() == i,
        forall|k: int|
            0 <= k < i ==> #[trigger] before[k] == float_model(states[k], gauge, k + 1, layout),
    ensures
        float_samples_from(
            bytes,
            position,
            states[i - 1],
            i + 1,
            states.len() as int,
            gauge,
            layout,
            before,
        ) matches Ok(samples) && samples.len() == states.len() && forall|k: int|
            0 <= k < states.len() ==> #[trigger] samples[k] == float_model(
                states[k],
                gauge,
                k + 1,
                layout,
            ),
    decreases states.len() - i,
{
    if i < states.len() {
        let a = next_float_bits(states[i - 1], states[i], steps[i]);
        assert(float_follows(states[i - 1], states[i], steps[i]));
        lemma_bit_parts(bytes, position, a, later_float_bits(states, steps, i + 1));
        law_written_next_floats_are_read(bytes, position, states[i - 1], states[i], steps[i]);
        let after = before.push(float_model(states[i], gauge, i + 1, layout));
        assert forall|k: int| 0 <= k < i + 1 implies #[trigger] after[k] == float_model(
            states[k],
            gauge,
            k + 1,
            layout,
        ) by {
            if k < i {
                assert(after[k] == before[k]);
            }
        }
        lemma_written_float_states(
            bytes,
            position + a.len(),
            states,
            steps,
            i + 1,
            gauge,
            layout,
            after,
        );
    }
}

/// The patterns of floats.
pub open spec fn are_patterns(patterns: BucketsModel, values: Seq<XorValue>) -> bool {
    patterns matches BucketsModel::Float(patterns) && patterns.len() == values.len() && forall|
        i: int,
    |
        0 <= i < values.len() ==> #[trigger] patterns[i] == values[i].value
}

/// A histogram is what the running values of a float chunk and its layout say. One that marks a
/// series as stale has only its time. A gauge has the hint 3; of others the first one of a chunk has
/// the hint 0 and the later ones have the hint 2.
pub open spec fn is_float_histogram(
    sample: HistogramModel,
    state: FloatModel,
    layout: LayoutModel,
    gauge: bool,
    first: bool,
) -> bool {
    &&& sample.timestamp == state.timestamp
    &&& sample.sum == state.sum.value
    &&& if state.sum.value == 0x7ff0_0000_0000_0002 {
        &&& sample.count == HistogramCount::Float(0)
        &&& sample.zero_count == HistogramCount::Float(0)
        &&& sample.positive_spans.len() == 0
        &&& sample.negative_spans.len() == 0
        &&& are_patterns(sample.positive_buckets, Seq::empty())
        &&& are_patterns(sample.negative_buckets, Seq::empty())
        &&& sample.custom_values.len() == 0
        &&& sample.schema == 0
        &&& sample.zero_threshold == 0
        &&& sample.reset_hint == 0
    } else {
        &&& sample.count == HistogramCount::Float(state.count.value)
        &&& sample.zero_count == HistogramCount::Float(state.zero_count.value)
        &&& are_patterns(sample.positive_buckets, state.positive)
        &&& are_patterns(sample.negative_buckets, state.negative)
        &&& sample.schema == layout.schema
        &&& sample.zero_threshold == layout.zero_threshold
        &&& sample.positive_spans == layout.positive_spans
        &&& sample.negative_spans == layout.negative_spans
        &&& sample.custom_values == layout.custom_values
        &&& sample.reset_hint == (if gauge {
            3u8
        } else if first {
            0u8
        } else {
            2u8
        })
    }
}

proof fn lemma_float_model(state: FloatModel, gauge: bool, index: int, layout: LayoutModel)
    requires
        index >= 1,
    ensures
        is_float_histogram(
            float_model(state, gauge, index, layout),
            state,
            layout,
            gauge,
            index == 1,
        ),
{
}

/// Reading undoes writing: a float histogram chunk gives the histograms that it was written from, in
/// their order. The chunk is framed like one of integer histograms.
#[verifier::spinoff_prover]
#[verifier::rlimit(40)]
pub proof fn law_written_float_chunks_are_read(
    payload: Seq<u8>,
    layout: LayoutModel,
    states: Seq<FloatModel>,
    steps: Seq<FloatStep>,
)
    requires
        layout_can_be_written(layout),
        0 < states.len() <= u16::MAX,
        is_first_float(states[0]),
        covers_buckets(
            layout,
            states[0].positive.len() as int,
            states[0].negative.len() as int,
        ),
        forall|k: int|
            1 <= k < states.len() ==> float_follows(states[k - 1], #[trigger] states[k], steps[k]),
        payload.len() >= 3,
        payload[0] == states.len() / 256,
        payload[1] == states.len() % 256,
        holds_bits(
            payload.skip(3),
            0,
            layout_bits(layout) + (first_float_bits(states[0]) + later_float_bits(
                states,
                steps,
                1,
            )),
        ),
    ensures
        float_histogram_samples(payload) matches Ok(samples) && samples.len() == states.len()
            && forall|i: int|
            0 <= i < states.len() ==> is_float_histogram(
                #[trigger] samples[i],
                states[i],
                layout,
                payload[2] >= 192,
                i == 0,
            ),
{
    let bytes = payload.skip(3);
    let gauge = payload[2] >= 192;
    let a = layout_bits(layout);
    let b = first_float_bits(states[0]);
    let c = later_float_bits(states, steps, 1);
    lemma_bit_parts(bytes, 0, a, b + c);
    lemma_bit_parts(bytes, a.len() as int, b, c);
    law_written_layouts_are_read(bytes, 0, layout);
    law_written_first_floats_are_read(bytes, a.len() as int, states[0]);
    let before = seq![float_model(states[0], gauge, 1, layout)];
    lemma_written_float_states(
        bytes,
        (a.len() + b.len()) as int,
        states,
        steps,
        1,
        gauge,
        layout,
        before,
    );
    let samples = float_histogram_samples(payload)->Ok_0;
    assert forall|i: int| 0 <= i < states.len() implies is_float_histogram(
        #[trigger] samples[i],
        states[i],
        layout,
        payload[2] >= 192,
        i == 0,
    ) by {
        lemma_float_model(states[i], gauge, i + 1, layout);
    }
}

} // verus!
