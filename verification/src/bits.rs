//! Bit streams: bytes read from their most significant bit on, and the variable-length numbers
//! that chunks are written with.

use vstd::arithmetic::power2::{lemma2_to64, lemma2_to64_rest, lemma_pow2_unfold, pow2};
use vstd::prelude::*;

#[allow(unused_imports)]
use crate::text::{decimal_text, signed_text};
use crate::text::{decimal, joined, signed_decimal};

verus! {

/// Why a chunk was rejected.
#[derive(Clone, Copy, Debug, PartialEq, Eq, Structural)]
pub enum ChunkError {
    InvalidUvarint,
    LengthOverflow,
    LengthMismatch,
    CrcMismatch,
    UnsupportedEncoding(u8),
    AggregateOfNonCounter,
    TruncatedAggregateSlot,
    UnsupportedAggregateEncoding(u8),
    InvalidXorPayload,
    TruncatedHistogramHeader,
    TruncatedBits,
    SchemaOverflow,
    UnknownSchema(i32),
    SpanLengthOverflow,
    SpanOffsetOverflow,
    BucketCountOverflow,
    InvalidXorWindow,
}

impl ChunkError {
    /// The text of an error.
    pub open spec fn text(&self) -> Seq<char> {
        match self {
            ChunkError::InvalidUvarint => "invalid or oversized chunk uvarint"@,
            ChunkError::LengthOverflow => "chunk record length overflows u64"@,
            ChunkError::LengthMismatch => "chunk record length does not match its uvarint"@,
            ChunkError::CrcMismatch => "chunk CRC32C mismatch"@,
            ChunkError::AggregateOfNonCounter => "received downsampled aggregate chunk for a non-counter metric"@,
            ChunkError::TruncatedAggregateSlot => "truncated aggregate chunk slot payload"@,
            ChunkError::InvalidXorPayload => "invalid XOR chunk payload"@,
            ChunkError::TruncatedHistogramHeader => "truncated histogram chunk header"@,
            ChunkError::TruncatedBits => "truncated histogram bit stream"@,
            ChunkError::SchemaOverflow => "histogram schema overflows i32"@,
            ChunkError::SpanLengthOverflow => "histogram span length overflows u32"@,
            ChunkError::SpanOffsetOverflow => "histogram span offset overflows i32"@,
            ChunkError::BucketCountOverflow => "histogram bucket count overflows usize"@,
            ChunkError::InvalidXorWindow => "invalid histogram XOR window"@,
            ChunkError::UnsupportedEncoding(encoding) => "unsupported Prometheus chunk encoding "@
                + decimal_text(*encoding as int),
            ChunkError::UnsupportedAggregateEncoding(encoding) =>
            "unsupported aggregate counter chunk encoding "@ + decimal_text(*encoding as int),
            ChunkError::UnknownSchema(schema) => "unknown histogram schema "@ + signed_text(
                *schema as int,
            ),
        }
    }

    /// The text of an error, for people to read.
    pub fn message(&self) -> (message: String)
        ensures
            message@ == self.text(),
    {
        match self {
            ChunkError::InvalidUvarint => "invalid or oversized chunk uvarint".to_owned(),
            ChunkError::LengthOverflow => "chunk record length overflows u64".to_owned(),
            ChunkError::LengthMismatch => "chunk record length does not match its uvarint".to_owned(),
            ChunkError::CrcMismatch => "chunk CRC32C mismatch".to_owned(),
            ChunkError::AggregateOfNonCounter => "received downsampled aggregate chunk for a non-counter metric".to_owned(),
            ChunkError::TruncatedAggregateSlot => "truncated aggregate chunk slot payload".to_owned(),
            ChunkError::InvalidXorPayload => "invalid XOR chunk payload".to_owned(),
            ChunkError::TruncatedHistogramHeader => "truncated histogram chunk header".to_owned(),
            ChunkError::TruncatedBits => "truncated histogram bit stream".to_owned(),
            ChunkError::SchemaOverflow => "histogram schema overflows i32".to_owned(),
            ChunkError::SpanLengthOverflow => "histogram span length overflows u32".to_owned(),
            ChunkError::SpanOffsetOverflow => "histogram span offset overflows i32".to_owned(),
            ChunkError::BucketCountOverflow => "histogram bucket count overflows usize".to_owned(),
            ChunkError::InvalidXorWindow => "invalid histogram XOR window".to_owned(),
            ChunkError::UnsupportedEncoding(encoding) => joined(
                "unsupported Prometheus chunk encoding ",
                decimal(*encoding as u64).as_str(),
            ),
            ChunkError::UnsupportedAggregateEncoding(encoding) => joined(
                "unsupported aggregate counter chunk encoding ",
                decimal(*encoding as u64).as_str(),
            ),
            ChunkError::UnknownSchema(schema) => joined(
                "unknown histogram schema ",
                signed_decimal(*schema).as_str(),
            ),
        }
    }
}

/// The weight of a bit in its byte; bit 0 is the most significant one.
pub open spec fn bit_weight(bit: int) -> int {
    if bit == 0 {
        128
    } else if bit == 1 {
        64
    } else if bit == 2 {
        32
    } else if bit == 3 {
        16
    } else if bit == 4 {
        8
    } else if bit == 5 {
        4
    } else if bit == 6 {
        2
    } else {
        1
    }
}

/// The bit at a position of a stream, 0 or 1.
pub open spec fn bit_at(bytes: Seq<u8>, position: int) -> int {
    bytes[position / 8] as int / bit_weight(position % 8) % 2
}

/// The number that `count` bits from a position on stand for, most significant bit first.
pub open spec fn bits_value(bytes: Seq<u8>, position: int, count: int) -> int
    decreases count,
{
    if count <= 0 {
        0
    } else {
        2 * bits_value(bytes, position, count - 1) + bit_at(bytes, position + count - 1)
    }
}

/// The number in the next `count` bits, and the position behind them. At most 64 bits make a
/// number.
pub open spec fn bits_at(bytes: Seq<u8>, position: int, count: int) -> Result<
    (int, int),
    ChunkError,
> {
    if count > 64 || position + count > 8 * bytes.len() {
        Err(ChunkError::TruncatedBits)
    } else {
        Ok((bits_value(bytes, position, count), position + count))
    }
}

/// The number of one bits before the next zero bit, counted on from `ones` up to eight, and the
/// position behind them. Eight one bits have no zero bit behind them.
pub open spec fn ones_at(bytes: Seq<u8>, position: int, ones: int) -> Result<(int, int), ChunkError>
    decreases 8 - ones,
{
    if ones >= 8 {
        Ok((ones, position))
    } else {
        match bits_at(bytes, position, 1) {
            Err(error) => Err(error),
            Ok((bit, next)) => if bit == 0 {
                Ok((ones, next))
            } else {
                ones_at(bytes, next, ones + 1)
            },
        }
    }
}

/// The size in bits of a number whose prefix has the given number of one bits.
pub open spec fn varbit_size(ones: int) -> int {
    if ones == 0 {
        0
    } else if ones == 1 {
        3
    } else if ones == 2 {
        6
    } else if ones == 3 {
        9
    } else if ones == 4 {
        12
    } else if ones == 5 {
        18
    } else if ones == 6 {
        25
    } else if ones == 7 {
        56
    } else {
        64
    }
}

/// The unsigned variable-length number at a position, and the position behind it.
pub open spec fn varbit_uint_at(bytes: Seq<u8>, position: int) -> Result<(int, int), ChunkError> {
    match ones_at(bytes, position, 0) {
        Err(error) => Err(error),
        Ok((ones, next)) => bits_at(bytes, next, varbit_size(ones)),
    }
}

/// The signed number that a bit pattern of a size stands for. Patterns above the middle stand
/// for negative numbers; of 64 bits the middle one does too.
pub open spec fn signed(pattern: int, size: int) -> int {
    if size <= 0 {
        0
    } else if pattern > pow2((size - 1) as nat) || (size == 64 && pattern == pow2(63)) {
        pattern - pow2(size as nat)
    } else {
        pattern
    }
}

/// The signed variable-length number at a position, and the position behind it.
pub open spec fn varbit_int_at(bytes: Seq<u8>, position: int) -> Result<(int, int), ChunkError> {
    match ones_at(bytes, position, 0) {
        Err(error) => Err(error),
        Ok((ones, next)) => match bits_at(bytes, next, varbit_size(ones)) {
            Err(error) => Err(error),
            Ok((pattern, end)) => Ok((signed(pattern, varbit_size(ones)), end)),
        },
    }
}

/// A number of `count` bits is below the power of two of that size.
pub proof fn lemma_bits_value_bound(bytes: Seq<u8>, position: int, count: int)
    requires
        count >= 0,
    ensures
        0 <= bits_value(bytes, position, count) < pow2(count as nat),
    decreases count,
{
    if count == 0 {
        lemma2_to64();
    } else {
        lemma_bits_value_bound(bytes, position, count - 1);
        lemma_pow2_unfold(count as nat);
    }
}

/// Two numbers that stand one behind the other make up the number of all their bits: the first one
/// shifted by the size of the second, and the second.
pub proof fn law_reads_join(bytes: Seq<u8>, position: int, first: int, second: int)
    requires
        first >= 0,
        second >= 0,
    ensures
        bits_value(bytes, position, first + second) == bits_value(bytes, position, first) * pow2(
            second as nat,
        ) + bits_value(bytes, position + first, second),
        bits_at(bytes, position, first + second) is Ok ==> {
            &&& bits_at(bytes, position, first) is Ok
            &&& bits_at(bytes, position + first, second) is Ok
            &&& bits_at(bytes, position + first, second)->Ok_0.1 == bits_at(
                bytes,
                position,
                first + second,
            )->Ok_0.1
        },
    decreases second,
{
    if second == 0 {
        lemma2_to64();
        assert(bits_value(bytes, position, first) * 1 == bits_value(bytes, position, first))
            by (nonlinear_arith);
    } else {
        law_reads_join(bytes, position, first, second - 1);
        lemma_pow2_unfold(second as nat);
        let value = bits_value(bytes, position, first);
        let power = pow2((second - 1) as nat) as int;
        assert(value * (2 * power) == 2 * (value * power)) by (nonlinear_arith);
    }
}

/// Eight bits that start at the edge of a byte are that byte.
pub proof fn law_bytes_are_read_whole(bytes: Seq<u8>, i: int)
    requires
        0 <= i < bytes.len(),
    ensures
        bits_at(bytes, 8 * i, 8) == Ok::<(int, int), ChunkError>((bytes[i] as int, 8 * i + 8)),
{
    let p = 8 * i;
    let byte = bytes[i];
    assert(byte == 128 * (byte / 128 % 2) + 64 * (byte / 64 % 2) + 32 * (byte / 32 % 2) + 16 * (byte
        / 16 % 2) + 8 * (byte / 8 % 2) + 4 * (byte / 4 % 2) + 2 * (byte / 2 % 2) + byte % 2)
        by (bit_vector);
    assert forall|k: int| 0 <= k < 8 implies #[trigger] bit_at(bytes, p + k) == byte as int
        / bit_weight(k) % 2 by {
        assert((p + k) / 8 == i && (p + k) % 8 == k);
    }
    assert(bits_value(bytes, p, 0) == 0);
    assert(bits_value(bytes, p, 1) == bit_at(bytes, p + 0));
    assert(bits_value(bytes, p, 2) == 2 * bits_value(bytes, p, 1) + bit_at(bytes, p + 1));
    assert(bits_value(bytes, p, 3) == 2 * bits_value(bytes, p, 2) + bit_at(bytes, p + 2));
    assert(bits_value(bytes, p, 4) == 2 * bits_value(bytes, p, 3) + bit_at(bytes, p + 3));
    assert(bits_value(bytes, p, 5) == 2 * bits_value(bytes, p, 4) + bit_at(bytes, p + 4));
    assert(bits_value(bytes, p, 6) == 2 * bits_value(bytes, p, 5) + bit_at(bytes, p + 5));
    assert(bits_value(bytes, p, 7) == 2 * bits_value(bytes, p, 6) + bit_at(bytes, p + 6));
    assert(bits_value(bytes, p, 8) == 2 * bits_value(bytes, p, 7) + bit_at(bytes, p + 7));
}

/// The lowest `count` bits of a number in two's complement, most significant bit first.
pub open spec fn number_bits(value: int, count: nat) -> Seq<int>
    decreases count,
{
    if count == 0 {
        Seq::empty()
    } else {
        number_bits(value / 2, (count - 1) as nat).push(value % 2)
    }
}

/// The sizes in bits that variable-length numbers are written with.
pub open spec fn number_sizes() -> Seq<int> {
    seq![0, 3, 6, 9, 12, 18, 25, 56, 64]
}

/// The bits of a number written in the size at a place of the list of sizes: as many one bits as
/// the place says, a zero bit unless there are eight, and the number.
pub open spec fn sized_bits(value: int, place: nat) -> Seq<int> {
    Seq::new(place, |i: int| 1int) + (if place < 8 {
        seq![0int]
    } else {
        Seq::empty()
    }) + number_bits(value, number_sizes()[place as int] as nat)
}

/// A number fits in a size without a sign.
pub open spec fn fits_unsigned(value: int, size: int) -> bool {
    0 <= value < pow2(size as nat)
}

/// A number fits in a size with a sign. Of the smaller sizes the middle pattern stands for the
/// largest number, of 64 bits for the smallest one.
pub open spec fn fits_signed(value: int, size: int) -> bool {
    if size == 0 {
        value == 0
    } else if size == 64 {
        -pow2(63) <= value < pow2(63)
    } else {
        -pow2((size - 1) as nat) < value <= pow2((size - 1) as nat)
    }
}

/// The bits that an unsigned number is written with: those of the first size that holds it.
pub open spec fn written_uint(value: int, place: nat) -> Seq<int>
    decreases 8 - place,
{
    if place >= 8 || fits_unsigned(value, number_sizes()[place as int]) {
        sized_bits(value, place)
    } else {
        written_uint(value, place + 1)
    }
}

/// The bits that a signed number is written with: those of the first size that holds it.
pub open spec fn written_int(value: int, place: nat) -> Seq<int>
    decreases 8 - place,
{
    if place >= 8 || fits_signed(value, number_sizes()[place as int]) {
        sized_bits(value, place)
    } else {
        written_int(value, place + 1)
    }
}

/// A stream holds bits from a position on.
pub open spec fn holds_bits(bytes: Seq<u8>, position: int, bits: Seq<int>) -> bool {
    &&& 0 <= position
    &&& position + bits.len() <= 8 * bytes.len()
    &&& forall|i: int|
        0 <= i < bits.len() ==> #[trigger] bits[i] == bit_at(bytes, position + i)
}

/// Bits that stand one behind the other stand each at its own position.
pub(crate) proof fn lemma_bit_parts(
    bytes: Seq<u8>,
    position: int,
    first: Seq<int>,
    second: Seq<int>,
)
    requires
        holds_bits(bytes, position, first + second),
    ensures
        holds_bits(bytes, position, first),
        holds_bits(bytes, position + first.len(), second),
{
    let whole = first + second;
    assert forall|i: int| 0 <= i < first.len() implies #[trigger] first[i] == bit_at(
        bytes,
        position + i,
    ) by {
        assert(whole[i] == first[i]);
    }
    let next = position + first.len();
    assert forall|i: int| 0 <= i < second.len() implies #[trigger] second[i] == bit_at(
        bytes,
        next + i,
    ) by {
        assert(whole[first.len() + i] == second[i]);
    }
}

pub(crate) proof fn lemma_number_bits_length(value: int, count: nat)
    ensures
        number_bits(value, count).len() == count,
    decreases count,
{
    if count > 0 {
        lemma_number_bits_length(value / 2, (count - 1) as nat);
    }
}

/// Bits that hold a number in two's complement are read as that number, up to the power of two of
/// their count.
pub proof fn law_written_bits_are_read(bytes: Seq<u8>, position: int, value: int, count: nat)
    requires
        count <= 64,
        holds_bits(bytes, position, number_bits(value, count)),
    ensures
        bits_at(bytes, position, count as int) == Ok::<(int, int), ChunkError>(
            (value % (pow2(count) as int), position + count),
        ),
{
    lemma_number_bits_length(value, count);
    lemma_written_value(bytes, position, value, count);
}

proof fn lemma_written_value(bytes: Seq<u8>, position: int, value: int, count: nat)
    requires
        holds_bits(bytes, position, number_bits(value, count)),
    ensures
        bits_value(bytes, position, count as int) == value % (pow2(count) as int),
    decreases count,
{
    lemma_number_bits_length(value, count);
    if count == 0 {
        lemma2_to64();
    } else {
        let rest = number_bits(value / 2, (count - 1) as nat);
        let bits = number_bits(value, count);
        lemma_number_bits_length(value / 2, (count - 1) as nat);
        assert forall|i: int| 0 <= i < rest.len() implies #[trigger] rest[i] == bit_at(
            bytes,
            position + i,
        ) by {
            assert(bits[i] == rest[i]);
        }
        lemma_written_value(bytes, position, value / 2, (count - 1) as nat);
        assert(bits[count - 1] == value % 2);
        lemma_pow2_unfold(count);
        let half = pow2((count - 1) as nat) as int;
        vstd::arithmetic::power2::lemma_pow2_pos((count - 1) as nat);
        lemma_low_bits(value, half);
    }
}

proof fn lemma_low_bits(value: int, half: int)
    requires
        half > 0,
    ensures
        value % (2 * half) == 2 * ((value / 2) % half) + value % 2,
{
    let rest = value / 2;
    vstd::arithmetic::div_mod::lemma_fundamental_div_mod(rest, half);
    let quotient = rest / half;
    let low = 2 * (rest % half) + value % 2;
    assert(value == (2 * half) * quotient + low) by (nonlinear_arith)
        requires
            rest == half * quotient + rest % half,
            value == 2 * rest + value % 2,
            low == 2 * (rest % half) + value % 2,
    ;
    assert(0 <= rest % half < half) by (nonlinear_arith)
        requires
            half > 0,
    ;
    assert(value == quotient * (2 * half) + low) by (nonlinear_arith)
        requires
            value == (2 * half) * quotient + low,
    ;
    vstd::arithmetic::div_mod::lemma_fundamental_div_mod_converse(value, 2 * half, quotient, low);
}

/// A prefix of one bits is counted.
proof fn lemma_prefix_is_counted(bytes: Seq<u8>, position: int, ones: int, place: int)
    requires
        0 <= ones <= place <= 8,
        0 <= position,
        forall|i: int|
            0 <= i < place - ones ==> #[trigger] bit_at(bytes, position + i) == 1,
        place < 8 ==> bit_at(bytes, position + place - ones) == 0,
        position + place - ones + (if place < 8 {
            1int
        } else {
            0
        }) <= 8 * bytes.len(),
    ensures
        ones_at(bytes, position, ones) == Ok::<(int, int), ChunkError>(
            (place, position + place - ones + (if place < 8 {
                1int
            } else {
                0
            })),
        ),
    decreases place - ones,
{
    reveal_with_fuel(bits_value, 2);
    if ones < place {
        assert(bit_at(bytes, position + 0) == 1);
        assert forall|i: int| 0 <= i < place - ones - 1 implies #[trigger] bit_at(
            bytes,
            position + 1 + i,
        ) == 1 by {
            assert(bit_at(bytes, position + (1 + i)) == 1);
        }
        lemma_prefix_is_counted(bytes, position + 1, ones + 1, place);
    }
}

/// The number behind a prefix is read in the size that the prefix stands for.
proof fn lemma_sized_bits_are_read(bytes: Seq<u8>, position: int, value: int, place: nat)
    requires
        place <= 8,
        holds_bits(bytes, position, sized_bits(value, place)),
    ensures
        ({
            let size = number_sizes()[place as int];
            let end = position + sized_bits(value, place).len();
            &&& ones_at(bytes, position, 0) == Ok::<(int, int), ChunkError>((place as int, end - size))
            &&& varbit_size(place as int) == size
            &&& bits_at(bytes, end - size, size) == Ok::<(int, int), ChunkError>(
                (value % (pow2(size as nat) as int), end),
            )
        }),
{
    let size = number_sizes()[place as int];
    let bits = sized_bits(value, place);
    let number = number_bits(value, size as nat);
    lemma_number_bits_length(value, size as nat);
    let start = bits.len() - size;
    assert forall|i: int| 0 <= i < place implies #[trigger] bit_at(bytes, position + i) == 1 by {
        assert(bits[i] == 1);
    }
    if place < 8 {
        assert(bits[place as int] == 0);
    }
    lemma_prefix_is_counted(bytes, position, 0, place as int);
    assert forall|i: int| 0 <= i < number.len() implies #[trigger] number[i] == bit_at(
        bytes,
        position + start + i,
    ) by {
        assert(bits[start + i] == number[i]);
    }
    law_written_bits_are_read(bytes, position + start, value, size as nat);
}

proof fn lemma_written_place(value: int, place: nat, is_signed: bool) -> (found: nat)
    requires
        place <= 8,
        is_signed ==> fits_signed(value, 64),
        !is_signed ==> fits_unsigned(value, 64),
    ensures
        place <= found <= 8,
        is_signed ==> written_int(value, place) == sized_bits(value, found) && fits_signed(
            value,
            number_sizes()[found as int],
        ),
        !is_signed ==> written_uint(value, place) == sized_bits(value, found) && fits_unsigned(
            value,
            number_sizes()[found as int],
        ),
    decreases 8 - place,
{
    let size = number_sizes()[place as int];
    if place >= 8 || (is_signed && fits_signed(value, size)) || (!is_signed && fits_unsigned(
        value,
        size,
    )) {
        place
    } else {
        lemma_written_place(value, place + 1, is_signed)
    }
}

/// Reading undoes writing: where the bits of an unsigned number of 64 bits stand, the number is
/// read, and reading goes on behind them.
pub proof fn law_written_uints_are_read(bytes: Seq<u8>, position: int, value: int)
    requires
        fits_unsigned(value, 64),
        holds_bits(bytes, position, written_uint(value, 0)),
    ensures
        varbit_uint_at(bytes, position) == Ok::<(int, int), ChunkError>(
            (value, position + written_uint(value, 0).len()),
        ),
{
    let place = lemma_written_place(value, 0, false);
    lemma_sized_bits_are_read(bytes, position, value, place);
    vstd::arithmetic::div_mod::lemma_small_mod(
        value as nat,
        pow2(number_sizes()[place as int] as nat),
    );
}

/// Reading undoes writing: where the bits of a signed number of 64 bits stand, the number is read,
/// and reading goes on behind them.
pub proof fn law_written_ints_are_read(bytes: Seq<u8>, position: int, value: int)
    requires
        fits_signed(value, 64),
        holds_bits(bytes, position, written_int(value, 0)),
    ensures
        varbit_int_at(bytes, position) == Ok::<(int, int), ChunkError>(
            (value, position + written_int(value, 0).len()),
        ),
{
    let place = lemma_written_place(value, 0, true);
    lemma_sized_bits_are_read(bytes, position, value, place);
    let size = number_sizes()[place as int];
    lemma_pattern_of_signed(value, size);
}

/// A number below the power of two of its count of bits is read as it was written.
pub(crate) proof fn lemma_written_number(bytes: Seq<u8>, position: int, value: int, count: nat)
    requires
        count <= 64,
        0 <= value < pow2(count),
        holds_bits(bytes, position, number_bits(value, count)),
    ensures
        bits_at(bytes, position, count as int) == Ok::<(int, int), ChunkError>(
            (value, position + count),
        ),
        number_bits(value, count).len() == count,
{
    lemma_number_bits_length(value, count);
    law_written_bits_are_read(bytes, position, value, count);
    vstd::arithmetic::div_mod::lemma_small_mod(value as nat, pow2(count));
}

/// The pattern of a number in two's complement stands for the number.
pub(crate) proof fn lemma_pattern_of_signed(value: int, size: int)
    requires
        0 <= size <= 64,
        fits_signed(value, size),
    ensures
        signed(value % (pow2(size as nat) as int), size) == value,
{
    if size > 0 {
        let half = pow2((size - 1) as nat) as int;
        let whole = pow2(size as nat) as int;
        lemma_pow2_unfold(size as nat);
        vstd::arithmetic::power2::lemma_pow2_pos((size - 1) as nat);
        assert(whole == 2 * half);
        if value >= 0 {
            vstd::arithmetic::div_mod::lemma_small_mod(value as nat, whole as nat);
        } else {
            vstd::arithmetic::div_mod::lemma_small_mod((value + whole) as nat, whole as nat);
            vstd::arithmetic::div_mod::lemma_mod_add_multiples_vanish(value, whole);
        }
    }
}

/// A reader over the bits of a byte string.
pub struct BitReader<'a> {
    bytes: &'a [u8],
    byte: usize,
    bit: u8,
}

impl<'a> BitReader<'a> {
    /// The bytes that the reader runs over.
    pub closed spec fn stream(&self) -> Seq<u8> {
        self.bytes@
    }

    /// The number of bits that were read.
    pub closed spec fn position(&self) -> int {
        8 * self.byte + self.bit
    }

    /// The position lies inside the stream or at its end.
    pub closed spec fn valid(&self) -> bool {
        &&& self.bit < 8
        &&& self.byte <= self.bytes@.len()
        &&& self.byte == self.bytes@.len() ==> self.bit == 0
    }

    /// A reader at the first bit.
    pub fn new(bytes: &'a [u8]) -> (reader: Self)
        ensures
            reader.valid(),
            reader.stream() == bytes@,
            reader.position() == 0,
    {
        BitReader { bytes, byte: 0, bit: 0 }
    }

    /// Reads a number of `count` bits, most significant bit first.
    pub fn read_bits(&mut self, count: u8) -> (result: Result<u64, ChunkError>)
        requires
            old(self).valid(),
        ensures
            final(self).valid(),
            final(self).stream() == old(self).stream(),
            match result {
                Ok(value) => bits_at(old(self).stream(), old(self).position(), count as int)
                    == Ok::<(int, int), ChunkError>((value as int, final(self).position())),
                Err(error) => {
                    &&& bits_at(old(self).stream(), old(self).position(), count as int) == Err::<
                        (int, int),
                        ChunkError,
                    >(error)
                    &&& final(self).position() == old(self).position()
                },
            },
    {
        let left: usize = self.bytes.len() - self.byte;
        if count > 64 || (left < 9 && count as usize + self.bit as usize > 8 * left) {
            return Err(ChunkError::TruncatedBits);
        }
        let ghost start = self.position();
        let mut value: u64 = 0;
        let mut done: u8 = 0;
        while done < count
            invariant
                self.valid(),
                self.stream() == old(self).stream(),
                start == old(self).position(),
                start + count <= 8 * self.stream().len(),
                done <= count <= 64,
                self.position() == start + done,
                value == bits_value(self.stream(), start, done as int),
            decreases count - done,
        {
            let weight: u8 = if self.bit == 0 {
                128
            } else if self.bit == 1 {
                64
            } else if self.bit == 2 {
                32
            } else if self.bit == 3 {
                16
            } else if self.bit == 4 {
                8
            } else if self.bit == 5 {
                4
            } else if self.bit == 6 {
                2
            } else {
                1
            };
            let bit: u8 = self.bytes[self.byte] / weight % 2;
            proof {
                lemma_bits_value_bound(self.stream(), start, done as int);
                lemma2_to64();
                lemma2_to64_rest();
                lemma_small_power(done as nat);
                assert(bit == bit_at(self.stream(), start + done));
            }
            value = value * 2 + bit as u64;
            done = done + 1;
            if self.bit == 7 {
                self.byte = self.byte + 1;
                self.bit = 0;
            } else {
                self.bit = self.bit + 1;
            }
        }
        Ok(value)
    }

    /// Reads the prefix of a variable-length number and returns the number's size in bits.
    fn read_varbit_prefix(&mut self) -> (result: Result<u8, ChunkError>)
        requires
            old(self).valid(),
        ensures
            final(self).valid(),
            final(self).stream() == old(self).stream(),
            match result {
                Ok(size) => exists|ones: int|
                    {
                        &&& #[trigger] varbit_size(ones) == size
                        &&& ones_at(old(self).stream(), old(self).position(), 0) == Ok::<
                            (int, int),
                            ChunkError,
                        >((ones, final(self).position()))
                    },
                Err(error) => ones_at(old(self).stream(), old(self).position(), 0) == Err::<
                    (int, int),
                    ChunkError,
                >(error),
            },
    {
        let mut ones: u8 = 0;
        while ones < 8
            invariant_except_break
                ones_at(old(self).stream(), old(self).position(), 0) == ones_at(
                    self.stream(),
                    self.position(),
                    ones as int,
                ),
            invariant
                self.valid(),
                self.stream() == old(self).stream(),
                ones <= 8,
            ensures
                ones_at(old(self).stream(), old(self).position(), 0) == Ok::<
                    (int, int),
                    ChunkError,
                >((ones as int, self.position())),
            decreases 8 - ones,
        {
            let bit: u64 = self.read_bits(1)?;
            if bit == 0 {
                break;
            }
            ones = ones + 1;
        }
        let size: u8 = if ones == 0 {
            0
        } else if ones == 1 {
            3
        } else if ones == 2 {
            6
        } else if ones == 3 {
            9
        } else if ones == 4 {
            12
        } else if ones == 5 {
            18
        } else if ones == 6 {
            25
        } else if ones == 7 {
            56
        } else {
            64
        };
        assert(varbit_size(ones as int) == size);
        Ok(size)
    }

    /// Reads an unsigned variable-length number.
    pub fn read_varbit_uint(&mut self) -> (result: Result<u64, ChunkError>)
        requires
            old(self).valid(),
        ensures
            final(self).valid(),
            final(self).stream() == old(self).stream(),
            match result {
                Ok(value) => varbit_uint_at(old(self).stream(), old(self).position()) == Ok::<
                    (int, int),
                    ChunkError,
                >((value as int, final(self).position())),
                Err(error) => varbit_uint_at(old(self).stream(), old(self).position()) == Err::<
                    (int, int),
                    ChunkError,
                >(error),
            },
    {
        let size: u8 = self.read_varbit_prefix()?;
        self.read_bits(size)
    }

    /// Reads a signed variable-length number.
    pub fn read_varbit_int(&mut self) -> (result: Result<i64, ChunkError>)
        requires
            old(self).valid(),
        ensures
            final(self).valid(),
            final(self).stream() == old(self).stream(),
            match result {
                Ok(value) => varbit_int_at(old(self).stream(), old(self).position()) == Ok::<
                    (int, int),
                    ChunkError,
                >((value as int, final(self).position())),
                Err(error) => varbit_int_at(old(self).stream(), old(self).position()) == Err::<
                    (int, int),
                    ChunkError,
                >(error),
            },
    {
        let size: u8 = self.read_varbit_prefix()?;
        let ghost start = self.position();
        let pattern: u64 = self.read_bits(size)?;
        proof {
            lemma_bits_value_bound(self.stream(), start, size as int);
        }
        Ok(from_pattern(pattern, size))
    }
}

proof fn lemma_small_power(n: nat)
    requires
        n <= 63,
    ensures
        pow2(n) <= 0x8000_0000_0000_0000,
{
    lemma2_to64_rest();
    if n < 63 {
        vstd::arithmetic::power2::lemma_pow2_strictly_increases(n, 63);
    }
}

/// The signed number that a bit pattern of one of the sizes of variable-length numbers stands for.
pub(crate) fn from_pattern(pattern: u64, size: u8) -> (value: i64)
    requires
        size == 0 || size == 3 || size == 6 || size == 9 || size == 12 || size == 14 || size == 17
            || size == 18 || size == 20 || size == 25 || size == 56 || size == 64,
        pattern < pow2(size as nat),
    ensures
        value == signed(pattern as int, size as int),
{
    proof {
        lemma2_to64();
        lemma2_to64_rest();
    }
    if size == 64 {
        return if pattern >= 0x8000_0000_0000_0000 {
            (pattern - 0x8000_0000_0000_0000) as i64 + i64::MIN
        } else {
            pattern as i64
        };
    }
    let half: u64 = if size == 0 {
        return 0;
    } else if size == 3 {
        4
    } else if size == 6 {
        32
    } else if size == 9 {
        0x100
    } else if size == 12 {
        0x800
    } else if size == 14 {
        0x2000
    } else if size == 17 {
        0x1_0000
    } else if size == 18 {
        0x2_0000
    } else if size == 20 {
        0x8_0000
    } else if size == 25 {
        0x100_0000
    } else {
        0x80_0000_0000_0000
    };
    if pattern > half {
        pattern as i64 - 2 * half as i64
    } else {
        pattern as i64
    }
}

} // verus!
