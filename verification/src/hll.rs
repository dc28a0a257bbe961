//! HyperLogLog registers of label values, and the metadata segment that holds them.

use vstd::prelude::*;
use vstd::utf8::{decode_utf8, encode_utf8, valid_utf8};

#[allow(unused_imports)]
use crate::digest::{be_bytes, sha256};
use crate::digest::{push_all, push_be_bytes, sha256_digest};
use crate::sorted_map::SortedMap;
#[allow(unused_imports)]
use crate::sorted_map::{keys_increase, lemma_take_pairs, pairs_map};
use crate::text::utf8_text;

verus! {

/// The number that big-endian bytes stand for.
pub open spec fn be_value(bytes: Seq<u8>) -> int
    decreases bytes.len(),
{
    if bytes.len() == 0 {
        0
    } else {
        256 * be_value(bytes.drop_last()) + bytes.last()
    }
}

/// The first eight bytes of the SHA-256 digest of a text, as a number.
pub open spec fn value_bits(text: Seq<char>) -> int {
    be_value(sha256(encode_utf8(text)).take(8))
}

/// The register that a number with 64 bits belongs to: the six highest bits.
pub open spec fn bucket_of(bits: int) -> int {
    bits / 0x400_0000_0000_0000
}

/// One more than the number of zeros in front of the bits below the six highest ones.
pub open spec fn rank_of(bits: int) -> int {
    vstd::std_specs::bits::u64_leading_zeros(((bits % 0x400_0000_0000_0000) * 64) as u64) + 1
}

/// The registers with a number counted: its register holds the largest rank seen.
pub open spec fn counted_bits(registers: Seq<u8>, bits: int) -> Seq<u8> {
    if registers[bucket_of(bits)] < rank_of(bits) {
        registers.update(bucket_of(bits), rank_of(bits) as u8)
    } else {
        registers
    }
}

/// The registers with a text counted.
pub open spec fn counted(registers: Seq<u8>, text: Seq<char>) -> Seq<u8> {
    counted_bits(registers, value_bits(text))
}

/// The registers before the first text.
pub open spec fn no_values() -> Seq<u8> {
    Seq::new(64, |i: int| 0u8)
}

/// The registers that count the values of a label.
pub struct Hll {
    registers: Vec<u8>,
}

impl View for Hll {
    type V = Seq<u8>;

    closed spec fn view(&self) -> Seq<u8> {
        self.registers@
    }
}

proof fn lemma_be_value_small(bytes: Seq<u8>)
    requires
        bytes.len() <= 8,
    ensures
        0 <= be_value(bytes) < pow256(bytes.len() as int),
        pow256(bytes.len() as int) <= 0x1_0000_0000_0000_0000,
        bytes.len() <= 7 ==> pow256(bytes.len() as int) <= 0x100_0000_0000_0000,
    decreases bytes.len(),
{
    reveal_with_fuel(pow256, 9);
    if bytes.len() > 0 {
        lemma_be_value_small(bytes.drop_last());
    }
}

/// How many numbers so many bytes stand for.
pub open spec fn pow256(n: int) -> int
    decreases n,
{
    if n <= 0 {
        1
    } else {
        256 * pow256(n - 1)
    }
}

/// The number that the eight bytes at a position stand for.
pub(crate) fn eight_at(bytes: &[u8], at: usize) -> (value: u64)
    requires
        at + 8 <= bytes@.len(),
    ensures
        value == be_value(bytes@.subrange(at as int, at + 8)),
{
    let ghost part = bytes@.subrange(at as int, at + 8);
    let end: usize = bytes.len();
    let mut value: u64 = 0;
    let mut i: usize = 0;
    while i < 8
        invariant
            i <= 8,
            at + 8 <= end == bytes@.len(),
            part == bytes@.subrange(at as int, at + 8),
            value == be_value(part.take(i as int)),
        decreases 8 - i,
    {
        proof {
            assert(part.take(i + 1).drop_last() =~= part.take(i as int));
            lemma_be_value_small(part.take(i as int));
            lemma_be_value_small(part.take(i + 1));
        }
        value = value * 256 + bytes[at + i] as u64;
        i = i + 1;
    }
    assert(part.take(8) =~= part);
    value
}

/// Eight bytes are enough for every number of 64 bits.
pub(crate) proof fn lemma_eight_bytes(number: int)
    requires
        0 <= number <= u64::MAX,
    ensures
        be_bytes(number, 8).len() == 8,
        be_value(be_bytes(number, 8)) == number,
{
    reveal_with_fuel(pow256, 9);
    lemma_be_length(number, 8);
    lemma_be_inverse(number, 8);
}

impl Hll {
    #[verifier::type_invariant]
    spec fn well_formed(self) -> bool {
        self.registers@.len() == 64
    }

    /// The registers before the first text.
    pub fn new() -> (hll: Self)
        ensures
            hll@ == no_values(),
    {
        let hll = Hll { registers: vec![0u8; 64] };
        assert(hll@ =~= no_values());
        hll
    }

    /// The registers.
    pub fn registers(&self) -> (registers: &Vec<u8>)
        ensures
            registers@ == self@,
            registers@.len() == 64,
    {
        proof {
            use_type_invariant(self);
        }
        &self.registers
    }

    /// Counts a text.
    pub fn add(&mut self, value: &str)
        ensures
            final(self)@ == counted(old(self)@, value@),
            final(self)@.len() == 64,
            0 <= value_bits(value@) <= u64::MAX,
    {
        proof {
            use_type_invariant(&*self);
        }
        let hash = sha256_digest(value.as_bytes());
        let bits: u64 = eight_at(hash.as_slice(), 0);
        let bucket: usize = (bits / 0x400_0000_0000_0000) as usize;
        let rest: u64 = (bits % 0x400_0000_0000_0000) * 64;
        proof {
            broadcast use vstd::std_specs::bits::axiom_u64_leading_zeros;

            assert(0 <= vstd::std_specs::bits::u64_leading_zeros(rest) <= 64);
        }
        let rank: u8 = rest.leading_zeros() as u8 + 1;
        if self.registers[bucket] < rank {
            let mut registers: Vec<u8> = vec![0u8; 64];
            std::mem::swap(&mut registers, &mut self.registers);
            registers.set(bucket, rank);
            self.registers = registers;
        }
    }
}

proof fn lemma_bits(bits: int)
    requires
        0 <= bits <= u64::MAX,
    ensures
        0 <= bucket_of(bits) < 64,
        1 <= rank_of(bits) <= 65,
{
    broadcast use vstd::std_specs::bits::axiom_u64_leading_zeros;

    assert(0 <= vstd::std_specs::bits::u64_leading_zeros(
        ((bits % 0x400_0000_0000_0000) * 64) as u64,
    ) <= 64);
}

/// Counting a number does not lower a register.
pub proof fn law_registers_do_not_fall(registers: Seq<u8>, bits: int, i: int)
    requires
        registers.len() == 64,
        0 <= bits <= u64::MAX,
        0 <= i < 64,
    ensures
        counted_bits(registers, bits).len() == 64,
        counted_bits(registers, bits)[i] >= registers[i],
{
    lemma_bits(bits);
}

/// The order in which numbers are counted does not matter, and counting one twice is the same as
/// counting it once.
pub proof fn law_counting_order_does_not_matter(registers: Seq<u8>, first: int, second: int)
    requires
        registers.len() == 64,
        0 <= first <= u64::MAX,
        0 <= second <= u64::MAX,
    ensures
        counted_bits(counted_bits(registers, first), second) == counted_bits(
            counted_bits(registers, second),
            first,
        ),
        counted_bits(counted_bits(registers, first), first) == counted_bits(registers, first),
{
    lemma_bits(first);
    lemma_bits(second);
    assert(counted_bits(counted_bits(registers, first), second) =~= counted_bits(
        counted_bits(registers, second),
        first,
    ));
    assert(counted_bits(counted_bits(registers, first), first) =~= counted_bits(registers, first));
}

/// Why a metadata segment cannot be written or read.
#[derive(Clone, Copy, Debug, PartialEq, Eq, Structural)]
pub enum HllError {
    TooManyLabels,
    NameTooLong,
    InvalidHeader,
    TruncatedLength,
    TruncatedName,
    InvalidName,
    TruncatedRegisters,
    DuplicateLabel,
    TrailingBytes,
}

impl HllError {
    /// What the error says.
    pub open spec fn text(&self) -> Seq<char> {
        match self {
            HllError::TooManyLabels => "too many HLL labels"@,
            HllError::NameTooLong => "HLL label name is too long"@,
            HllError::InvalidHeader => "invalid HLL metadata header"@,
            HllError::TruncatedLength => "truncated HLL label length"@,
            HllError::TruncatedName => "truncated HLL label name"@,
            HllError::InvalidName => "invalid HLL label name"@,
            HllError::TruncatedRegisters => "truncated HLL registers"@,
            HllError::DuplicateLabel => "duplicate HLL label"@,
            HllError::TrailingBytes => "trailing HLL metadata bytes"@,
        }
    }

    /// The text of the error.
    pub fn message(&self) -> (message: &'static str)
        ensures
            message@ == self.text(),
    {
        match self {
            HllError::TooManyLabels => "too many HLL labels",
            HllError::NameTooLong => "HLL label name is too long",
            HllError::InvalidHeader => "invalid HLL metadata header",
            HllError::TruncatedLength => "truncated HLL label length",
            HllError::TruncatedName => "truncated HLL label name",
            HllError::InvalidName => "invalid HLL label name",
            HllError::TruncatedRegisters => "truncated HLL registers",
            HllError::DuplicateLabel => "duplicate HLL label",
            HllError::TrailingBytes => "trailing HLL metadata bytes",
        }
    }
}

/// The start of a metadata segment: its magic number and version, and the number of labels.
pub open spec fn header(count: int) -> Seq<u8> {
    seq![84u8, 72u8, 76u8, 76u8, 1u8] + be_bytes(count, 4)
}

/// One label of a metadata segment: the length of its name, its name and its registers.
pub open spec fn entry_bytes(name: Seq<char>, registers: Seq<u8>) -> Seq<u8> {
    be_bytes(encode_utf8(name).len() as int, 2) + encode_utf8(name) + registers
}

/// The labels of a metadata segment.
pub open spec fn entries_bytes(pairs: Seq<(Seq<char>, Seq<u8>)>) -> Seq<u8>
    decreases pairs.len(),
{
    if pairs.len() == 0 {
        Seq::empty()
    } else {
        entries_bytes(pairs.drop_last()) + entry_bytes(pairs.last().0, pairs.last().1)
    }
}

/// The name of a label is too long for a metadata segment.
pub open spec fn has_long_name(pairs: Seq<(Seq<char>, Seq<u8>)>) -> bool {
    exists|i: int| 0 <= i < pairs.len() && encode_utf8((#[trigger] pairs[i]).0).len() > u16::MAX
}

/// The metadata segment for the registers of labels.
pub open spec fn segment(pairs: Seq<(Seq<char>, Seq<u8>)>) -> Result<Seq<u8>, HllError> {
    if pairs.len() > u32::MAX {
        Err(HllError::TooManyLabels)
    } else if has_long_name(pairs) {
        Err(HllError::NameTooLong)
    } else {
        Ok(header(pairs.len() as int) + entries_bytes(pairs))
    }
}

/// Writes the metadata segment for the registers of labels. Reading it gives the registers back.
pub fn encode_hll_metadata(hlls: &SortedMap<Hll>) -> (result: Result<Vec<u8>, HllError>)
    ensures
        match result {
            Ok(bytes) => segment(hlls.pairs()) == Ok::<Seq<u8>, HllError>(bytes@)
                && segment_entries(bytes@) == Ok::<Map<Seq<char>, Seq<u8>>, HllError>(hlls@),
            Err(error) => segment(hlls.pairs()) == Err::<Seq<u8>, HllError>(error),
        },
{
    let count: usize = hlls.len();
    let ghost pairs = hlls.pairs();
    if count as u64 > u32::MAX as u64 {
        return Err(HllError::TooManyLabels);
    }
    let mut bytes: Vec<u8> = Vec::new();
    bytes.push(84);
    bytes.push(72);
    bytes.push(76);
    bytes.push(76);
    bytes.push(1);
    assert(bytes@ =~= seq![84u8, 72u8, 76u8, 76u8, 1u8]);
    push_be_bytes(&mut bytes, count as u64, 4);
    let mut i: usize = 0;
    assert(bytes@ =~= header(count as int) + entries_bytes(pairs.take(0)));
    while i < count
        invariant
            i <= count == pairs.len(),
            count <= u32::MAX,
            pairs == hlls.pairs(),
            keys_increase(pairs),
            bytes@ == header(count as int) + entries_bytes(pairs.take(i as int)),
            forall|k: int|
                0 <= k < i ==> encode_utf8((#[trigger] pairs[k]).0).len() <= u16::MAX
                    && pairs[k].1.len() == 64,
        decreases count - i,
    {
        let name = hlls.key_at(i);
        let name_bytes = name.as_str().as_bytes();
        if name_bytes.len() as u64 > u16::MAX as u64 {
            assert(encode_utf8(pairs[i as int].0).len() > u16::MAX);
            return Err(HllError::NameTooLong);
        }
        let ghost before = bytes@;
        push_be_bytes(&mut bytes, name_bytes.len() as u64, 2);
        push_all(&mut bytes, name_bytes);
        push_all(&mut bytes, hlls.value_at(i).registers().as_slice());
        proof {
            assert(pairs.take(i + 1).drop_last() =~= pairs.take(i as int));
            assert(pairs.take(i + 1).last() == pairs[i as int]);
            assert(bytes@ =~= before + entry_bytes(pairs[i as int].0, pairs[i as int].1));
            assert(bytes@ =~= header(count as int) + entries_bytes(pairs.take(i + 1)));
        }
        i = i + 1;
    }
    assert(pairs.take(count as int) =~= pairs);
    proof {
        law_metadata_round_trips(pairs, bytes@);
    }
    Ok(bytes)
}

/// The label at an offset of a metadata segment: its name, its registers and the offset behind it.
pub open spec fn entry_at(bytes: Seq<u8>, offset: int) -> Result<
    (Seq<char>, Seq<u8>, int),
    HllError,
> {
    if offset + 2 > bytes.len() {
        Err(HllError::TruncatedLength)
    } else {
        let name_length = be_value(bytes.subrange(offset, offset + 2));
        let name_start = offset + 2;
        if name_start + name_length > bytes.len() {
            Err(HllError::TruncatedName)
        } else {
            let name = bytes.subrange(name_start, name_start + name_length);
            let start = name_start + name_length;
            if !valid_utf8(name) {
                Err(HllError::InvalidName)
            } else if start + 64 > bytes.len() {
                Err(HllError::TruncatedRegisters)
            } else {
                Ok((decode_utf8(name), bytes.subrange(start, start + 64), start + 64))
            }
        }
    }
}

/// The labels of a metadata segment from an offset on, put to those that were read before.
pub open spec fn entries_from(
    bytes: Seq<u8>,
    offset: int,
    count: int,
    known: Map<Seq<char>, Seq<u8>>,
) -> Result<Map<Seq<char>, Seq<u8>>, HllError>
    decreases count,
{
    if count <= 0 {
        if offset != bytes.len() {
            Err(HllError::TrailingBytes)
        } else {
            Ok(known)
        }
    } else {
        match entry_at(bytes, offset) {
            Err(error) => Err(error),
            Ok((name, registers, next)) => if known.contains_key(name) {
                Err(HllError::DuplicateLabel)
            } else {
                entries_from(bytes, next, count - 1, known.insert(name, registers))
            },
        }
    }
}

/// The registers of the labels that a metadata segment holds.
pub open spec fn segment_entries(bytes: Seq<u8>) -> Result<Map<Seq<char>, Seq<u8>>, HllError> {
    if bytes.len() < 9 || bytes.take(5) != seq![84u8, 72u8, 76u8, 76u8, 1u8] {
        Err(HllError::InvalidHeader)
    } else {
        entries_from(bytes, 9, be_value(bytes.subrange(5, 9)), Map::empty())
    }
}

fn read_entry(bytes: &[u8], offset: usize) -> (result: Result<(String, Vec<u8>, usize), HllError>)
    requires
        offset <= bytes@.len(),
    ensures
        match result {
            Ok((name, registers, next)) => {
                &&& entry_at(bytes@, offset as int) == Ok::<(Seq<char>, Seq<u8>, int), HllError>(
                    (name@, registers@, next as int),
                )
                &&& next <= bytes@.len()
            },
            Err(error) => entry_at(bytes@, offset as int) == Err::<
                (Seq<char>, Seq<u8>, int),
                HllError,
            >(error),
        },
{
    let left: usize = bytes.len() - offset;
    if left < 2 {
        return Err(HllError::TruncatedLength);
    }
    let name_length: usize = bytes[offset] as usize * 256 + bytes[offset + 1] as usize;
    proof {
        let two = bytes@.subrange(offset as int, offset + 2);
        reveal_with_fuel(be_value, 3);
        assert(two.drop_last().drop_last() =~= Seq::<u8>::empty());
        assert(two.drop_last().last() == bytes@[offset as int]);
        assert(be_value(two) == name_length);
    }
    if left - 2 < name_length {
        return Err(HllError::TruncatedName);
    }
    let start: usize = offset + 2 + name_length;
    let name = match utf8_text(&bytes[offset + 2..start]) {
        Some(name) => name,
        None => {
            return Err(HllError::InvalidName);
        },
    };
    if bytes.len() - start < 64 {
        return Err(HllError::TruncatedRegisters);
    }
    let registers: Vec<u8> = vstd::slice::slice_to_vec(&bytes[start..start + 64]);
    Ok((name, registers, start + 64))
}

/// Reads the registers of the labels that a metadata segment holds.
pub fn decode_hll_metadata(bytes: &[u8]) -> (result: Result<SortedMap<Vec<u8>>, HllError>)
    ensures
        match result {
            Ok(hlls) => segment_entries(bytes@) == Ok::<Map<Seq<char>, Seq<u8>>, HllError>(hlls@),
            Err(error) => segment_entries(bytes@) == Err::<Map<Seq<char>, Seq<u8>>, HllError>(
                error,
            ),
        },
{
    if bytes.len() < 9 {
        return Err(HllError::InvalidHeader);
    }
    let magic: bool = bytes[0] == 84 && bytes[1] == 72 && bytes[2] == 76 && bytes[3] == 76
        && bytes[4] == 1;
    assert(magic == (bytes@.take(5) =~= seq![84u8, 72u8, 76u8, 76u8, 1u8])) by {
        if bytes@.take(5) =~= seq![84u8, 72u8, 76u8, 76u8, 1u8] {
            assert(bytes@.take(5)[0] == 84 && bytes@.take(5)[1] == 72 && bytes@.take(5)[2] == 76
                && bytes@.take(5)[3] == 76 && bytes@.take(5)[4] == 1);
        }
    }
    if !magic {
        return Err(HllError::InvalidHeader);
    }
    let count: u64 = bytes[5] as u64 * 0x100_0000 + bytes[6] as u64 * 0x1_0000 + bytes[7] as u64
        * 0x100 + bytes[8] as u64;
    proof {
        let four = bytes@.subrange(5, 9);
        reveal_with_fuel(be_value, 5);
        assert(four.drop_last().drop_last().drop_last().drop_last() =~= Seq::<u8>::empty());
        assert(be_value(four) == count);
    }
    let mut hlls: SortedMap<Vec<u8>> = SortedMap::new();
    let mut offset: usize = 9;
    let mut done: u64 = 0;
    while done < count
        invariant
            done <= count,
            offset <= bytes@.len(),
            segment_entries(bytes@) == entries_from(bytes@, offset as int, count - done, hlls@),
        decreases count - done,
    {
        let (name, registers, next) = match read_entry(bytes, offset) {
            Ok(entry) => entry,
            Err(error) => {
                return Err(error);
            },
        };
        if hlls.contains_key(name.as_str()) {
            return Err(HllError::DuplicateLabel);
        }
        hlls.insert(name, registers);
        offset = next;
        done = done + 1;
    }
    if offset != bytes.len() {
        return Err(HllError::TrailingBytes);
    }
    Ok(hlls)
}

proof fn lemma_be_length(number: int, size: int)
    requires
        0 <= size,
    ensures
        be_bytes(number, size).len() == size,
    decreases size,
{
    if size > 0 {
        lemma_be_length(number / 256, size - 1);
    }
}

proof fn lemma_be_inverse(number: int, size: int)
    requires
        0 <= size,
        0 <= number < pow256(size),
    ensures
        be_value(be_bytes(number, size)) == number,
    decreases size,
{
    if size > 0 {
        assert(number / 256 < pow256(size - 1)) by (nonlinear_arith)
            requires
                0 <= number < 256 * pow256(size - 1),
        ;
        lemma_be_inverse(number / 256, size - 1);
        let bytes = be_bytes(number, size);
        assert(bytes.drop_last() =~= be_bytes(number / 256, size - 1));
    }
}

proof fn lemma_entries_prefix(pairs: Seq<(Seq<char>, Seq<u8>)>, n: int)
    requires
        0 <= n <= pairs.len(),
    ensures
        entries_bytes(pairs.take(n)).len() <= entries_bytes(pairs).len(),
        entries_bytes(pairs).take(entries_bytes(pairs.take(n)).len() as int) == entries_bytes(
            pairs.take(n),
        ),
    decreases pairs.len() - n,
{
    if n == pairs.len() {
        assert(pairs.take(n) =~= pairs);
        assert(entries_bytes(pairs).take(entries_bytes(pairs).len() as int) =~= entries_bytes(
            pairs,
        ));
    } else {
        lemma_entries_prefix(pairs, n + 1);
        assert(pairs.take(n + 1).drop_last() =~= pairs.take(n));
        let short = entries_bytes(pairs.take(n));
        let long = entries_bytes(pairs.take(n + 1));
        let all = entries_bytes(pairs);
        assert(all.take(short.len() as int) =~= short) by {
            assert(all.take(long.len() as int) == long);
            assert forall|i: int| 0 <= i < short.len() implies all[i] == short[i] by {
                assert(all.take(long.len() as int)[i] == long[i]);
            }
        }
    }
}

proof fn lemma_entry_read(
    pairs: Seq<(Seq<char>, Seq<u8>)>,
    bytes: Seq<u8>,
    n: int,
)
    requires
        0 <= n < pairs.len(),
        bytes == header(pairs.len() as int) + entries_bytes(pairs),
        !has_long_name(pairs),
        pairs[n].1.len() == 64,
    ensures
        header(pairs.len() as int).len() == 9,
        entry_at(bytes, 9 + entries_bytes(pairs.take(n)).len() as int) == Ok::<
            (Seq<char>, Seq<u8>, int),
            HllError,
        >((pairs[n].0, pairs[n].1, 9 + entries_bytes(pairs.take(n + 1)).len() as int)),
{
    let (name, registers) = pairs[n];
    let utf8 = encode_utf8(name);
    let size = utf8.len() as int;
    let length = be_bytes(size, 2);
    lemma_be_length(pairs.len() as int, 4);
    lemma_be_length(size, 2);
    assert(header(pairs.len() as int).len() == 9);
    assert(size <= u16::MAX) by {
        if size > u16::MAX {
            assert(has_long_name(pairs));
        }
    }
    reveal_with_fuel(pow256, 3);
    lemma_be_inverse(size, 2);
    let short = entries_bytes(pairs.take(n));
    let long = entries_bytes(pairs.take(n + 1));
    let entry = entry_bytes(name, registers);
    lemma_entries_prefix(pairs, n + 1);
    assert(pairs.take(n + 1).drop_last() =~= pairs.take(n));
    assert(long == short + entry);
    let offset = 9 + short.len() as int;
    assert forall|i: int| 0 <= i < entry.len() implies bytes[offset + i] == entry[i] by {
        assert(entries_bytes(pairs).take(long.len() as int)[short.len() + i] == long[short.len()
            + i]);
    }
    assert(bytes.len() >= offset + entry.len());
    assert(bytes.subrange(offset, offset + 2) =~= length) by {
        assert forall|i: int| 0 <= i < 2 implies bytes[offset + i] == length[i] by {
            assert(entry[i] == length[i]);
        }
    }
    assert(bytes.subrange(offset + 2, offset + 2 + size) =~= utf8) by {
        assert forall|i: int| 0 <= i < size implies bytes[offset + 2 + i] == utf8[i] by {
            assert(entry[2 + i] == utf8[i]);
        }
    }
    assert(bytes.subrange(offset + 2 + size, offset + 2 + size + 64) =~= registers) by {
        assert forall|i: int| 0 <= i < 64 implies bytes[offset + 2 + size + i]
            == registers[i] by {
            assert(entry[2 + size + i] == registers[i]);
        }
    }
    vstd::utf8::encode_utf8_valid_utf8(name);
    vstd::utf8::encode_utf8_decode_utf8(name);
}

proof fn lemma_entries_read(
    pairs: Seq<(Seq<char>, Seq<u8>)>,
    bytes: Seq<u8>,
    n: int,
)
    requires
        0 <= n <= pairs.len(),
        keys_increase(pairs),
        bytes == header(pairs.len() as int) + entries_bytes(pairs),
        !has_long_name(pairs),
        forall|i: int| 0 <= i < pairs.len() ==> (#[trigger] pairs[i]).1.len() == 64,
    ensures
        entries_from(
            bytes,
            9 + entries_bytes(pairs.take(n)).len() as int,
            pairs.len() - n,
            pairs_map(pairs.take(n)),
        ) == Ok::<Map<Seq<char>, Seq<u8>>, HllError>(pairs_map(pairs)),
    decreases pairs.len() - n,
{
    lemma_be_length(pairs.len() as int, 4);
    if n == pairs.len() {
        assert(pairs.take(n) =~= pairs);
    } else {
        lemma_entry_read(pairs, bytes, n);
        lemma_take_pairs(pairs, n);
        lemma_entries_read(pairs, bytes, n + 1);
    }
}

/// Reading a metadata segment gives the registers back that it was written for.
pub proof fn law_metadata_round_trips(pairs: Seq<(Seq<char>, Seq<u8>)>, bytes: Seq<u8>)
    requires
        keys_increase(pairs),
        forall|i: int| 0 <= i < pairs.len() ==> (#[trigger] pairs[i]).1.len() == 64,
        segment(pairs) == Ok::<Seq<u8>, HllError>(bytes),
    ensures
        segment_entries(bytes) == Ok::<Map<Seq<char>, Seq<u8>>, HllError>(pairs_map(pairs)),
{
    let count = pairs.len() as int;
    lemma_be_length(count, 4);
    reveal_with_fuel(pow256, 5);
    lemma_be_inverse(count, 4);
    assert(bytes.take(5) =~= seq![84u8, 72u8, 76u8, 76u8, 1u8]);
    assert(bytes.subrange(5, 9) =~= be_bytes(count, 4));
    lemma_entries_read(pairs, bytes, 0);
    assert(pairs.take(0) =~= Seq::<(Seq<char>, Seq<u8>)>::empty());
    assert(pairs_map(pairs.take(0)) =~= Map::<Seq<char>, Seq<u8>>::empty());
}

/// The first one of bytes counts most in the number that they stand for.
pub proof fn law_the_first_byte_counts_most(first: u8, rest: Seq<u8>)
    ensures
        be_value(seq![first] + rest) == first * pow256(rest.len() as int) + be_value(rest),
    decreases rest.len(),
{
    let bytes = seq![first] + rest;
    if rest.len() == 0 {
        assert(bytes.drop_last() =~= Seq::<u8>::empty());
        assert(be_value(bytes.drop_last()) == 0);
        assert(rest =~= Seq::<u8>::empty());
    } else {
        law_the_first_byte_counts_most(first, rest.drop_last());
        assert(bytes.drop_last() =~= seq![first] + rest.drop_last());
        let power = pow256(rest.len() - 1);
        assert(256 * (first * power) == first * (256 * power)) by (nonlinear_arith);
    }
}

/// Numbers are written with so many bytes that they are read from them again.
pub proof fn law_written_numbers_are_read_from_bytes(number: int, size: int)
    requires
        0 <= size,
        0 <= number < pow256(size),
    ensures
        be_bytes(number, size).len() == size,
        be_value(be_bytes(number, size)) == number,
{
    lemma_be_length(number, size);
    lemma_be_inverse(number, size);
}

/// A number of 64 bits belongs to the register that its six highest bits name.
pub proof fn law_the_highest_bits_name_the_register(register: int, rest: int)
    requires
        0 <= register < 64,
        0 <= rest < 0x400_0000_0000_0000,
    ensures
        bucket_of(register * 0x400_0000_0000_0000 + rest) == register,
{
}

/// The rank of a number is the place of the first bit below the six highest ones that is set, counted
/// from one; where none is set it is 65.
#[verifier::spinoff_prover]
#[verifier::rlimit(60)]
pub proof fn law_ranks_are_places_of_bits(register: int, rest: u64, place: u64)
    requires
        0 <= register < 64,
    ensures
        rank_of(register * 0x400_0000_0000_0000) == 65,
        1 <= place <= 58 && (1u64 << ((58 - place) as u64)) <= rest < (1u64 << ((59
            - place) as u64)) ==> rank_of(register * 0x400_0000_0000_0000 + rest) == place,
{
    broadcast use vstd::std_specs::bits::axiom_u64_leading_zeros;

    if 1 <= place <= 58 && (1u64 << ((58 - place) as u64)) <= rest < (1u64 << ((59
        - place) as u64)) {
        let below = (58 - place) as u64;
        let above = (59 - place) as u64;
        assert((1u64 << above) <= 0x400_0000_0000_0000) by (bit_vector)
            requires
                above <= 58,
        ;
        let shifted = (rest * 64) as u64;
        let zeros = vstd::std_specs::bits::u64_leading_zeros(shifted) as u64;
        let low = (63 - zeros) as u64;
        let high = (64 - zeros) as u64;
        assert((register * 0x400_0000_0000_0000 + rest) % 0x400_0000_0000_0000 == rest);
        assert(shifted >= 64) by {
            assert((1u64 << below) >= 1) by (bit_vector)
                requires
                    below <= 57,
            ;
        }
        assert(zeros < 64);
        assert((shifted >> low) & 1u64 != 0u64);
        assert(shifted >> high == 0);
        assert(zeros + 1 == place) by (bit_vector)
            requires
                zeros < 64,
                1 <= place <= 58,
                low == 63 - zeros,
                high == 64 - zeros,
                below == 58 - place,
                above == 59 - place,
                shifted == rest * 64,
                (1u64 << below) <= rest,
                rest < (1u64 << above),
                (shifted >> low) & 1u64 != 0u64,
                shifted >> high == 0,
        ;
    }
}

/// Counting a number raises its register to its rank, if it held less, and leaves all others as they
/// were.
pub proof fn law_registers_hold_the_largest_rank(registers: Seq<u8>, bits: int, i: int)
    requires
        registers.len() == 64,
        0 <= bits <= u64::MAX,
        0 <= i < 64,
    ensures
        i != bucket_of(bits) ==> counted_bits(registers, bits)[i] == registers[i],
        i == bucket_of(bits) && registers[i] >= rank_of(bits) ==> counted_bits(registers, bits)[i]
            == registers[i],
        i == bucket_of(bits) && registers[i] < rank_of(bits) ==> counted_bits(registers, bits)[i]
            == rank_of(bits),
{
    lemma_bits(bits);
}

/// A metadata segment starts with four letters and its version, and its number of labels stands
/// behind them.
pub proof fn law_segments_start_with_their_name(count: int)
    requires
        0 <= count <= u32::MAX,
    ensures
        header(count).len() == 9,
        header(count)[0] as int == 'T' as int,
        header(count)[1] as int == 'H' as int,
        header(count)[2] as int == 'L' as int,
        header(count)[3] as int == 'L' as int,
        header(count)[4] == 1,
        be_value(header(count).skip(5)) == count,
{
    reveal_with_fuel(pow256, 5);
    law_written_numbers_are_read_from_bytes(count, 4);
    assert(header(count).skip(5) =~= be_bytes(count, 4));
}

/// The labels of a metadata segment stand one behind the other: the length of a name in two bytes,
/// the name, its registers, and the labels that follow.
#[verifier::spinoff_prover]
#[verifier::rlimit(60)]
pub proof fn law_labels_stand_one_behind_the_other(
    name: Seq<char>,
    registers: Seq<u8>,
    rest: Seq<(Seq<char>, Seq<u8>)>,
)
    requires
        encode_utf8(name).len() <= u16::MAX,
    ensures
        ({
            let bytes = entries_bytes(seq![(name, registers)] + rest);
            let size = encode_utf8(name).len() as int;
            &&& bytes.len() >= 2 + size + registers.len()
            &&& be_value(bytes.take(2)) == size
            &&& bytes.subrange(2, 2 + size) == encode_utf8(name)
            &&& bytes.subrange(2 + size, 2 + size + registers.len()) == registers
            &&& bytes.skip(2 + size + registers.len()) == entries_bytes(rest)
        }),
{
    reveal_with_fuel(pow256, 3);
    let size = encode_utf8(name).len() as int;
    law_written_numbers_are_read_from_bytes(size, 2);
    lemma_first_entry(name, registers, rest);
    let bytes = entries_bytes(seq![(name, registers)] + rest);
    assert(bytes.take(2) =~= be_bytes(size, 2));
    assert(bytes.subrange(2, 2 + size) =~= encode_utf8(name));
    assert(bytes.subrange(2 + size, 2 + size + registers.len()) =~= registers);
    assert(bytes.skip(2 + size + registers.len()) =~= entries_bytes(rest));
}

proof fn lemma_first_entry(
    name: Seq<char>,
    registers: Seq<u8>,
    rest: Seq<(Seq<char>, Seq<u8>)>,
)
    ensures
        entries_bytes(seq![(name, registers)] + rest) == entry_bytes(name, registers)
            + entries_bytes(rest),
    decreases rest.len(),
{
    let all = seq![(name, registers)] + rest;
    if rest.len() == 0 {
        assert(all.drop_last() =~= rest);
        assert(entries_bytes(rest) == Seq::<u8>::empty());
        assert(Seq::<u8>::empty() + entry_bytes(name, registers) =~= entry_bytes(name, registers)
            + Seq::<u8>::empty());
    } else {
        lemma_first_entry(name, registers, rest.drop_last());
        assert(all.drop_last() =~= seq![(name, registers)] + rest.drop_last());
        let last = entry_bytes(rest.last().0, rest.last().1);
        assert(entry_bytes(name, registers) + entries_bytes(rest.drop_last()) + last
            =~= entry_bytes(name, registers) + (entries_bytes(rest.drop_last()) + last));
    }
}

/// Bytes are refused as a metadata segment if they are too few for its start, or do not start with its
/// four letters and its version.
pub proof fn law_other_bytes_are_no_segment(bytes: Seq<u8>)
    ensures
        bytes.len() < 9 || !(bytes[0] as int == 'T' as int && bytes[1] as int == 'H' as int
            && bytes[2] as int == 'L' as int && bytes[3] as int == 'L' as int && bytes[4] == 1)
            ==> segment_entries(bytes) == Err::<Map<Seq<char>, Seq<u8>>, HllError>(
            HllError::InvalidHeader,
        ),
{
    if bytes.len() >= 9 && bytes.take(5) == seq![84u8, 72u8, 76u8, 76u8, 1u8] {
        assert(bytes.take(5)[0] == bytes[0]);
        assert(bytes.take(5)[1] == bytes[1]);
        assert(bytes.take(5)[2] == bytes[2]);
        assert(bytes.take(5)[3] == bytes[3]);
        assert(bytes.take(5)[4] == bytes[4]);
    }
}

proof fn lemma_entries_are_counted(
    bytes: Seq<u8>,
    offset: int,
    count: int,
    known: Map<Seq<char>, Seq<u8>>,
)
    requires
        0 <= count,
        0 <= offset,
        known.dom().finite(),
        forall|name: Seq<char>| #[trigger] known.contains_key(name) ==> known[name].len() == 64,
    ensures
        entries_from(bytes, offset, count, known) matches Ok(entries) ==> {
            &&& entries.dom().finite()
            &&& entries.dom().len() == known.dom().len() + count
            &&& forall|name: Seq<char>| #[trigger]
                entries.contains_key(name) ==> entries[name].len() == 64
        },
    decreases count,
{
    if count > 0 {
        if let Ok((name, registers, next)) = entry_at(bytes, offset) {
            lemma_be_value_small(bytes.subrange(offset, offset + 2));
            let grown = known.insert(name, registers);
            assert(grown.dom() =~= known.dom().insert(name));
            lemma_entries_are_counted(bytes, next, count - 1, grown);
        }
    }
}

/// A segment that is read has as many labels as it says, no name twice, and sixty-four registers for
/// each.
pub proof fn law_read_segments_hold_their_labels(bytes: Seq<u8>)
    ensures
        segment_entries(bytes) matches Ok(entries) ==> {
            &&& entries.dom().finite()
            &&& entries.dom().len() == be_value(bytes.subrange(5, 9))
            &&& forall|name: Seq<char>| #[trigger]
                entries.contains_key(name) ==> entries[name].len() == 64
        },
{
    if bytes.len() >= 9 {
        lemma_be_value_small(bytes.subrange(5, 9));
        lemma_entries_are_counted(bytes, 9, be_value(bytes.subrange(5, 9)), Map::empty());
    }
}

/// A segment cannot be written for more labels than 32 bits count, nor for a name of more bytes than 16
/// bits count; all others can.
pub proof fn law_segments_are_limited(pairs: Seq<(Seq<char>, Seq<u8>)>)
    ensures
        pairs.len() > u32::MAX ==> segment(pairs) == Err::<Seq<u8>, HllError>(
            HllError::TooManyLabels,
        ),
        segment(pairs) is Ok <==> pairs.len() < 0x1_0000_0000 && forall|i: int|
            0 <= i < pairs.len() ==> encode_utf8((#[trigger] pairs[i]).0).len() < 0x1_0000,
{
}

} // verus!
