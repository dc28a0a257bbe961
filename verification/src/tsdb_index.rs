//! The Prometheus TSDB index file, versions 1 and 2.

use vstd::prelude::*;
use vstd::utf8::{decode_utf8, encode_utf8, valid_utf8};

use crate::digest::crc32c_checksum;
#[allow(unused_imports)]
use crate::digest::{be_bytes, crc32c};
use crate::sorted_map::SortedMap;
#[allow(unused_imports)]
use crate::text::decimal_text;
use crate::text::{decimal, joined, utf8_text};

verus! {

pub const INDEX_MAGIC: u32 = 0xBAAA_D700;

pub const MIN_SUPPORTED_INDEX_VERSION: u8 = 1;

pub const MAX_SUPPORTED_INDEX_VERSION: u8 = 2;

pub const TOC_SIZE: usize = 48;

pub const CHECKSUM_SIZE: usize = 4;

pub const SERIES_ALIGNMENT: usize = 16;

/// A part of the index that carries a checksum.
#[derive(Clone, Copy, Debug, PartialEq, Eq, Structural)]
pub enum Section {
    Toc,
    SymbolTable,
    SeriesEntry,
}

/// Why an index file was rejected.
#[derive(Clone, Copy, Debug, PartialEq, Eq, Structural)]
pub enum IndexError {
    TooShort,
    InvalidMagic,
    UnsupportedVersion(u8),
    CrcMismatch(Section),
    InvalidSeriesBounds,
    SeriesLengthOverflow,
    SeriesChecksumOverflow,
    TruncatedSeriesEntry,
    TruncatedSymbolTable,
    SymbolLengthOverflow,
    TruncatedSymbol,
    SymbolNotUtf8,
    TrailingSymbolBytes,
    DuplicateLabel,
    MintDeltaOverflow,
    MintOverflow,
    DurationOverflow,
    MaxtOverflow,
    ReferenceOutOfRange,
    ReferencesNotIncreasing,
    TrailingSeriesBytes,
    InvalidSymbolReference,
    SymbolOutOfBounds,
    TruncatedU32,
    TruncatedU64,
    TruncatedUvarint,
    UvarintOverflow,
}

impl Section {
    /// The name of a part of the index.
    pub open spec fn name(&self) -> Seq<char> {
        match self {
            Section::Toc => "TOC"@,
            Section::SymbolTable => "symbol table"@,
            Section::SeriesEntry => "series entry"@,
        }
    }

    fn title(&self) -> (name: &'static str)
        ensures
            name@ == self.name(),
    {
        match self {
            Section::Toc => "TOC",
            Section::SymbolTable => "symbol table",
            Section::SeriesEntry => "series entry",
        }
    }
}

impl IndexError {
    /// The text of an error.
    pub open spec fn text(&self) -> Seq<char> {
        match self {
            IndexError::TooShort => "index is too short"@,
            IndexError::InvalidMagic => "invalid index magic"@,
            IndexError::InvalidSeriesBounds => "invalid series section bounds"@,
            IndexError::SeriesLengthOverflow => "series entry length overflow"@,
            IndexError::SeriesChecksumOverflow => "series checksum offset overflow"@,
            IndexError::TruncatedSeriesEntry => "truncated series entry"@,
            IndexError::TruncatedSymbolTable => "truncated symbol table"@,
            IndexError::SymbolLengthOverflow => "symbol length overflow"@,
            IndexError::TruncatedSymbol => "truncated symbol"@,
            IndexError::SymbolNotUtf8 => "symbol is not valid UTF-8"@,
            IndexError::TrailingSymbolBytes => "unexpected bytes in symbol table"@,
            IndexError::DuplicateLabel => "series contains a duplicate label name"@,
            IndexError::MintDeltaOverflow => "chunk mint delta overflows i64"@,
            IndexError::MintOverflow => "chunk mint overflows i64"@,
            IndexError::DurationOverflow => "chunk duration overflows i64"@,
            IndexError::MaxtOverflow => "chunk maxt overflows i64"@,
            IndexError::ReferenceOutOfRange => "chunk reference underflows or overflows"@,
            IndexError::ReferencesNotIncreasing => "chunk references are not increasing"@,
            IndexError::TrailingSeriesBytes => "unexpected bytes in series entry"@,
            IndexError::InvalidSymbolReference => "invalid symbol reference"@,
            IndexError::SymbolOutOfBounds => "symbol reference is out of bounds"@,
            IndexError::TruncatedU32 => "truncated u32"@,
            IndexError::TruncatedU64 => "truncated u64"@,
            IndexError::TruncatedUvarint => "truncated uvarint"@,
            IndexError::UvarintOverflow => "uvarint overflows u64"@,
            IndexError::UnsupportedVersion(version) => "unsupported index version "@
                + decimal_text(*version as int),
            IndexError::CrcMismatch(section) => section.name() + " CRC mismatch"@,
        }
    }

    /// The text of an error, for people to read.
    pub fn message(&self) -> (message: String)
        ensures
            message@ == self.text(),
    {
        match self {
            IndexError::TooShort => "index is too short".to_owned(),
            IndexError::InvalidMagic => "invalid index magic".to_owned(),
            IndexError::InvalidSeriesBounds => "invalid series section bounds".to_owned(),
            IndexError::SeriesLengthOverflow => "series entry length overflow".to_owned(),
            IndexError::SeriesChecksumOverflow => "series checksum offset overflow".to_owned(),
            IndexError::TruncatedSeriesEntry => "truncated series entry".to_owned(),
            IndexError::TruncatedSymbolTable => "truncated symbol table".to_owned(),
            IndexError::SymbolLengthOverflow => "symbol length overflow".to_owned(),
            IndexError::TruncatedSymbol => "truncated symbol".to_owned(),
            IndexError::SymbolNotUtf8 => "symbol is not valid UTF-8".to_owned(),
            IndexError::TrailingSymbolBytes => "unexpected bytes in symbol table".to_owned(),
            IndexError::DuplicateLabel => "series contains a duplicate label name".to_owned(),
            IndexError::MintDeltaOverflow => "chunk mint delta overflows i64".to_owned(),
            IndexError::MintOverflow => "chunk mint overflows i64".to_owned(),
            IndexError::DurationOverflow => "chunk duration overflows i64".to_owned(),
            IndexError::MaxtOverflow => "chunk maxt overflows i64".to_owned(),
            IndexError::ReferenceOutOfRange => "chunk reference underflows or overflows".to_owned(),
            IndexError::ReferencesNotIncreasing => "chunk references are not increasing".to_owned(),
            IndexError::TrailingSeriesBytes => "unexpected bytes in series entry".to_owned(),
            IndexError::InvalidSymbolReference => "invalid symbol reference".to_owned(),
            IndexError::SymbolOutOfBounds => "symbol reference is out of bounds".to_owned(),
            IndexError::TruncatedU32 => "truncated u32".to_owned(),
            IndexError::TruncatedU64 => "truncated u64".to_owned(),
            IndexError::TruncatedUvarint => "truncated uvarint".to_owned(),
            IndexError::UvarintOverflow => "uvarint overflows u64".to_owned(),
            IndexError::UnsupportedVersion(version) => joined(
                "unsupported index version ",
                decimal(*version as u64).as_str(),
            ),
            IndexError::CrcMismatch(section) => joined(section.title(), " CRC mismatch"),
        }
    }
}

/// The time range of a chunk and the place where its record starts.
#[derive(Clone, Copy, Debug, PartialEq, Eq, Structural)]
pub struct Chunk {
    pub mint: i64,
    pub maxt: i64,
    pub reference: u64,
}

/// A series of the index, with its labels and chunks.
pub struct Series {
    pub reference: u64,
    pub labels: SortedMap<String>,
    pub chunks: Vec<Chunk>,
}

/// What a series holds.
pub struct SeriesModel {
    pub reference: int,
    pub labels: Map<Seq<char>, Seq<char>>,
    pub chunks: Seq<Chunk>,
}

impl View for Series {
    type V = SeriesModel;

    open spec fn view(&self) -> SeriesModel {
        SeriesModel {
            reference: self.reference as int,
            labels: self.labels@,
            chunks: self.chunks@,
        }
    }
}

/// The big-endian number in the four bytes at an offset.
pub open spec fn u32_at(bytes: Seq<u8>, offset: int) -> Result<int, IndexError> {
    if offset + 4 <= bytes.len() {
        Ok(
            bytes[offset] * 0x100_0000 + bytes[offset + 1] * 0x1_0000 + bytes[offset + 2] * 0x100
                + bytes[offset + 3],
        )
    } else {
        Err(IndexError::TruncatedU32)
    }
}

/// The big-endian number in the eight bytes at an offset.
pub open spec fn u64_at(bytes: Seq<u8>, offset: int) -> Result<int, IndexError> {
    if offset + 8 <= bytes.len() {
        Ok(u32_at(bytes, offset)->Ok_0 * 0x1_0000_0000 + u32_at(bytes, offset + 4)->Ok_0)
    } else {
        Err(IndexError::TruncatedU64)
    }
}

/// The number whose base-128 digits start `index` digits into the number at `offset`, least
/// significant digit first, and the number of digits from `offset` on. A digit of 128 or more
/// has another one behind it; a tenth digit is 0 or 1.
pub open spec fn uvarint_digits(bytes: Seq<u8>, offset: int, index: int) -> Result<
    (int, int),
    IndexError,
>
    decreases 10 - index,
{
    if offset + index >= bytes.len() {
        Err(IndexError::TruncatedUvarint)
    } else if index >= 9 && bytes[offset + index] > 1 {
        Err(IndexError::UvarintOverflow)
    } else if index >= 9 || bytes[offset + index] < 128 {
        Ok((bytes[offset + index] as int, index + 1))
    } else {
        match uvarint_digits(bytes, offset, index + 1) {
            Ok((rest, size)) => Ok((bytes[offset + index] - 128 + 128 * rest, size)),
            Err(error) => Err(error),
        }
    }
}

/// The unsigned variable-length number at an offset, and the number of bytes that it takes.
pub open spec fn uvarint_at(bytes: Seq<u8>, offset: int) -> Result<(int, int), IndexError> {
    uvarint_digits(bytes, offset, 0)
}

/// A variable-length number is not negative and takes at least one byte.
pub proof fn lemma_uvarint_bounds(bytes: Seq<u8>, offset: int, index: int)
    requires
        0 <= index <= 9,
    ensures
        uvarint_digits(bytes, offset, index) matches Ok((value, size)) ==> value >= 0 && size
            > index,
    decreases 10 - index,
{
    if index < 9 {
        lemma_uvarint_bounds(bytes, offset, index + 1);
    }
}

/// The number that a zigzag code stands for: 0, -1, 1, -2, 2 and so on.
pub open spec fn zigzag(code: int) -> int {
    if code % 2 == 0 {
        code / 2
    } else {
        -(code / 2) - 1
    }
}

/// The signed variable-length number at an offset, and the number of bytes that it takes.
pub open spec fn varint_at(bytes: Seq<u8>, offset: int) -> Result<(int, int), IndexError> {
    match uvarint_at(bytes, offset) {
        Ok((code, size)) => Ok((zigzag(code), size)),
        Err(error) => Err(error),
    }
}

spec fn pow128(n: int) -> int
    decreases n,
{
    if n <= 0 {
        1
    } else {
        128 * pow128(n - 1)
    }
}

proof fn lemma_pow128(n: int)
    requires
        0 <= n <= 9,
    ensures
        1 <= pow128(n) <= 0x8000_0000_0000_0000,
        n == 9 ==> pow128(n) == 0x8000_0000_0000_0000,
        n < 9 ==> pow128(n) * 128 <= 0x8000_0000_0000_0000,
{
    reveal_with_fuel(pow128, 11);
}

fn read_u32(bytes: &[u8], offset: usize) -> (result: Result<u32, IndexError>)
    ensures
        match result {
            Ok(value) => u32_at(bytes@, offset as int) == Ok::<int, IndexError>(value as int),
            Err(error) => u32_at(bytes@, offset as int) == Err::<int, IndexError>(error),
        },
{
    if offset > bytes.len() || bytes.len() - offset < 4 {
        return Err(IndexError::TruncatedU32);
    }
    let value: u32 = bytes[offset] as u32 * 0x100_0000 + bytes[offset + 1] as u32 * 0x1_0000
        + bytes[offset + 2] as u32 * 0x100 + bytes[offset + 3] as u32;
    Ok(value)
}

fn read_u64(bytes: &[u8], offset: usize) -> (result: Result<u64, IndexError>)
    ensures
        match result {
            Ok(value) => u64_at(bytes@, offset as int) == Ok::<int, IndexError>(value as int),
            Err(error) => u64_at(bytes@, offset as int) == Err::<int, IndexError>(error),
        },
{
    if offset > bytes.len() || bytes.len() - offset < 8 {
        return Err(IndexError::TruncatedU64);
    }
    let high: u32 = read_u32(bytes, offset)?;
    let low: u32 = read_u32(bytes, offset + 4)?;
    Ok(high as u64 * 0x1_0000_0000 + low as u64)
}

pub(crate) fn read_uvarint(bytes: &[u8], offset: usize) -> (result: Result<(u64, usize), IndexError>)
    ensures
        match result {
            Ok((value, size)) => {
                &&& uvarint_at(bytes@, offset as int) == Ok::<(int, int), IndexError>(
                    (value as int, size as int),
                )
                &&& 1 <= size <= 10
                &&& offset + size <= bytes.len()
            },
            Err(error) => uvarint_at(bytes@, offset as int) == Err::<(int, int), IndexError>(error),
        },
{
    let mut value: u64 = 0;
    let mut scale: u64 = 1;
    let mut index: usize = 0;
    loop
        invariant
            0 <= index <= 9,
            scale == pow128(index as int),
            value < scale,
            match uvarint_digits(bytes@, offset as int, index as int) {
                Ok((rest, size)) => uvarint_at(bytes@, offset as int) == Ok::<
                    (int, int),
                    IndexError,
                >((value + scale * rest, size)),
                Err(error) => uvarint_at(bytes@, offset as int) == Err::<(int, int), IndexError>(
                    error,
                ),
            },
        decreases 10 - index,
    {
        proof {
            lemma_pow128(index as int);
            if index < 9 {
                lemma_pow128(index + 1);
            }
        }
        if offset > bytes.len() || index >= bytes.len() - offset {
            return Err(IndexError::TruncatedUvarint);
        }
        let byte: u8 = bytes[offset + index];
        if index == 9 && byte > 1 {
            return Err(IndexError::UvarintOverflow);
        }
        let digit: u64 = (byte % 128) as u64;
        proof {
            if index == 9 {
                assert(scale * digit <= scale) by (nonlinear_arith)
                    requires
                        0 <= digit <= 1,
                        scale >= 1,
                ;
            } else {
                assert(scale * digit <= scale * 127) by (nonlinear_arith)
                    requires
                        0 <= digit <= 127,
                        scale >= 1,
                ;
            }
            assert(scale * digit >= 0) by (nonlinear_arith)
                requires
                    0 <= digit,
                    scale >= 1,
            ;
        }
        let ghost before: int = value as int;
        value = value + scale * digit;
        if byte < 128 {
            return Ok((value, index + 1));
        }
        proof {
            match uvarint_digits(bytes@, offset as int, index + 1) {
                Ok((rest, size)) => {
                    assert(before + scale * (digit + 128 * rest) == (before + scale * digit) + (
                    scale * 128) * rest) by (nonlinear_arith);
                },
                Err(error) => {},
            }
        }
        scale = scale * 128;
        index = index + 1;
    }
}

pub(crate) fn read_varint(bytes: &[u8], offset: usize) -> (result: Result<(i64, usize), IndexError>)
    ensures
        match result {
            Ok((value, size)) => {
                &&& varint_at(bytes@, offset as int) == Ok::<(int, int), IndexError>(
                    (value as int, size as int),
                )
                &&& 1 <= size <= 10
                &&& offset + size <= bytes.len()
            },
            Err(error) => varint_at(bytes@, offset as int) == Err::<(int, int), IndexError>(error),
        },
{
    let (code, size) = read_uvarint(bytes, offset)?;
    let half: i64 = (code / 2) as i64;
    if code % 2 == 0 {
        Ok((half, size))
    } else {
        Ok((-half - 1, size))
    }
}

/// The content at `start` with the checksum behind it: whether the checksum is right.
pub open spec fn crc_holds(bytes: Seq<u8>, start: int, length: int) -> bool {
    u32_at(bytes, start + length)->Ok_0 == crc32c(bytes.subrange(start, start + length))
}

/// The first multiple of the series alignment that is not below an offset.
pub open spec fn series_aligned(offset: int) -> int {
    (offset + 15) / 16 * 16
}

/// The texts of `count` symbols from a position on, after those in `symbols`. Each is a length
/// and that many bytes of UTF-8; the last one ends where the table ends.
pub open spec fn symbols_from(
    bytes: Seq<u8>,
    position: int,
    end: int,
    count: int,
    symbols: Seq<Seq<char>>,
) -> Result<Seq<Seq<char>>, IndexError>
    decreases count,
{
    if count <= 0 {
        if position == end {
            Ok(symbols)
        } else {
            Err(IndexError::TrailingSymbolBytes)
        }
    } else {
        match uvarint_at(bytes, position) {
            Err(error) => Err(error),
            Ok((length, size)) => {
                let start = position + size;
                if start + length > u64::MAX {
                    Err(IndexError::SymbolLengthOverflow)
                } else if start + length > end {
                    Err(IndexError::TruncatedSymbol)
                } else if !valid_utf8(bytes.subrange(start, start + length)) {
                    Err(IndexError::SymbolNotUtf8)
                } else {
                    symbols_from(
                        bytes,
                        start + length,
                        end,
                        count - 1,
                        symbols.push(decode_utf8(bytes.subrange(start, start + length))),
                    )
                }
            },
        }
    }
}

/// The symbol table at an offset: its length, the number of symbols, the symbols, a checksum.
pub open spec fn symbol_table(bytes: Seq<u8>, offset: int) -> Result<Seq<Seq<char>>, IndexError> {
    match u32_at(bytes, offset) {
        Err(error) => Err(error),
        Ok(length) => {
            let start = offset + 4;
            if start + length + CHECKSUM_SIZE > bytes.len() {
                Err(IndexError::TruncatedSymbolTable)
            } else if !crc_holds(bytes, start, length) {
                Err(IndexError::CrcMismatch(Section::SymbolTable))
            } else {
                symbols_from(
                    bytes,
                    start + 4,
                    start + length,
                    u32_at(bytes, start)->Ok_0,
                    Seq::empty(),
                )
            }
        },
    }
}

/// The symbol that a reference names; the first symbol has the reference 1.
pub open spec fn symbol_named(symbols: Seq<Seq<char>>, reference: int) -> Result<
    Seq<char>,
    IndexError,
> {
    if reference == 0 {
        Err(IndexError::InvalidSymbolReference)
    } else if reference > symbols.len() {
        Err(IndexError::SymbolOutOfBounds)
    } else {
        Ok(symbols[reference - 1])
    }
}

/// `count` pairs of symbol references from a position on, added to `labels` as names with their
/// values, and the position behind them.
pub open spec fn labels_from(
    body: Seq<u8>,
    position: int,
    count: int,
    symbols: Seq<Seq<char>>,
    labels: Map<Seq<char>, Seq<char>>,
) -> Result<(Map<Seq<char>, Seq<char>>, int), IndexError>
    decreases count,
{
    if count <= 0 {
        Ok((labels, position))
    } else {
        match uvarint_at(body, position) {
            Err(error) => Err(error),
            Ok((name_ref, name_size)) => match uvarint_at(body, position + name_size) {
                Err(error) => Err(error),
                Ok((value_ref, value_size)) => match symbol_named(symbols, name_ref) {
                    Err(error) => Err(error),
                    Ok(name) => match symbol_named(symbols, value_ref) {
                        Err(error) => Err(error),
                        Ok(value) => if labels.contains_key(name) {
                            Err(IndexError::DuplicateLabel)
                        } else {
                            labels_from(
                                body,
                                position + name_size + value_size,
                                count - 1,
                                symbols,
                                labels.insert(name, value),
                            )
                        },
                    },
                },
            },
        }
    }
}

/// The start time of the chunk behind `chunks` and the position behind it. The first one is
/// written as it is, the others as their distance from the end of the chunk before.
pub open spec fn chunk_mint(body: Seq<u8>, position: int, chunks: Seq<Chunk>) -> Result<
    (int, int),
    IndexError,
> {
    if chunks.len() == 0 {
        varint_at(body, position)
    } else {
        match uvarint_at(body, position) {
            Err(error) => Err(error),
            Ok((delta, size)) => if delta > i64::MAX {
                Err(IndexError::MintDeltaOverflow)
            } else if chunks.last().maxt + delta > i64::MAX {
                Err(IndexError::MintOverflow)
            } else {
                Ok((chunks.last().maxt + delta, size))
            },
        }
    }
}

/// The end time of a chunk, which is written as its duration, and the size of that number.
pub open spec fn chunk_maxt(body: Seq<u8>, position: int, mint: int) -> Result<
    (int, int),
    IndexError,
> {
    match uvarint_at(body, position) {
        Err(error) => Err(error),
        Ok((duration, size)) => if duration > i64::MAX {
            Err(IndexError::DurationOverflow)
        } else if mint + duration > i64::MAX {
            Err(IndexError::MaxtOverflow)
        } else {
            Ok((mint + duration, size))
        },
    }
}

/// The reference of the chunk behind `chunks` and the size of the number that gives it. The
/// first one is written as it is, the others as their distance from the one before.
pub open spec fn chunk_reference(body: Seq<u8>, position: int, chunks: Seq<Chunk>) -> Result<
    (int, int),
    IndexError,
> {
    if chunks.len() == 0 {
        uvarint_at(body, position)
    } else {
        match varint_at(body, position) {
            Err(error) => Err(error),
            Ok((delta, size)) => {
                let reference = chunks.last().reference + delta;
                if reference < 0 || reference > u64::MAX {
                    Err(IndexError::ReferenceOutOfRange)
                } else if reference <= chunks.last().reference {
                    Err(IndexError::ReferencesNotIncreasing)
                } else {
                    Ok((reference, size))
                }
            },
        }
    }
}

/// The chunk behind `chunks` at a position, and the position behind it.
pub open spec fn chunk_at(body: Seq<u8>, position: int, chunks: Seq<Chunk>) -> Result<
    (Chunk, int),
    IndexError,
> {
    match chunk_mint(body, position, chunks) {
        Err(error) => Err(error),
        Ok((mint, mint_size)) => match chunk_maxt(body, position + mint_size, mint) {
            Err(error) => Err(error),
            Ok((maxt, maxt_size)) => match chunk_reference(
                body,
                position + mint_size + maxt_size,
                chunks,
            ) {
                Err(error) => Err(error),
                Ok((reference, reference_size)) => Ok(
                    (
                        Chunk { mint: mint as i64, maxt: maxt as i64, reference: reference as u64 },
                        position + mint_size + maxt_size + reference_size,
                    ),
                ),
            },
        },
    }
}

/// `count` chunks from a position on, behind those in `chunks`, and the position behind them.
pub open spec fn chunks_from(
    body: Seq<u8>,
    position: int,
    count: int,
    chunks: Seq<Chunk>,
) -> Result<(Seq<Chunk>, int), IndexError>
    decreases count,
{
    if count <= 0 {
        Ok((chunks, position))
    } else {
        match chunk_at(body, position, chunks) {
            Err(error) => Err(error),
            Ok((chunk, next)) => chunks_from(body, next, count - 1, chunks.push(chunk)),
        }
    }
}

/// The series in the body of a series entry: its labels, then its chunks, and nothing behind.
pub open spec fn series_in(body: Seq<u8>, reference: int, symbols: Seq<Seq<char>>) -> Result<
    SeriesModel,
    IndexError,
> {
    match uvarint_at(body, 0) {
        Err(error) => Err(error),
        Ok((label_count, label_size)) => match labels_from(
            body,
            label_size,
            label_count,
            symbols,
            Map::empty(),
        ) {
            Err(error) => Err(error),
            Ok((labels, position)) => match uvarint_at(body, position) {
                Err(error) => Err(error),
                Ok((chunk_count, chunk_size)) => match chunks_from(
                    body,
                    position + chunk_size,
                    chunk_count,
                    Seq::empty(),
                ) {
                    Err(error) => Err(error),
                    Ok((chunks, end)) => if end != body.len() {
                        Err(IndexError::TrailingSeriesBytes)
                    } else {
                        Ok(SeriesModel { reference, labels, chunks })
                    },
                },
            },
        },
    }
}

/// The series entry at an offset and the offset behind its checksum. An entry is the length of
/// its body, the body and a checksum, all before the end of the series section.
pub open spec fn series_entry(
    bytes: Seq<u8>,
    offset: int,
    end: int,
    symbols: Seq<Seq<char>>,
) -> Result<(SeriesModel, int), IndexError> {
    match uvarint_at(bytes, offset) {
        Err(error) => Err(error),
        Ok((length, size)) => {
            let start = offset + size;
            if start + length > u64::MAX {
                Err(IndexError::SeriesLengthOverflow)
            } else if start + length + CHECKSUM_SIZE > u64::MAX {
                Err(IndexError::SeriesChecksumOverflow)
            } else if start + length + CHECKSUM_SIZE > end {
                Err(IndexError::TruncatedSeriesEntry)
            } else if !crc_holds(bytes, start, length) {
                Err(IndexError::CrcMismatch(Section::SeriesEntry))
            } else {
                match series_in(
                    bytes.subrange(start, start + length),
                    offset / SERIES_ALIGNMENT as int,
                    symbols,
                ) {
                    Err(error) => Err(error),
                    Ok(series) => Ok((series, start + length + CHECKSUM_SIZE)),
                }
            }
        },
    }
}

/// The series from an offset to the end of the section, behind those in `series`. Entries start
/// at aligned offsets, and zero bytes fill the space between them.
pub open spec fn series_from(
    bytes: Seq<u8>,
    offset: int,
    end: int,
    symbols: Seq<Seq<char>>,
    series: Seq<SeriesModel>,
) -> Result<Seq<SeriesModel>, IndexError>
    decreases
            if offset < end {
                end - offset
            } else {
                0
            },
{
    if offset < 0 || offset >= end {
        Ok(series)
    } else if bytes[offset] == 0 {
        series_from(bytes, series_aligned(offset + 1), end, symbols, series)
    } else {
        proof {
            lemma_uvarint_bounds(bytes, offset, 0);
        }
        match series_entry(bytes, offset, end, symbols) {
            Err(error) => Err(error),
            Ok((entry, next)) => series_from(
                bytes,
                series_aligned(next),
                end,
                symbols,
                series.push(entry),
            ),
        }
    }
}

/// The series of an index file.
pub open spec fn index_series(bytes: Seq<u8>) -> Result<Seq<SeriesModel>, IndexError> {
    let toc = bytes.len() - TOC_SIZE - CHECKSUM_SIZE;
    if bytes.len() < 5 + TOC_SIZE + CHECKSUM_SIZE {
        Err(IndexError::TooShort)
    } else if u32_at(bytes, 0)->Ok_0 != INDEX_MAGIC {
        Err(IndexError::InvalidMagic)
    } else if !(MIN_SUPPORTED_INDEX_VERSION <= bytes[4] <= MAX_SUPPORTED_INDEX_VERSION) {
        Err(IndexError::UnsupportedVersion(bytes[4]))
    } else if !crc_holds(bytes, toc, TOC_SIZE as int) {
        Err(IndexError::CrcMismatch(Section::Toc))
    } else {
        let start = u64_at(bytes, toc + 8)->Ok_0;
        let end = u64_at(bytes, toc + 16)->Ok_0;
        match symbol_table(bytes, u64_at(bytes, toc)->Ok_0) {
            Err(error) => Err(error),
            Ok(symbols) => if start > end || end > toc {
                Err(IndexError::InvalidSeriesBounds)
            } else {
                series_from(bytes, start, end, symbols, Seq::empty())
            },
        }
    }
}

fn verify_crc(
    bytes: &[u8],
    content_start: usize,
    content_length: usize,
    section: Section,
) -> (result: Result<(), IndexError>)
    requires
        content_start + content_length + CHECKSUM_SIZE <= bytes.len(),
    ensures
        result == (if crc_holds(bytes@, content_start as int, content_length as int) {
            Ok::<(), IndexError>(())
        } else {
            Err::<(), IndexError>(IndexError::CrcMismatch(section))
        }),
{
    let content_end: usize = content_start + content_length;
    let checksum: u32 = read_u32(bytes, content_end)?;
    if crc32c_checksum(&bytes[content_start..content_end]) != checksum {
        return Err(IndexError::CrcMismatch(section));
    }
    Ok(())
}

fn align_series(offset: usize) -> (aligned: usize)
    requires
        offset + 15 <= usize::MAX,
    ensures
        aligned == series_aligned(offset as int),
        aligned >= offset,
{
    (offset + 15) / 16 * 16
}

/// The texts of symbols.
pub open spec fn texts(symbols: Seq<String>) -> Seq<Seq<char>> {
    symbols.map_values(|symbol: String| symbol@)
}

fn symbol(symbols: &Vec<String>, reference: u64) -> (result: Result<&String, IndexError>)
    ensures
        match result {
            Ok(name) => symbol_named(texts(symbols@), reference as int) == Ok::<
                Seq<char>,
                IndexError,
            >(name@),
            Err(error) => symbol_named(texts(symbols@), reference as int) == Err::<
                Seq<char>,
                IndexError,
            >(error),
        },
{
    if reference == 0 {
        return Err(IndexError::InvalidSymbolReference);
    }
    if reference > symbols.len() as u64 {
        return Err(IndexError::SymbolOutOfBounds);
    }
    Ok(&symbols[(reference - 1) as usize])
}

fn parse_symbols(bytes: &[u8], offset: u64) -> (result: Result<Vec<String>, IndexError>)
    ensures
        match result {
            Ok(symbols) => symbol_table(bytes@, offset as int) == Ok::<Seq<Seq<char>>, IndexError>(
                texts(symbols@),
            ),
            Err(error) => symbol_table(bytes@, offset as int) == Err::<
                Seq<Seq<char>>,
                IndexError,
            >(error),
        },
{
    if offset > bytes.len() as u64 {
        return Err(IndexError::TruncatedU32);
    }
    let table: usize = offset as usize;
    let content_length: u32 = read_u32(bytes, table)?;
    let content_start: usize = table + 4;
    let available: usize = bytes.len() - content_start;
    if available < CHECKSUM_SIZE || content_length as u64 > (available - CHECKSUM_SIZE) as u64 {
        return Err(IndexError::TruncatedSymbolTable);
    }
    let content_end: usize = content_start + content_length as usize;
    verify_crc(bytes, content_start, content_length as usize, Section::SymbolTable)?;
    let symbol_count: u32 = read_u32(bytes, content_start)?;
    let mut symbols: Vec<String> = Vec::new();
    let mut position: usize = content_start + 4;
    let mut remaining: u32 = symbol_count;
    assert(texts(symbols@) =~= Seq::<Seq<char>>::empty());
    while remaining > 0
        invariant
            content_end <= bytes.len(),
            symbol_table(bytes@, offset as int) == symbols_from(
                bytes@,
                position as int,
                content_end as int,
                remaining as int,
                texts(symbols@),
            ),
        decreases remaining,
    {
        let (length, size) = read_uvarint(bytes, position)?;
        let start: usize = position + size;
        if length > u64::MAX - start as u64 {
            return Err(IndexError::SymbolLengthOverflow);
        }
        if start > content_end || length > (content_end - start) as u64 {
            return Err(IndexError::TruncatedSymbol);
        }
        let end: usize = start + length as usize;
        match utf8_text(&bytes[start..end]) {
            Some(text) => {
                let ghost before = texts(symbols@);
                let ghost added = text@;
                symbols.push(text);
                assert(texts(symbols@) =~= before.push(added));
            },
            None => {
                return Err(IndexError::SymbolNotUtf8);
            },
        }
        position = end;
        remaining = remaining - 1;
    }
    if position != content_end {
        return Err(IndexError::TrailingSymbolBytes);
    }
    Ok(symbols)
}

fn parse_labels(
    body: &[u8],
    start: usize,
    count: u64,
    symbols: &Vec<String>,
) -> (result: Result<(SortedMap<String>, usize), IndexError>)
    requires
        start <= body.len(),
    ensures
        match result {
            Ok((labels, position)) => {
                &&& labels_from(body@, start as int, count as int, texts(symbols@), Map::empty())
                    == Ok::<(Map<Seq<char>, Seq<char>>, int), IndexError>(
                    (labels@, position as int),
                )
                &&& position <= body.len()
            },
            Err(error) => labels_from(
                body@,
                start as int,
                count as int,
                texts(symbols@),
                Map::empty(),
            ) == Err::<(Map<Seq<char>, Seq<char>>, int), IndexError>(error),
        },
{
    let mut labels: SortedMap<String> = SortedMap::new();
    let mut position: usize = start;
    let mut remaining: u64 = count;
    while remaining > 0
        invariant
            position <= body.len(),
            labels_from(body@, start as int, count as int, texts(symbols@), Map::empty())
                == labels_from(
                body@,
                position as int,
                remaining as int,
                texts(symbols@),
                labels@,
            ),
        decreases remaining,
    {
        let (name_ref, name_size) = read_uvarint(body, position)?;
        let (value_ref, value_size) = read_uvarint(body, position + name_size)?;
        let name = symbol(symbols, name_ref)?;
        let value = symbol(symbols, value_ref)?;
        if labels.insert(name.clone(), value.clone()).is_some() {
            return Err(IndexError::DuplicateLabel);
        }
        position = position + name_size + value_size;
        remaining = remaining - 1;
    }
    Ok((labels, position))
}

fn parse_chunk(body: &[u8], start: usize, chunks: &Vec<Chunk>) -> (result: Result<
    (Chunk, usize),
    IndexError,
>)
    requires
        start <= body.len(),
    ensures
        match result {
            Ok((chunk, position)) => {
                &&& chunk_at(body@, start as int, chunks@) == Ok::<(Chunk, int), IndexError>(
                    (chunk, position as int),
                )
                &&& position <= body.len()
            },
            Err(error) => chunk_at(body@, start as int, chunks@) == Err::<
                (Chunk, int),
                IndexError,
            >(error),
        },
{
    let mut position: usize = start;
    let first: bool = chunks.len() == 0;
    let mint: i64 = if first {
        let (value, size) = read_varint(body, position)?;
        position = position + size;
        value
    } else {
        let (delta, size) = read_uvarint(body, position)?;
        position = position + size;
        if delta > i64::MAX as u64 {
            return Err(IndexError::MintDeltaOverflow);
        }
        match chunks[chunks.len() - 1].maxt.checked_add(delta as i64) {
            Some(value) => value,
            None => {
                return Err(IndexError::MintOverflow);
            },
        }
    };
    let (duration, size) = read_uvarint(body, position)?;
    position = position + size;
    if duration > i64::MAX as u64 {
        return Err(IndexError::DurationOverflow);
    }
    let maxt: i64 = match mint.checked_add(duration as i64) {
        Some(value) => value,
        None => {
            return Err(IndexError::MaxtOverflow);
        },
    };
    let reference: u64 = if first {
        let (value, size) = read_uvarint(body, position)?;
        position = position + size;
        value
    } else {
        let previous: u64 = chunks[chunks.len() - 1].reference;
        let (delta, size) = read_varint(body, position)?;
        position = position + size;
        let value: i128 = previous as i128 + delta as i128;
        if value < 0 || value > u64::MAX as i128 {
            return Err(IndexError::ReferenceOutOfRange);
        }
        if value <= previous as i128 {
            return Err(IndexError::ReferencesNotIncreasing);
        }
        value as u64
    };
    Ok((Chunk { mint, maxt, reference }, position))
}

fn parse_chunks(body: &[u8], start: usize, count: u64) -> (result: Result<
    (Vec<Chunk>, usize),
    IndexError,
>)
    requires
        start <= body.len(),
    ensures
        match result {
            Ok((chunks, position)) => chunks_from(body@, start as int, count as int, Seq::empty())
                == Ok::<(Seq<Chunk>, int), IndexError>((chunks@, position as int)),
            Err(error) => chunks_from(body@, start as int, count as int, Seq::empty()) == Err::<
                (Seq<Chunk>, int),
                IndexError,
            >(error),
        },
{
    let mut position: usize = start;
    let mut chunks: Vec<Chunk> = Vec::new();
    let mut remaining: u64 = count;
    while remaining > 0
        invariant
            position <= body.len(),
            chunks_from(body@, start as int, count as int, Seq::empty()) == chunks_from(
                body@,
                position as int,
                remaining as int,
                chunks@,
            ),
        decreases remaining,
    {
        let (chunk, next) = parse_chunk(body, position, &chunks)?;
        chunks.push(chunk);
        position = next;
        remaining = remaining - 1;
    }
    Ok((chunks, position))
}

/// Reads the body of a series entry.
pub fn parse_series(body: &[u8], reference: u64, symbols: &Vec<String>) -> (result: Result<
    Series,
    IndexError,
>)
    ensures
        match result {
            Ok(series) => series_in(body@, reference as int, texts(symbols@)) == Ok::<
                SeriesModel,
                IndexError,
            >(series@),
            Err(error) => series_in(body@, reference as int, texts(symbols@)) == Err::<
                SeriesModel,
                IndexError,
            >(error),
        },
{
    let (label_count, label_size) = read_uvarint(body, 0)?;
    let (labels, position) = parse_labels(body, label_size, label_count, symbols)?;
    let (chunk_count, chunk_size) = read_uvarint(body, position)?;
    let (chunks, position) = parse_chunks(body, position + chunk_size, chunk_count)?;
    if position != body.len() {
        return Err(IndexError::TrailingSeriesBytes);
    }
    Ok(Series { reference, labels, chunks })
}

fn parse_entry(bytes: &[u8], offset: usize, end: usize, symbols: &Vec<String>) -> (result: Result<
    (Series, usize),
    IndexError,
>)
    requires
        offset < end <= bytes.len(),
    ensures
        match result {
            Ok((series, next)) => {
                &&& series_entry(bytes@, offset as int, end as int, texts(symbols@)) == Ok::<
                    (SeriesModel, int),
                    IndexError,
                >((series@, next as int))
                &&& offset < next <= end
            },
            Err(error) => series_entry(bytes@, offset as int, end as int, texts(symbols@)) == Err::<
                (SeriesModel, int),
                IndexError,
            >(error),
        },
{
    let (length, size) = read_uvarint(bytes, offset)?;
    let body_start: usize = offset + size;
    let body_end: u64 = match length.checked_add(body_start as u64) {
        Some(value) => value,
        None => {
            return Err(IndexError::SeriesLengthOverflow);
        },
    };
    let checksum_end: u64 = match body_end.checked_add(CHECKSUM_SIZE as u64) {
        Some(value) => value,
        None => {
            return Err(IndexError::SeriesChecksumOverflow);
        },
    };
    if checksum_end > end as u64 {
        return Err(IndexError::TruncatedSeriesEntry);
    }
    verify_crc(bytes, body_start, length as usize, Section::SeriesEntry)?;
    let reference: u64 = (offset / SERIES_ALIGNMENT) as u64;
    let series = parse_series(&bytes[body_start..body_end as usize], reference, symbols)?;
    Ok((series, checksum_end as usize))
}

/// What the series of a vector hold.
pub open spec fn series_models(series: Seq<Series>) -> Seq<SeriesModel> {
    series.map_values(|entry: Series| entry@)
}

fn parse_section(bytes: &[u8], start: usize, end: usize, symbols: &Vec<String>) -> (result: Result<
    Vec<Series>,
    IndexError,
>)
    requires
        start <= end,
        end + 15 <= bytes.len(),
    ensures
        match result {
            Ok(series) => series_from(
                bytes@,
                start as int,
                end as int,
                texts(symbols@),
                Seq::empty(),
            ) == Ok::<Seq<SeriesModel>, IndexError>(series_models(series@)),
            Err(error) => series_from(
                bytes@,
                start as int,
                end as int,
                texts(symbols@),
                Seq::empty(),
            ) == Err::<Seq<SeriesModel>, IndexError>(error),
        },
{
    let mut series: Vec<Series> = Vec::new();
    let mut offset: usize = start;
    assert(series_models(series@) =~= Seq::<SeriesModel>::empty());
    while offset < end
        invariant
            end + 15 <= bytes.len(),
            series_from(bytes@, start as int, end as int, texts(symbols@), Seq::empty())
                == series_from(
                bytes@,
                offset as int,
                end as int,
                texts(symbols@),
                series_models(series@),
            ),
        decreases
                if offset < end {
                    end - offset
                } else {
                    0
                },
    {
        if bytes[offset] == 0 {
            offset = align_series(offset + 1);
        } else {
            let (entry, next) = parse_entry(bytes, offset, end, symbols)?;
            let ghost before = series_models(series@);
            let ghost added = entry@;
            series.push(entry);
            assert(series_models(series@) =~= before.push(added));
            offset = align_series(next);
        }
    }
    Ok(series)
}

/// Parses a Prometheus TSDB index file, version 1 or 2, into its series with their labels and
/// chunks.
pub fn parse(bytes: &[u8]) -> (result: Result<Vec<Series>, IndexError>)
    ensures
        match result {
            Ok(series) => index_series(bytes@) == Ok::<Seq<SeriesModel>, IndexError>(
                series_models(series@),
            ),
            Err(error) => index_series(bytes@) == Err::<Seq<SeriesModel>, IndexError>(error),
        },
{
    if bytes.len() < 5 + TOC_SIZE + CHECKSUM_SIZE {
        return Err(IndexError::TooShort);
    }
    if read_u32(bytes, 0)? != INDEX_MAGIC {
        return Err(IndexError::InvalidMagic);
    }
    if bytes[4] < MIN_SUPPORTED_INDEX_VERSION || bytes[4] > MAX_SUPPORTED_INDEX_VERSION {
        return Err(IndexError::UnsupportedVersion(bytes[4]));
    }
    let toc: usize = bytes.len() - TOC_SIZE - CHECKSUM_SIZE;
    verify_crc(bytes, toc, TOC_SIZE, Section::Toc)?;
    let symbol_offset: u64 = read_u64(bytes, toc)?;
    let start: u64 = read_u64(bytes, toc + 8)?;
    let end: u64 = read_u64(bytes, toc + 16)?;
    let symbols = parse_symbols(bytes, symbol_offset)?;
    if start > end || end > toc as u64 {
        return Err(IndexError::InvalidSeriesBounds);
    }
    parse_section(bytes, start as usize, end as usize, &symbols)
}

/// Chunks in the order of time and of their place: each one ends where or before the next one
/// starts, and lies before it in the chunk files.
pub open spec fn chunks_ordered(chunks: Seq<Chunk>) -> bool {
    &&& forall|i: int| 0 <= i < chunks.len() ==> (#[trigger] chunks[i]).mint <= chunks[i].maxt
    &&& forall|i: int, j: int|
        0 <= i < j < chunks.len() ==> (#[trigger] chunks[i]).maxt <= (#[trigger] chunks[j]).mint
            && chunks[i].reference < chunks[j].reference
}

proof fn lemma_chunks_ordered(body: Seq<u8>, position: int, count: int, chunks: Seq<Chunk>)
    requires
        chunks_ordered(chunks),
    ensures
        chunks_from(body, position, count, chunks) matches Ok((all, end)) ==> chunks_ordered(all),
    decreases count,
{
    if count > 0 {
        match chunk_at(body, position, chunks) {
            Err(error) => {},
            Ok((chunk, next)) => {
                lemma_uvarint_bounds(body, position, 0);
                lemma_varint_fits(body, position);
                let (mint, mint_size) = chunk_mint(body, position, chunks)->Ok_0;
                lemma_uvarint_bounds(body, position + mint_size, 0);
                lemma_uvarint_fits(body, position + mint_size);
                let (maxt, maxt_size) = chunk_maxt(body, position + mint_size, mint)->Ok_0;
                lemma_uvarint_fits(body, position + mint_size + maxt_size);
                lemma_uvarint_bounds(body, position + mint_size + maxt_size, 0);
                let grown = chunks.push(chunk);
                assert forall|i: int, j: int| 0 <= i < j < grown.len() implies (
                #[trigger] grown[i]).maxt <= (#[trigger] grown[j]).mint && grown[i].reference
                    < grown[j].reference by {
                    if j == chunks.len() && i < chunks.len() - 1 {
                        assert(chunks[i].maxt <= chunks.last().mint);
                        assert(chunks.last().mint <= chunks.last().maxt);
                    }
                }
                lemma_chunks_ordered(body, next, count - 1, grown);
            },
        }
    }
}

proof fn lemma_digits_fit(bytes: Seq<u8>, offset: int, index: int)
    requires
        0 <= index <= 9,
    ensures
        uvarint_digits(bytes, offset, index) matches Ok((value, size)) ==> value * pow128(index)
            <= u64::MAX - (pow128(index) - 1),
    decreases 10 - index,
{
    lemma_pow128(index);
    lemma_uvarint_bounds(bytes, offset, index);
    if index == 9 {
        match uvarint_digits(bytes, offset, index) {
            Ok((value, size)) => {
                assert(value * pow128(index) <= pow128(index)) by (nonlinear_arith)
                    requires
                        0 <= value <= 1,
                        pow128(index) >= 1,
                ;
            },
            Err(error) => {},
        }
    } else {
        lemma_digits_fit(bytes, offset, index + 1);
        let p = pow128(index);
        assert(pow128(index + 1) == 128 * p);
        match uvarint_digits(bytes, offset, index) {
            Ok((value, size)) => {
                let digit = bytes[offset + index];
                if digit < 128 {
                    assert(value * p <= 127 * p) by (nonlinear_arith)
                        requires
                            0 <= value <= 127,
                            p >= 1,
                    ;
                } else {
                    let rest = uvarint_digits(bytes, offset, index + 1)->Ok_0.0;
                    assert(value * p == (digit - 128) * p + rest * (128 * p)) by (nonlinear_arith)
                        requires
                            value == digit - 128 + 128 * rest,
                    ;
                    assert((digit - 128) * p <= 127 * p) by (nonlinear_arith)
                        requires
                            0 <= digit - 128 <= 127,
                            p >= 1,
                    ;
                }
            },
            Err(error) => {},
        }
    }
}

proof fn lemma_uvarint_fits(bytes: Seq<u8>, offset: int)
    ensures
        uvarint_at(bytes, offset) matches Ok((value, size)) ==> 0 <= value <= u64::MAX,
{
    lemma_digits_fit(bytes, offset, 0);
    lemma_uvarint_bounds(bytes, offset, 0);
    reveal_with_fuel(pow128, 2);
}

proof fn lemma_varint_fits(bytes: Seq<u8>, offset: int)
    ensures
        varint_at(bytes, offset) matches Ok((value, size)) ==> i64::MIN <= value <= i64::MAX,
{
    lemma_uvarint_fits(bytes, offset);
}

proof fn lemma_series_ordered(body: Seq<u8>, reference: int, symbols: Seq<Seq<char>>)
    ensures
        series_in(body, reference, symbols) matches Ok(series) ==> chunks_ordered(series.chunks)
            && series.reference == reference,
{
    match series_in(body, reference, symbols) {
        Ok(series) => {
            let (label_count, label_size) = uvarint_at(body, 0)->Ok_0;
            let position = labels_from(
                body,
                label_size,
                label_count,
                symbols,
                Map::empty(),
            )->Ok_0.1;
            let (chunk_count, chunk_size) = uvarint_at(body, position)->Ok_0;
            lemma_chunks_ordered(body, position + chunk_size, chunk_count, Seq::empty());
        },
        Err(error) => {},
    }
}

/// Series in the order of their references, each with its chunks in order.
pub open spec fn series_ordered(series: Seq<SeriesModel>) -> bool {
    &&& forall|i: int| 0 <= i < series.len() ==> chunks_ordered((#[trigger] series[i]).chunks)
    &&& forall|i: int, j: int|
        0 <= i < j < series.len() ==> (#[trigger] series[i]).reference < (
        #[trigger] series[j]).reference
}

proof fn lemma_section_ordered(
    bytes: Seq<u8>,
    offset: int,
    end: int,
    symbols: Seq<Seq<char>>,
    series: Seq<SeriesModel>,
)
    requires
        offset >= 0,
        series_ordered(series),
        series.len() > 0 ==> series.last().reference < offset / 16,
    ensures
        series_from(bytes, offset, end, symbols, series) matches Ok(all) ==> series_ordered(all),
    decreases
            if offset < end {
                end - offset
            } else {
                0
            },
{
    if offset < end {
        if bytes[offset] == 0 {
            lemma_section_ordered(bytes, series_aligned(offset + 1), end, symbols, series);
        } else {
            lemma_uvarint_bounds(bytes, offset, 0);
            match series_entry(bytes, offset, end, symbols) {
                Err(error) => {},
                Ok((entry, next)) => {
                    let (length, size) = uvarint_at(bytes, offset)->Ok_0;
                    lemma_series_ordered(
                        bytes.subrange(offset + size, offset + size + length),
                        offset / 16,
                        symbols,
                    );
                    let grown = series.push(entry);
                    assert forall|i: int, j: int| 0 <= i < j < grown.len() implies (
                    #[trigger] grown[i]).reference < (#[trigger] grown[j]).reference by {
                        if j == series.len() && i < series.len() - 1 {
                            assert(series[i].reference < series.last().reference);
                        }
                    }
                    lemma_section_ordered(bytes, series_aligned(next), end, symbols, grown);
                },
            }
        }
    }
}

/// An index that is accepted lists its series in the order of their references, each one once,
/// and the chunks of every series in the order of time and of their place.
pub proof fn law_index_is_ordered(bytes: Seq<u8>)
    ensures
        index_series(bytes) matches Ok(series) ==> series_ordered(series),
{
    match index_series(bytes) {
        Ok(series) => {
            let toc = bytes.len() - TOC_SIZE - CHECKSUM_SIZE;
            let symbols = symbol_table(bytes, u64_at(bytes, toc)->Ok_0)->Ok_0;
            lemma_section_ordered(
                bytes,
                u64_at(bytes, toc + 8)->Ok_0,
                u64_at(bytes, toc + 16)->Ok_0,
                symbols,
                Seq::empty(),
            );
        },
        Err(error) => {},
    }
}

proof fn lemma_uvarint_with_more(bytes: Seq<u8>, more: Seq<u8>, offset: int, index: int)
    requires
        0 <= offset,
        0 <= index <= 9,
        uvarint_digits(bytes, offset, index) is Ok,
    ensures
        uvarint_digits(bytes + more, offset, index) == uvarint_digits(bytes, offset, index),
    decreases 10 - index,
{
    assert((bytes + more)[offset + index] == bytes[offset + index]);
    if index < 9 && bytes[offset + index] >= 128 {
        lemma_uvarint_with_more(bytes, more, offset, index + 1);
    }
}

proof fn lemma_labels_with_more(
    body: Seq<u8>,
    more: Seq<u8>,
    position: int,
    count: int,
    symbols: Seq<Seq<char>>,
    labels: Map<Seq<char>, Seq<char>>,
)
    requires
        0 <= position,
        labels_from(body, position, count, symbols, labels) is Ok,
    ensures
        labels_from(body + more, position, count, symbols, labels) == labels_from(
            body,
            position,
            count,
            symbols,
            labels,
        ),
        labels_from(body, position, count, symbols, labels)->Ok_0.1 >= position,
    decreases count,
{
    if count > 0 {
        let (name_ref, name_size) = uvarint_at(body, position)->Ok_0;
        let (value_ref, value_size) = uvarint_at(body, position + name_size)->Ok_0;
        lemma_uvarint_bounds(body, position, 0);
        lemma_uvarint_bounds(body, position + name_size, 0);
        lemma_uvarint_with_more(body, more, position, 0);
        lemma_uvarint_with_more(body, more, position + name_size, 0);
        let name = symbol_named(symbols, name_ref)->Ok_0;
        let value = symbol_named(symbols, value_ref)->Ok_0;
        lemma_labels_with_more(
            body,
            more,
            position + name_size + value_size,
            count - 1,
            symbols,
            labels.insert(name, value),
        );
    }
}

proof fn lemma_chunks_with_more(
    body: Seq<u8>,
    more: Seq<u8>,
    position: int,
    count: int,
    chunks: Seq<Chunk>,
)
    requires
        0 <= position,
        chunks_from(body, position, count, chunks) is Ok,
    ensures
        chunks_from(body + more, position, count, chunks) == chunks_from(
            body,
            position,
            count,
            chunks,
        ),
    decreases count,
{
    if count > 0 {
        lemma_uvarint_bounds(body, position, 0);
        lemma_uvarint_with_more(body, more, position, 0);
        let (mint, mint_size) = chunk_mint(body, position, chunks)->Ok_0;
        let second = position + mint_size;
        lemma_uvarint_bounds(body, second, 0);
        lemma_uvarint_with_more(body, more, second, 0);
        let (maxt, maxt_size) = chunk_maxt(body, second, mint)->Ok_0;
        let third = second + maxt_size;
        lemma_uvarint_bounds(body, third, 0);
        lemma_uvarint_with_more(body, more, third, 0);
        let (chunk, next) = chunk_at(body, position, chunks)->Ok_0;
        lemma_chunks_with_more(body, more, next, count - 1, chunks.push(chunk));
    }
}

/// A series entry is read to its last byte: with anything behind it, it is no entry any more. So no
/// entry that is accepted is the start of a longer one.
pub proof fn law_series_entries_have_one_end(
    body: Seq<u8>,
    more: Seq<u8>,
    reference: int,
    symbols: Seq<Seq<char>>,
)
    requires
        series_in(body, reference, symbols) is Ok,
        more.len() > 0,
    ensures
        series_in(body + more, reference, symbols) == Err::<SeriesModel, IndexError>(
            IndexError::TrailingSeriesBytes,
        ),
{
    let (label_count, label_size) = uvarint_at(body, 0)->Ok_0;
    lemma_uvarint_bounds(body, 0, 0);
    lemma_uvarint_with_more(body, more, 0, 0);
    lemma_labels_with_more(body, more, label_size, label_count, symbols, Map::empty());
    let (labels, position) = labels_from(
        body,
        label_size,
        label_count,
        symbols,
        Map::empty(),
    )->Ok_0;
    let (chunk_count, chunk_size) = uvarint_at(body, position)->Ok_0;
    lemma_uvarint_bounds(body, position, 0);
    lemma_uvarint_with_more(body, more, position, 0);
    lemma_chunks_with_more(body, more, position + chunk_size, chunk_count, Seq::empty());
}

/// Bytes stand at an offset of others.
pub open spec fn holds_bytes(bytes: Seq<u8>, offset: int, part: Seq<u8>) -> bool {
    &&& 0 <= offset
    &&& offset + part.len() <= bytes.len()
    &&& forall|i: int| 0 <= i < part.len() ==> #[trigger] part[i] == bytes[offset + i]
}

/// The bytes that an unsigned variable-length number is written with: seven bits in each, the lowest
/// ones first, and 128 added to each byte but the last.
pub open spec fn uvarint_bytes(value: int) -> Seq<u8>
    decreases value,
{
    if value < 128 {
        seq![value as u8]
    } else {
        seq![(value % 128 + 128) as u8] + uvarint_bytes(value / 128)
    }
}

/// The bytes that a signed variable-length number is written with: twice the number, or one less
/// than twice its distance from zero where it is negative.
pub open spec fn varint_bytes(value: int) -> Seq<u8> {
    uvarint_bytes(
        if value >= 0 {
            2 * value
        } else {
            -2 * value - 1
        },
    )
}

pub(crate) proof fn lemma_parts(bytes: Seq<u8>, offset: int, first: Seq<u8>, second: Seq<u8>)
    requires
        holds_bytes(bytes, offset, first + second),
    ensures
        holds_bytes(bytes, offset, first),
        holds_bytes(bytes, offset + first.len(), second),
{
    let whole = first + second;
    assert forall|i: int| 0 <= i < first.len() implies #[trigger] first[i] == bytes[offset + i] by {
        assert(whole[i] == first[i]);
    }
    let next = offset + first.len();
    assert forall|i: int| 0 <= i < second.len() implies #[trigger] second[i] == bytes[next + i] by {
        assert(whole[first.len() + i] == second[i]);
    }
}

proof fn lemma_written_digits(bytes: Seq<u8>, offset: int, index: int, value: int)
    requires
        0 <= offset,
        0 <= index <= 9,
        0 <= value,
        value * pow128(index) <= u64::MAX,
        holds_bytes(bytes, offset + index, uvarint_bytes(value)),
    ensures
        uvarint_digits(bytes, offset, index) == Ok::<(int, int), IndexError>(
            (value, index + uvarint_bytes(value).len()),
        ),
    decreases 10 - index,
{
    lemma_pow128(index);
    let written = uvarint_bytes(value);
    assert(written[0] == bytes[offset + index]);
    if index == 9 {
        assert(value <= 1) by (nonlinear_arith)
            requires
                value * pow128(index) <= u64::MAX,
                pow128(index) == 0x8000_0000_0000_0000,
        ;
    } else if value >= 128 {
        let rest = uvarint_bytes(value / 128);
        let first = seq![(value % 128 + 128) as u8];
        lemma_parts(bytes, offset + index, first, rest);
        assert(pow128(index + 1) == 128 * pow128(index));
        assert((value / 128) * (128 * pow128(index)) <= value * pow128(index)) by (nonlinear_arith)
            requires
                value >= 0,
                pow128(index) >= 1,
        ;
        lemma_written_digits(bytes, offset, index + 1, value / 128);
    }
}

/// Reading undoes writing: where the bytes of an unsigned number of 64 bits stand, the number is
/// read, with the number of its bytes.
pub proof fn law_written_uvarints_are_read(bytes: Seq<u8>, offset: int, value: int)
    requires
        0 <= value <= u64::MAX,
        holds_bytes(bytes, offset, uvarint_bytes(value)),
    ensures
        uvarint_at(bytes, offset) == Ok::<(int, int), IndexError>(
            (value, uvarint_bytes(value).len() as int),
        ),
{
    reveal_with_fuel(pow128, 2);
    lemma_written_digits(bytes, offset, 0, value);
}

/// Reading undoes writing: where the bytes of a signed number of 64 bits stand, the number is read,
/// with the number of its bytes.
pub proof fn law_written_varints_are_read(bytes: Seq<u8>, offset: int, value: int)
    requires
        i64::MIN <= value <= i64::MAX,
        holds_bytes(bytes, offset, varint_bytes(value)),
    ensures
        varint_at(bytes, offset) == Ok::<(int, int), IndexError>(
            (value, varint_bytes(value).len() as int),
        ),
{
    let code = if value >= 0 {
        2 * value
    } else {
        -2 * value - 1
    };
    law_written_uvarints_are_read(bytes, offset, code);
}

/// The bytes of the pairs of references that labels are written with.
pub open spec fn label_pair_bytes(pairs: Seq<(int, int)>) -> Seq<u8>
    decreases pairs.len(),
{
    if pairs.len() == 0 {
        Seq::empty()
    } else {
        uvarint_bytes(pairs[0].0) + (uvarint_bytes(pairs[0].1) + label_pair_bytes(
            pairs.drop_first(),
        ))
    }
}

/// Pairs of references name symbols, and the names are different from each other.
pub open spec fn pairs_name_symbols(pairs: Seq<(int, int)>, symbols: Seq<Seq<char>>) -> bool {
    &&& forall|i: int|
        0 <= i < pairs.len() ==> 1 <= (#[trigger] pairs[i]).0 <= symbols.len() && 1 <= pairs[i].1
            <= symbols.len()
    &&& forall|i: int, j: int|
        0 <= i < j < pairs.len() ==> symbols[(#[trigger] pairs[i]).0 - 1] != symbols[(
        #[trigger] pairs[j]).0 - 1]
    &&& symbols.len() <= u64::MAX
}

/// The labels that are read where pairs of references were written: all that were there before, and
/// for each pair the label named by the first reference with the value named by the second one. A
/// reference counts the symbols from one on.
pub open spec fn are_written_labels(
    labels: Map<Seq<char>, Seq<char>>,
    before: Map<Seq<char>, Seq<char>>,
    pairs: Seq<(int, int)>,
    symbols: Seq<Seq<char>>,
) -> bool {
    &&& forall|name: Seq<char>| #[trigger]
        labels.contains_key(name) ==> before.contains_key(name) || exists|i: int|
            0 <= i < pairs.len() && symbols[(#[trigger] pairs[i]).0 - 1] == name
    &&& forall|name: Seq<char>|
        before.contains_key(name) ==> (#[trigger] labels.contains_key(name)) && labels[name]
            == before[name]
    &&& forall|i: int|
        0 <= i < pairs.len() ==> labels.contains_key(symbols[(#[trigger] pairs[i]).0 - 1])
            && labels[symbols[pairs[i].0 - 1]] == symbols[pairs[i].1 - 1]
}

#[verifier::spinoff_prover]
#[verifier::rlimit(60)]
proof fn lemma_written_labels(
    body: Seq<u8>,
    position: int,
    pairs: Seq<(int, int)>,
    symbols: Seq<Seq<char>>,
    before: Map<Seq<char>, Seq<char>>,
)
    requires
        pairs_name_symbols(pairs, symbols),
        holds_bytes(body, position, label_pair_bytes(pairs)),
        forall|i: int|
            0 <= i < pairs.len() ==> !before.contains_key(symbols[(#[trigger] pairs[i]).0 - 1]),
    ensures
        labels_from(body, position, pairs.len() as int, symbols, before) matches Ok((labels, end))
            && end == position + label_pair_bytes(pairs).len() && are_written_labels(
            labels,
            before,
            pairs,
            symbols,
        ),
    decreases pairs.len(),
{
    if pairs.len() > 0 {
        let rest = pairs.drop_first();
        let (name_ref, value_ref) = pairs[0];
        let a = uvarint_bytes(name_ref);
        let b = uvarint_bytes(value_ref);
        let c = label_pair_bytes(rest);
        lemma_parts(body, position, a, b + c);
        lemma_parts(body, position + a.len(), b, c);
        law_written_uvarints_are_read(body, position, name_ref);
        law_written_uvarints_are_read(body, position + a.len(), value_ref);
        let name = symbols[name_ref - 1];
        let value = symbols[value_ref - 1];
        let after = before.insert(name, value);
        assert forall|i: int| 0 <= i < rest.len() implies !after.contains_key(
            symbols[(#[trigger] rest[i]).0 - 1],
        ) by {
            assert(rest[i] == pairs[i + 1]);
            assert(symbols[pairs[0].0 - 1] != symbols[pairs[i + 1].0 - 1]);
        }
        assert forall|i: int, j: int| 0 <= i < j < rest.len() implies symbols[(
        #[trigger] rest[i]).0 - 1] != symbols[(#[trigger] rest[j]).0 - 1] by {
            assert(rest[i] == pairs[i + 1] && rest[j] == pairs[j + 1]);
        }
        lemma_written_labels(body, position + a.len() + b.len(), rest, symbols, after);
        let labels = labels_from(body, position, pairs.len() as int, symbols, before)->Ok_0.0;
        assert(are_written_labels(labels, after, rest, symbols));
        assert forall|other: Seq<char>| #[trigger] labels.contains_key(other) implies before.contains_key(
            other,
        ) || exists|i: int| 0 <= i < pairs.len() && symbols[(#[trigger] pairs[i]).0 - 1] == other by {
            if !before.contains_key(other) {
                if other == name {
                    assert(symbols[pairs[0].0 - 1] == other);
                } else {
                    let i = choose|i: int|
                        0 <= i < rest.len() && symbols[(#[trigger] rest[i]).0 - 1] == other;
                    assert(symbols[pairs[i + 1].0 - 1] == other);
                }
            }
        }
        assert forall|i: int| 0 <= i < pairs.len() implies labels.contains_key(
            symbols[(#[trigger] pairs[i]).0 - 1],
        ) && labels[symbols[pairs[i].0 - 1]] == symbols[pairs[i].1 - 1] by {
            if i > 0 {
                assert(rest[i - 1] == pairs[i]);
            } else {
                assert(after.contains_key(name));
            }
        }
        assert forall|other: Seq<char>| before.contains_key(other) implies (
        #[trigger] labels.contains_key(other)) && labels[other] == before[other] by {
            assert(after.contains_key(other));
            assert(labels.contains_key(other));
        }
    }
}

/// The bytes of the chunks of a series behind those in `before`: of the first chunk its start, its
/// duration and its reference; of each other one the distance from the end of the chunk before, its
/// duration, and the distance of the references.
pub open spec fn chunk_bytes(before: Seq<Chunk>, chunks: Seq<Chunk>) -> Seq<u8>
    decreases chunks.len(),
{
    if chunks.len() == 0 {
        Seq::empty()
    } else {
        let chunk = chunks[0];
        let rest = chunk_bytes(before.push(chunk), chunks.drop_first());
        if before.len() == 0 {
            varint_bytes(chunk.mint as int) + (uvarint_bytes(chunk.maxt - chunk.mint) + (
            uvarint_bytes(chunk.reference as int) + rest))
        } else {
            uvarint_bytes(chunk.mint - before.last().maxt) + (uvarint_bytes(
                chunk.maxt - chunk.mint,
            ) + (varint_bytes(chunk.reference - before.last().reference) + rest))
        }
    }
}

/// Chunks follow each other in time and in their files, and none is longer, or farther from the one
/// before, than 64 bits with a sign can say.
pub open spec fn chunks_follow(before: Seq<Chunk>, chunks: Seq<Chunk>) -> bool
    decreases chunks.len(),
{
    chunks.len() > 0 ==> {
        let chunk = chunks[0];
        &&& 0 <= chunk.maxt - chunk.mint <= i64::MAX
        &&& before.len() > 0 ==> {
            &&& 0 <= chunk.mint - before.last().maxt <= i64::MAX
            &&& 0 < chunk.reference - before.last().reference <= i64::MAX
        }
        &&& chunks_follow(before.push(chunk), chunks.drop_first())
    }
}

#[verifier::spinoff_prover]
#[verifier::rlimit(60)]
proof fn lemma_written_chunks(
    body: Seq<u8>,
    position: int,
    before: Seq<Chunk>,
    chunks: Seq<Chunk>,
)
    requires
        chunks_follow(before, chunks),
        holds_bytes(body, position, chunk_bytes(before, chunks)),
    ensures
        chunks_from(body, position, chunks.len() as int, before) == Ok::<
            (Seq<Chunk>, int),
            IndexError,
        >((before + chunks, position + chunk_bytes(before, chunks).len())),
    decreases chunks.len(),
{
    if chunks.len() == 0 {
        assert(before + chunks =~= before);
    } else {
        let chunk = chunks[0];
        let tail = chunks.drop_first();
        let rest = chunk_bytes(before.push(chunk), tail);
        let a = if before.len() == 0 {
            varint_bytes(chunk.mint as int)
        } else {
            uvarint_bytes(chunk.mint - before.last().maxt)
        };
        let b = uvarint_bytes(chunk.maxt - chunk.mint);
        let c = if before.len() == 0 {
            uvarint_bytes(chunk.reference as int)
        } else {
            varint_bytes(chunk.reference - before.last().reference)
        };
        lemma_parts(body, position, a, b + (c + rest));
        lemma_parts(body, position + a.len(), b, c + rest);
        lemma_parts(body, position + a.len() + b.len(), c, rest);
        law_written_uvarints_are_read(body, position + a.len(), chunk.maxt - chunk.mint);
        let third = position + a.len() + b.len();
        if before.len() == 0 {
            law_written_varints_are_read(body, position, chunk.mint as int);
            law_written_uvarints_are_read(body, third, chunk.reference as int);
        } else {
            law_written_uvarints_are_read(body, position, chunk.mint - before.last().maxt);
            law_written_varints_are_read(body, third, chunk.reference - before.last().reference);
        }
        lemma_written_chunks(body, third + c.len(), before.push(chunk), tail);
        assert(before.push(chunk) + tail =~= before + chunks);
    }
}

/// Reading undoes writing: a series entry that was written from references to symbols and from
/// chunks gives the labels that the references name, and the chunks.
#[verifier::spinoff_prover]
#[verifier::rlimit(40)]
pub proof fn law_written_series_are_read(
    reference: int,
    symbols: Seq<Seq<char>>,
    pairs: Seq<(int, int)>,
    chunks: Seq<Chunk>,
)
    requires
        pairs_name_symbols(pairs, symbols),
        chunks_follow(Seq::empty(), chunks),
        pairs.len() <= u64::MAX,
        chunks.len() <= u64::MAX,
    ensures
        ({
            let body = uvarint_bytes(pairs.len() as int) + (label_pair_bytes(pairs) + (
            uvarint_bytes(chunks.len() as int) + chunk_bytes(Seq::empty(), chunks)));
            series_in(body, reference, symbols) matches Ok(series) && {
                &&& series.reference == reference
                &&& series.chunks == chunks
                &&& are_written_labels(series.labels, Map::empty(), pairs, symbols)
            }
        }),
{
    let a = uvarint_bytes(pairs.len() as int);
    let b = label_pair_bytes(pairs);
    let c = uvarint_bytes(chunks.len() as int);
    let d = chunk_bytes(Seq::empty(), chunks);
    let body = a + (b + (c + d));
    assert(holds_bytes(body, 0, body));
    lemma_parts(body, 0, a, b + (c + d));
    lemma_parts(body, a.len() as int, b, c + d);
    lemma_parts(body, (a.len() + b.len()) as int, c, d);
    law_written_uvarints_are_read(body, 0, pairs.len() as int);
    lemma_written_labels(body, a.len() as int, pairs, symbols, Map::empty());
    law_written_uvarints_are_read(body, (a.len() + b.len()) as int, chunks.len() as int);
    lemma_written_chunks(body, (a.len() + b.len() + c.len()) as int, Seq::empty(), chunks);
    assert(Seq::<Chunk>::empty() + chunks =~= chunks);
}

/// The bytes of symbols: of each the length of its UTF-8 form and that form.
pub open spec fn symbol_bytes(symbols: Seq<Seq<char>>) -> Seq<u8>
    decreases symbols.len(),
{
    if symbols.len() == 0 {
        Seq::empty()
    } else {
        let text = encode_utf8(symbols[0]);
        uvarint_bytes(text.len() as int) + (text + symbol_bytes(symbols.drop_first()))
    }
}

proof fn lemma_written_symbols(
    bytes: Seq<u8>,
    position: int,
    before: Seq<Seq<char>>,
    symbols: Seq<Seq<char>>,
)
    requires
        bytes.len() <= u64::MAX,
        holds_bytes(bytes, position, symbol_bytes(symbols)),
    ensures
        symbols_from(
            bytes,
            position,
            position + symbol_bytes(symbols).len(),
            symbols.len() as int,
            before,
        ) == Ok::<Seq<Seq<char>>, IndexError>(before + symbols),
    decreases symbols.len(),
{
    if symbols.len() == 0 {
        assert(before + symbols =~= before);
    } else {
        let text = encode_utf8(symbols[0]);
        let rest = symbols.drop_first();
        let a = uvarint_bytes(text.len() as int);
        let b = symbol_bytes(rest);
        lemma_parts(bytes, position, a, text + b);
        lemma_parts(bytes, position + a.len(), text, b);
        law_written_uvarints_are_read(bytes, position, text.len() as int);
        let start = position + a.len();
        assert(bytes.subrange(start, start + text.len()) =~= text);
        broadcast use vstd::utf8::encode_utf8_decode_utf8;
        broadcast use vstd::utf8::encode_utf8_valid_utf8;

        assert(valid_utf8(text));
        assert(decode_utf8(text) == symbols[0]);
        lemma_written_symbols(bytes, start + text.len(), before.push(symbols[0]), rest);
        assert(before.push(symbols[0]) + rest =~= before + symbols);
        assert(position + symbol_bytes(symbols).len() == start + text.len() + b.len());
    }
}

#[verifier::spinoff_prover]
#[verifier::rlimit(60)]
proof fn lemma_written_u32(bytes: Seq<u8>, offset: int, value: int)
    requires
        0 <= value <= u32::MAX,
        holds_bytes(bytes, offset, be_bytes(value, 4)),
    ensures
        u32_at(bytes, offset) == Ok::<int, IndexError>(value),
        be_bytes(value, 4).len() == 4,
{
    reveal_with_fuel(be_bytes, 5);
    let written = be_bytes(value, 4);
    assert(written.len() == 4);
    assert(written[0] == bytes[offset] && written[1] == bytes[offset + 1] && written[2]
        == bytes[offset + 2] && written[3] == bytes[offset + 3]);
    assert(written[3] == value % 256);
    assert(written[2] == value / 256 % 256);
    assert(written[1] == value / 256 / 256 % 256);
    assert(written[0] == value / 256 / 256 / 256 % 256);
}

#[verifier::spinoff_prover]
#[verifier::rlimit(60)]
proof fn lemma_written_u64(bytes: Seq<u8>, offset: int, value: int)
    requires
        0 <= value <= u64::MAX,
        holds_bytes(bytes, offset, be_bytes(value, 8)),
    ensures
        u64_at(bytes, offset) == Ok::<int, IndexError>(value),
        be_bytes(value, 8).len() == 8,
{
    let high = value / 0x1_0000_0000;
    let low = value % 0x1_0000_0000;
    lemma_split_number(value);
    lemma_number_length(high, 4);
    lemma_number_length(low, 4);
    lemma_parts(bytes, offset, be_bytes(high, 4), be_bytes(low, 4));
    lemma_written_u32(bytes, offset, high);
    lemma_written_u32(bytes, offset + 4, low);
}

proof fn lemma_number_length(value: int, size: int)
    requires
        0 <= size,
    ensures
        be_bytes(value, size).len() == size,
    decreases size,
{
    if size > 0 {
        lemma_number_length(value / 256, size - 1);
    }
}

#[verifier::spinoff_prover]
#[verifier::rlimit(40)]
proof fn lemma_split_number(value: int)
    requires
        0 <= value <= u64::MAX,
    ensures
        be_bytes(value, 8) == be_bytes(value / 0x1_0000_0000, 4) + be_bytes(
            value % 0x1_0000_0000,
            4,
        ),
{
    let high = value / 0x1_0000_0000;
    let low = value % 0x1_0000_0000;
    let a = value / 256;
    let b = a / 256;
    let c = b / 256;
    let d = c / 256;
    assert(d == high);
    let p = low / 256;
    let q = p / 256;
    let r = q / 256;
    assert(low % 256 == value % 256 && p % 256 == a % 256 && q % 256 == b % 256 && r % 256 == c
        % 256);
    let top = be_bytes(high, 4);
    assert(be_bytes(c, 5) == top.push((c % 256) as u8));
    assert(be_bytes(b, 6) == be_bytes(c, 5).push((b % 256) as u8));
    assert(be_bytes(a, 7) == be_bytes(b, 6).push((a % 256) as u8));
    assert(be_bytes(value, 8) == be_bytes(a, 7).push((value % 256) as u8));
    assert(be_bytes(r / 256, 0) == Seq::<u8>::empty());
    assert(be_bytes(r, 1) == be_bytes(r / 256, 0).push((r % 256) as u8));
    assert(be_bytes(q, 2) == be_bytes(r, 1).push((q % 256) as u8));
    assert(be_bytes(p, 3) == be_bytes(q, 2).push((p % 256) as u8));
    assert(be_bytes(low, 4) == be_bytes(p, 3).push((low % 256) as u8));
    assert(be_bytes(value, 8) =~= top + be_bytes(low, 4));
}

/// Reading undoes writing: a symbol table of a length, the number of the symbols, the symbols and the
/// checksum of number and symbols gives the symbols.
#[verifier::spinoff_prover]
#[verifier::rlimit(60)]
pub proof fn law_written_symbol_tables_are_read(bytes: Seq<u8>, offset: int, symbols: Seq<Seq<char>>)
    requires
        ({
            let content = be_bytes(symbols.len() as int, 4) + symbol_bytes(symbols);
            &&& symbols.len() <= u32::MAX
            &&& content.len() <= u32::MAX
            &&& bytes.len() <= u64::MAX
            &&& holds_bytes(
                bytes,
                offset,
                be_bytes(content.len() as int, 4) + (content + be_bytes(
                    crc32c(content) as int,
                    4,
                )),
            )
        }),
    ensures
        symbol_table(bytes, offset) == Ok::<Seq<Seq<char>>, IndexError>(symbols),
{
    let count = be_bytes(symbols.len() as int, 4);
    let content = count + symbol_bytes(symbols);
    let length = be_bytes(content.len() as int, 4);
    let checksum = be_bytes(crc32c(content) as int, 4);
    reveal_with_fuel(be_bytes, 5);
    lemma_parts(bytes, offset, length, content + checksum);
    lemma_written_u32(bytes, offset, content.len() as int);
    lemma_parts(bytes, offset + 4, content, checksum);
    lemma_written_u32(bytes, offset + 4 + content.len(), crc32c(content) as int);
    lemma_parts(bytes, offset + 4, count, symbol_bytes(symbols));
    lemma_written_u32(bytes, offset + 4, symbols.len() as int);
    assert(bytes.subrange(offset + 4, offset + 4 + content.len()) =~= content);
    lemma_written_symbols(bytes, offset + 8, Seq::empty(), symbols);
    assert(Seq::<Seq<char>>::empty() + symbols =~= symbols);
    assert(content.len() == 4 + symbol_bytes(symbols).len());
}

/// Reading undoes writing: an entry of the length of its body, the body and the checksum of the body
/// gives the series of the body under the offset in units of 16 bytes, and reading goes on behind the
/// checksum.
#[verifier::spinoff_prover]
#[verifier::rlimit(60)]
pub proof fn law_written_entries_are_read(
    bytes: Seq<u8>,
    offset: int,
    end: int,
    symbols: Seq<Seq<char>>,
    body: Seq<u8>,
)
    requires
        bytes.len() <= u64::MAX,
        end <= bytes.len(),
        holds_bytes(
            bytes,
            offset,
            uvarint_bytes(body.len() as int) + (body + be_bytes(crc32c(body) as int, 4)),
        ),
        offset + uvarint_bytes(body.len() as int).len() + body.len() + 4 <= end,
    ensures
        series_entry(bytes, offset, end, symbols) == match series_in(body, offset / 16, symbols) {
            Ok(series) => Ok::<(SeriesModel, int), IndexError>(
                (series, offset + uvarint_bytes(body.len() as int).len() + body.len() + 4),
            ),
            Err(error) => Err(error),
        },
{
    let length = uvarint_bytes(body.len() as int);
    let checksum = be_bytes(crc32c(body) as int, 4);
    reveal_with_fuel(be_bytes, 5);
    lemma_parts(bytes, offset, length, body + checksum);
    law_written_uvarints_are_read(bytes, offset, body.len() as int);
    let start = offset + length.len();
    lemma_parts(bytes, start, body, checksum);
    lemma_written_u32(bytes, start + body.len(), crc32c(body) as int);
    assert(bytes.subrange(start, start + body.len()) =~= body);
}

/// Series are read one behind the other: each starts at a multiple of 16 bytes, and zero bytes lie
/// between them.
pub proof fn law_series_stand_at_multiples_of_sixteen(
    bytes: Seq<u8>,
    offset: int,
    end: int,
    symbols: Seq<Seq<char>>,
    series: Seq<SeriesModel>,
    next: int,
)
    requires
        0 <= offset < end,
        next % 16 == 0,
    ensures
        offset % 16 == 0 && bytes[offset] == 0 && next == offset + 16 ==> series_from(
            bytes,
            offset,
            end,
            symbols,
            series,
        ) == series_from(bytes, next, end, symbols, series),
        bytes[offset] != 0 ==> (series_entry(bytes, offset, end, symbols) matches Ok((
            entry,
            behind,
        )) ==> (behind <= next < behind + 16 ==> series_from(bytes, offset, end, symbols, series)
            == series_from(bytes, next, end, symbols, series.push(entry)))),
{
}

/// The table of contents stands in the last 52 bytes of an index, with its checksum behind it. Its
/// first three numbers are where the symbols stand, where the series start and where they end.
#[verifier::spinoff_prover]
#[verifier::rlimit(60)]
pub proof fn law_contents_name_symbols_and_series(
    bytes: Seq<u8>,
    version: u8,
    symbols_offset: int,
    start: int,
    end: int,
    others: Seq<u8>,
)
    requires
        ({
            let contents = be_bytes(symbols_offset, 8) + (be_bytes(start, 8) + (be_bytes(end, 8)
                + others));
            &&& others.len() == 24
            &&& 0 <= symbols_offset <= u64::MAX
            &&& 0 <= start <= end <= u64::MAX
            &&& end <= bytes.len() - 52
            &&& bytes.len() >= 57
            &&& holds_bytes(bytes, 0, seq![0xBA, 0xAA, 0xD7, 0x00, version])
            &&& version == 1 || version == 2
            &&& holds_bytes(
                bytes,
                bytes.len() - 52,
                contents + be_bytes(crc32c(contents) as int, 4),
            )
        }),
    ensures
        index_series(bytes) == match symbol_table(bytes, symbols_offset) {
            Ok(symbols) => series_from(bytes, start, end, symbols, Seq::empty()),
            Err(error) => Err(error),
        },
{
    let first = be_bytes(symbols_offset, 8);
    let second = be_bytes(start, 8);
    let third = be_bytes(end, 8);
    let contents = first + (second + (third + others));
    let checksum = be_bytes(crc32c(contents) as int, 4);
    let toc = bytes.len() - 52;
    lemma_number_length(symbols_offset, 8);
    lemma_number_length(start, 8);
    lemma_number_length(end, 8);
    lemma_parts(bytes, toc, contents, checksum);
    lemma_contents(bytes, toc, symbols_offset, start, end, others);
    assert(contents.len() == 48);
    lemma_written_u32(bytes, toc + 48, crc32c(contents) as int);
    assert(bytes.subrange(toc, toc + 48) =~= contents);
    let head: Seq<u8> = seq![0xBA, 0xAA, 0xD7, 0x00, version];
    assert(head[0] == bytes[0] && head[1] == bytes[1] && head[2] == bytes[2] && head[3] == bytes[3]
        && head[4] == bytes[4]);
}

#[verifier::spinoff_prover]
#[verifier::rlimit(60)]
proof fn lemma_contents(
    bytes: Seq<u8>,
    toc: int,
    symbols_offset: int,
    start: int,
    end: int,
    others: Seq<u8>,
)
    requires
        0 <= symbols_offset <= u64::MAX,
        0 <= start <= u64::MAX,
        0 <= end <= u64::MAX,
        holds_bytes(
            bytes,
            toc,
            be_bytes(symbols_offset, 8) + (be_bytes(start, 8) + (be_bytes(end, 8) + others)),
        ),
    ensures
        u64_at(bytes, toc) == Ok::<int, IndexError>(symbols_offset),
        u64_at(bytes, toc + 8) == Ok::<int, IndexError>(start),
        u64_at(bytes, toc + 16) == Ok::<int, IndexError>(end),
{
    let first = be_bytes(symbols_offset, 8);
    let second = be_bytes(start, 8);
    let third = be_bytes(end, 8);
    lemma_number_length(symbols_offset, 8);
    lemma_number_length(start, 8);
    lemma_parts(bytes, toc, first, second + (third + others));
    lemma_written_u64(bytes, toc, symbols_offset);
    lemma_parts(bytes, toc + 8, second, third + others);
    lemma_written_u64(bytes, toc + 8, start);
    lemma_parts(bytes, toc + 16, third, others);
    lemma_written_u64(bytes, toc + 16, end);
}

/// A file is refused as an index if it is too short for one, does not start with the four bytes of an
/// index, has another version than 1 or 2, or has contents that do not have their checksum.
#[verifier::spinoff_prover]
#[verifier::rlimit(40)]
pub proof fn law_files_that_are_no_index_are_refused(bytes: Seq<u8>)
    ensures
        bytes.len() < 57 ==> index_series(bytes) == Err::<Seq<SeriesModel>, IndexError>(
            IndexError::TooShort,
        ),
        bytes.len() >= 57 && !(bytes[0] == 0xBA && bytes[1] == 0xAA && bytes[2] == 0xD7 && bytes[3]
            == 0) ==> index_series(bytes) == Err::<Seq<SeriesModel>, IndexError>(
            IndexError::InvalidMagic,
        ),
        bytes.len() >= 57 && bytes[0] == 0xBA && bytes[1] == 0xAA && bytes[2] == 0xD7 && bytes[3]
            == 0 && bytes[4] != 1 && bytes[4] != 2 ==> index_series(bytes) == Err::<
            Seq<SeriesModel>,
            IndexError,
        >(IndexError::UnsupportedVersion(bytes[4])),
        index_series(bytes) is Ok ==> {
            let end = bytes.len() - 4;
            crc32c(bytes.subrange(end - 48, end)) == bytes[end] * 0x100_0000 + bytes[end + 1]
                * 0x1_0000 + bytes[end + 2] * 0x100 + bytes[end + 3]
        },
{
    if bytes.len() >= 57 {
        lemma_index_magic(bytes[0], bytes[1], bytes[2], bytes[3]);
        let end = bytes.len() - 4;
        assert(u32_at(bytes, 0)->Ok_0 == bytes[0] * 0x100_0000 + bytes[1] * 0x1_0000 + bytes[2]
            * 0x100 + bytes[3]);
        assert(crc_holds(bytes, end - 48, 48) ==> u32_at(bytes, end)->Ok_0 == crc32c(
            bytes.subrange(end - 48, end),
        ));
    }
}

proof fn lemma_index_magic(a: u8, b: u8, c: u8, d: u8)
    ensures
        a * 0x100_0000 + b * 0x1_0000 + c * 0x100 + d == INDEX_MAGIC <==> a == 0xBA && b == 0xAA
            && c == 0xD7 && d == 0,
{
}

/// References name symbols by their place, counted from one.
pub proof fn law_references_count_symbols_from_one(symbols: Seq<Seq<char>>, i: int)
    ensures
        0 <= i < symbols.len() ==> symbol_named(symbols, i + 1) == Ok::<Seq<char>, IndexError>(
            symbols[i],
        ),
        symbol_named(symbols, 0) == Err::<Seq<char>, IndexError>(
            IndexError::InvalidSymbolReference,
        ),
        i >= symbols.len() ==> symbol_named(symbols, i + 1) == Err::<Seq<char>, IndexError>(
            IndexError::SymbolOutOfBounds,
        ),
{
}

/// No more than 64 bits are read for a number, in ten bytes at most.
pub proof fn law_numbers_have_at_most_64_bits(bytes: Seq<u8>, offset: int)
    requires
        0 <= offset,
    ensures
        uvarint_at(bytes, offset) matches Ok((value, size)) ==> 0 <= value <= u64::MAX && 1 <= size
            <= 10 && offset + size <= bytes.len() && bytes[offset + size - 1] < 128,
{
    reveal_with_fuel(pow128, 11);
    lemma_read_number(bytes, offset, 0);
}

proof fn lemma_read_number(bytes: Seq<u8>, offset: int, index: int)
    requires
        0 <= offset,
        0 <= index <= 9,
    ensures
        uvarint_digits(bytes, offset, index) matches Ok((value, size)) ==> {
            &&& 0 <= value < 2 * pow128(9 - index)
            &&& index < size <= 10
            &&& offset + size <= bytes.len()
            &&& bytes[offset + size - 1] < 128
        },
    decreases 10 - index,
{
    if index < 9 {
        lemma_read_number(bytes, offset, index + 1);
        assert(pow128(9 - index) == 128 * pow128(8 - index));
        lemma_pow128(8 - index);
    }
}

/// A series has as many labels as it says: no name comes twice.
pub proof fn law_labels_of_a_series_are_counted(
    body: Seq<u8>,
    position: int,
    count: int,
    symbols: Seq<Seq<char>>,
    labels: Map<Seq<char>, Seq<char>>,
)
    requires
        labels.dom().finite(),
        0 <= count,
    ensures
        labels_from(body, position, count, symbols, labels) matches Ok((read, end)) ==> {
            &&& read.dom().finite()
            &&& read.dom().len() == labels.dom().len() + count
            &&& forall|key: Seq<char>|
                labels.contains_key(key) ==> #[trigger] read.contains_key(key) && read[key]
                    == labels[key]
        },
    decreases count,
{
    if count > 0 {
        if let Ok((read, end)) = labels_from(body, position, count, symbols, labels) {
            let (name_ref, name_size) = uvarint_at(body, position)->Ok_0;
            let (value_ref, value_size) = uvarint_at(body, position + name_size)->Ok_0;
            let name = symbol_named(symbols, name_ref)->Ok_0;
            let value = symbol_named(symbols, value_ref)->Ok_0;
            let next = labels.insert(name, value);
            assert(next.dom() =~= labels.dom().insert(name));
            law_labels_of_a_series_are_counted(
                body,
                position + name_size + value_size,
                count - 1,
                symbols,
                next,
            );
            assert(!labels.contains_key(name));
            assert(labels_from(
                body,
                position + name_size + value_size,
                count - 1,
                symbols,
                next,
            ) == Ok::<(Map<Seq<char>, Seq<char>>, int), IndexError>((read, end)));
            assert forall|key: Seq<char>| labels.contains_key(key) implies
                #[trigger] read.contains_key(key) && read[key] == labels[key] by {
                assert(next.contains_key(key) && next[key] == labels[key]);
            }
        }
    }
}

} // verus!
