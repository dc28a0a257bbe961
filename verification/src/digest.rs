//! Checksums and hashes, computed by the `crc`, `sha2` and `xxhash-rust` crates.

use vstd::prelude::*;

verus! {

/// What `crc::Crc::<u32>::checksum` returns for the algorithm `CRC_32_ISCSI` (CRC-32C).
pub uninterp spec fn crc32c(bytes: Seq<u8>) -> u32;

/// Calls `crc::Crc::<u32>::new(&crc::CRC_32_ISCSI).checksum(bytes)`: the CRC-32C checksum is a
/// function of the bytes alone, and goes by the name [`crc32c`].
#[verifier::external_body]
pub(crate) fn crc32c_checksum(bytes: &[u8]) -> (checksum: u32)
    ensures
        checksum == crc32c(bytes@),
{
    crc::Crc::<u32>::new(&crc::CRC_32_ISCSI).checksum(bytes)
}

/// What `sha2::Sha256::digest` returns.
pub uninterp spec fn sha256(bytes: Seq<u8>) -> Seq<u8>;

/// Calls `sha2::Sha256::digest`: the SHA-256 digest is a function of the bytes alone, has 32
/// bytes, and goes by the name [`sha256`].
#[verifier::external_body]
pub(crate) fn sha256_digest(bytes: &[u8]) -> (digest: Vec<u8>)
    ensures
        digest@ == sha256(bytes@),
        digest@.len() == 32,
{
    <sha2::Sha256 as sha2::Digest>::digest(bytes).to_vec()
}

/// What `xxhash_rust::xxh64::xxh64` returns for the seed 0.
pub uninterp spec fn xxh64(bytes: Seq<u8>) -> u64;

/// Calls `xxhash_rust::xxh64::xxh64` with the seed 0: the hash is a function of the bytes alone,
/// and goes by the name [`xxh64`].
#[verifier::external_body]
pub(crate) fn xxh64_hash(bytes: &[u8]) -> (hash: u64)
    ensures
        hash == xxh64(bytes@),
{
    xxhash_rust::xxh64::xxh64(bytes, 0)
}

/// The big-endian bytes of a number.
pub open spec fn be_bytes(number: int, size: int) -> Seq<u8>
    decreases size,
{
    if size <= 0 {
        Seq::empty()
    } else {
        be_bytes(number / 256, size - 1).push((number % 256) as u8)
    }
}

/// Appends the big-endian bytes of a number.
pub(crate) fn push_be_bytes(bytes: &mut Vec<u8>, number: u64, size: usize)
    ensures
        final(bytes)@ == old(bytes)@ + be_bytes(number as int, size as int),
    decreases size,
{
    if size == 0 {
        assert(bytes@ =~= old(bytes)@ + be_bytes(number as int, 0));
        return;
    }
    push_be_bytes(bytes, number / 256, size - 1);
    let ghost before = bytes@;
    bytes.push((number % 256) as u8);
    assert(bytes@ =~= old(bytes)@ + be_bytes(number as int, size as int));
}

/// Appends bytes.
pub(crate) fn push_all(bytes: &mut Vec<u8>, more: &[u8])
    ensures
        final(bytes)@ == old(bytes)@ + more@,
{
    let mut i: usize = 0;
    assert(bytes@ =~= old(bytes)@ + more@.take(0));
    while i < more.len()
        invariant
            i <= more.len(),
            bytes@ =~= old(bytes)@ + more@.take(i as int),
        decreases more.len() - i,
    {
        bytes.push(more[i]);
        i = i + 1;
    }
    assert(more@.take(i as int) =~= more@);
}

/// The hexadecimal digit of a number below sixteen.
pub open spec fn hex_digit(digit: int) -> char {
    if digit < 10 {
        ('0' as int + digit) as char
    } else {
        ('a' as int + digit - 10) as char
    }
}

/// Bytes written in hexadecimal digits, two for each.
pub open spec fn hex_text(bytes: Seq<u8>) -> Seq<char> {
    Seq::new(
        2 * bytes.len(),
        |i: int|
            if i % 2 == 0 {
                hex_digit(bytes[i / 2] as int / 16)
            } else {
                hex_digit(bytes[i / 2] as int % 16)
            },
    )
}

fn hex_digit_text(digit: u8) -> (text: &'static str)
    requires
        digit < 16,
    ensures
        text@ == seq![hex_digit(digit as int)],
{
    proof {
        reveal_strlit("0");
        reveal_strlit("1");
        reveal_strlit("2");
        reveal_strlit("3");
        reveal_strlit("4");
        reveal_strlit("5");
        reveal_strlit("6");
        reveal_strlit("7");
        reveal_strlit("8");
        reveal_strlit("9");
        reveal_strlit("a");
        reveal_strlit("b");
        reveal_strlit("c");
        reveal_strlit("d");
        reveal_strlit("e");
        reveal_strlit("f");
    }
    let text = if digit == 0 {
        "0"
    } else if digit == 1 {
        "1"
    } else if digit == 2 {
        "2"
    } else if digit == 3 {
        "3"
    } else if digit == 4 {
        "4"
    } else if digit == 5 {
        "5"
    } else if digit == 6 {
        "6"
    } else if digit == 7 {
        "7"
    } else if digit == 8 {
        "8"
    } else if digit == 9 {
        "9"
    } else if digit == 10 {
        "a"
    } else if digit == 11 {
        "b"
    } else if digit == 12 {
        "c"
    } else if digit == 13 {
        "d"
    } else if digit == 14 {
        "e"
    } else {
        "f"
    };
    assert(text@ =~= seq![hex_digit(digit as int)]);
    text
}

/// Writes bytes in hexadecimal digits.
pub(crate) fn hex(bytes: &Vec<u8>) -> (text: String)
    ensures
        text@ == hex_text(bytes@),
{
    let mut text = String::new();
    let mut i: usize = 0;
    while i < bytes.len()
        invariant
            i <= bytes.len(),
            text@ =~= hex_text(bytes@.take(i as int)),
        decreases bytes.len() - i,
    {
        text.append(hex_digit_text(bytes[i] / 16));
        text.append(hex_digit_text(bytes[i] % 16));
        i = i + 1;
    }
    assert(bytes@.take(i as int) =~= bytes@);
    text
}

/// A byte is written as two hexadecimal digits, the digit of its higher half first.
pub proof fn law_bytes_are_written_in_two_digits(bytes: Seq<u8>, i: int)
    requires
        0 <= i < bytes.len(),
    ensures
        hex_text(bytes).len() == 2 * bytes.len(),
        hex_text(bytes)[2 * i] == "0123456789abcdef"@[bytes[i] as int / 16],
        hex_text(bytes)[2 * i + 1] == "0123456789abcdef"@[bytes[i] as int % 16],
{
    reveal_strlit("0123456789abcdef");
    assert((2 * i) / 2 == i && (2 * i) % 2 == 0);
    assert((2 * i + 1) / 2 == i && (2 * i + 1) % 2 == 1);
}

} // verus!
