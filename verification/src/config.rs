//! The configuration of a reader and the rules that it obeys.

use vstd::arithmetic::power2::pow2;
use vstd::prelude::*;

#[allow(unused_imports)]
use crate::text::{
    decimal_text, digits_value, has_prefix, has_suffix, law_padded_numbers_are_read,
    law_written_numbers_are_read, lemma_digits_not_negative, lemma_number_not_negative,
    number_text, padded_text, split_at_first, trimmed,
};
use crate::text::{characters, parse_u64, same, split_once, strip_suffix, trim};

verus! {

/// The configuration of a reader.
pub struct ReaderConfig {
    pub listen_addr: String,
    pub metrics_listen_addr: String,
    pub index_cache_location: String,
    pub repositories: Vec<ThanosRepositoryConfig>,
    pub storage: StorageConfig,
}

/// A bucket of blocks, with options for its backend.
pub struct ThanosRepositoryConfig {
    pub name: String,
    pub uri: String,
    pub s3: Option<S3Config>,
    pub gcs: Option<GcsConfig>,
}

/// Options for buckets in S3.
pub struct S3Config {
    pub region: Option<String>,
    pub endpoint: Option<String>,
    pub virtual_host_style: bool,
}

/// Options for buckets in Google Cloud Storage.
pub struct GcsConfig {
    pub endpoint: Option<String>,
}

/// Limits on the use of object storage.
pub struct StorageConfig {
    pub request_timeout: String,
    pub max_retries: usize,
    pub max_concurrent_requests: usize,
    pub bulk_read_chunk_size: String,
    pub bulk_read_concurrency: usize,
    pub max_concurrent_chunk_reads: usize,
    pub index_build_concurrency: usize,
    /// The largest number of requests in flight while blocks are discovered.
    pub metadata_read_concurrency: usize,
    /// Blocks whose largest time is older than this are ignored.
    pub block_max_age: Option<String>,
    pub chunk_cache: Option<ChunkCacheConfig>,
}

/// The local cache of pages of chunk files.
pub struct ChunkCacheConfig {
    pub directory: String,
    pub max_size: String,
    pub page_size: String,
    pub policy: CachePolicy,
    /// The bit pattern of the fraction of the cache that protected pages may take.
    pub protected_fraction: u64,
}

/// How the cache picks the pages to drop.
#[derive(Clone, Copy, Debug, PartialEq, Eq, Structural)]
pub enum CachePolicy {
    Lru,
    Slru,
}

/// A setting that is a number of bytes.
#[derive(Clone, Copy, Debug, PartialEq, Eq, Structural)]
pub enum SizeSetting {
    CacheMaxSize,
    CachePageSize,
    BulkReadChunkSize,
}

/// Why a configuration was rejected. A repository is named by its position.
#[derive(Clone, Copy, Debug, PartialEq, Eq, Structural)]
pub enum ConfigError {
    InvalidListenAddress,
    InvalidMetricsListenAddress,
    EmptyIndexCacheLocation,
    NoRepositories,
    InvalidDuration,
    ZeroRequestTimeout,
    ZeroConcurrency,
    InvalidSize(SizeSetting),
    SizeOverflow(SizeSetting),
    MissingSizeSuffix(SizeSetting),
    ZeroBulkReadChunkSize,
    CachePageSizeOutOfRange,
    CachePageSizeNotPowerOfTwo,
    ProtectedFractionOutOfRange,
    EmptyRepositoryName(usize),
    EmptyRepositoryUri(usize),
    DuplicateRepositoryName(usize),
    MissingScheme(usize),
    WrongBackend(usize),
    UnsupportedScheme(usize),
}

/// The number of bytes that a suffix stands for, if the text has it.
pub open spec fn suffix_bytes(
    text: Seq<char>,
    suffix: Seq<char>,
    multiplier: int,
    setting: SizeSetting,
) -> Result<int, ConfigError> {
    match number_text(trimmed(text.take(text.len() - suffix.len()))) {
        None => Err(ConfigError::InvalidSize(setting)),
        Some(number) => if number * multiplier > u64::MAX {
            Err(ConfigError::SizeOverflow(setting))
        } else {
            Ok(number * multiplier)
        },
    }
}

/// The number of bytes that a text stands for: a number with a binary suffix, and white space
/// around the two.
pub open spec fn size_bytes(text: Seq<char>, setting: SizeSetting) -> Result<int, ConfigError> {
    let size = trimmed(text);
    if has_suffix(size, "KiB"@) {
        suffix_bytes(size, "KiB"@, 1024, setting)
    } else if has_suffix(size, "MiB"@) {
        suffix_bytes(size, "MiB"@, 1_048_576, setting)
    } else if has_suffix(size, "GiB"@) {
        suffix_bytes(size, "GiB"@, 1_073_741_824, setting)
    } else if has_suffix(size, "TiB"@) {
        suffix_bytes(size, "TiB"@, 1_099_511_627_776, setting)
    } else if has_suffix(size, "B"@) {
        suffix_bytes(size, "B"@, 1, setting)
    } else {
        Err(ConfigError::MissingSizeSuffix(setting))
    }
}

fn multiplied(number: &str, multiplier: u64, setting: SizeSetting) -> (result: Result<
    u64,
    ConfigError,
>)
    ensures
        match (result, number_text(trimmed(number@))) {
            (Ok(bytes), Some(value)) => bytes == value * multiplier,
            (Ok(_), None) => false,
            (Err(error), Some(value)) => error == ConfigError::SizeOverflow(setting) && value
                * multiplier > u64::MAX,
            (Err(error), None) => error == ConfigError::InvalidSize(setting),
        },
{
    match parse_u64(trim(number)) {
        None => Err(ConfigError::InvalidSize(setting)),
        Some(value) => match value.checked_mul(multiplier) {
            Some(bytes) => Ok(bytes),
            None => Err(ConfigError::SizeOverflow(setting)),
        },
    }
}

/// Reads a number of bytes with a binary suffix.
fn parse_size(text: &str, setting: SizeSetting) -> (result: Result<u64, ConfigError>)
    ensures
        match result {
            Ok(bytes) => size_bytes(text@, setting) == Ok::<int, ConfigError>(bytes as int),
            Err(error) => size_bytes(text@, setting) == Err::<int, ConfigError>(error),
        },
{
    let size = trim(text);
    if let Some(number) = strip_suffix(size, "KiB") {
        return multiplied(number, 1024, setting);
    }
    if let Some(number) = strip_suffix(size, "MiB") {
        return multiplied(number, 1_048_576, setting);
    }
    if let Some(number) = strip_suffix(size, "GiB") {
        return multiplied(number, 1_073_741_824, setting);
    }
    if let Some(number) = strip_suffix(size, "TiB") {
        return multiplied(number, 1_099_511_627_776, setting);
    }
    if let Some(number) = strip_suffix(size, "B") {
        return multiplied(number, 1, setting);
    }
    Err(ConfigError::MissingSizeSuffix(setting))
}

/// A letter of a time unit.
pub open spec fn is_unit_letter(c: char) -> bool {
    ('a' <= c <= 'z') || ('A' <= c <= 'Z') || c == '\u{b5}'
}

/// The number of nanoseconds in the time unit whose name starts at a position. The unit goes by its
/// first letters: years, months, weeks, days, hours, minutes, seconds, milliseconds, microseconds and
/// nanoseconds. What starts otherwise is no time unit.
pub open spec fn unit_nanoseconds(text: Seq<char>, position: int) -> int {
    let c = text[position];
    let second = if position + 1 < text.len() {
        Some(text[position + 1])
    } else {
        None
    };
    let third = if position + 2 < text.len() {
        Some(text[position + 2])
    } else {
        None
    };
    if c == 'y' {
        31_557_600_000_000_000
    } else if c == 'M' || (c == 'm' && second == Some('o')) {
        2_630_016_000_000_000
    } else if c == 'w' {
        604_800_000_000_000
    } else if c == 'd' {
        86_400_000_000_000
    } else if c == 'h' {
        3_600_000_000_000
    } else if c == 'm' && (second == Some('s') || (second == Some('i') && third == Some('l'))) {
        1_000_000
    } else if c == 'm' {
        60_000_000_000
    } else if c == 's' {
        1_000_000_000
    } else if c == 'u' || c == '\u{b5}' {
        1_000
    } else if c == 'n' {
        1
    } else {
        0
    }
}

/// So many units of a size as a number with a fraction says, which is given by its digits and by the
/// power of ten that they are a part of.
pub open spec fn amount(number: int, fraction: Option<(int, int)>, unit: int) -> int {
    number * unit + match fraction {
        Some((digits, scale)) => digits * unit / scale,
        None => 0,
    }
}

/// The number of nanoseconds that the text from a position on spells out, added to `total`.
/// `number` and `fraction` are what stands before the position and has no unit yet, `in_unit` says
/// that a letter stands directly before. A text with a number, or with a power of ten for a fraction,
/// of more than 64 bits spells nothing out.
pub open spec fn nanoseconds_from(
    text: Seq<char>,
    position: int,
    number: int,
    fraction: Option<(int, int)>,
    in_unit: bool,
    total: int,
) -> Option<int>
    decreases text.len() - position,
{
    if position < 0 || position >= text.len() {
        Some(total)
    } else {
        let c = text[position];
        if '0' <= c <= '9' {
            let digit = c as int - '0' as int;
            match fraction {
                None => if 10 * number + digit > u64::MAX {
                    None
                } else {
                    nanoseconds_from(text, position + 1, 10 * number + digit, None, false, total)
                },
                Some((digits, scale)) => if 10 * scale > u64::MAX {
                    None
                } else {
                    nanoseconds_from(
                        text,
                        position + 1,
                        number,
                        Some((10 * digits + digit, 10 * scale)),
                        false,
                        total,
                    )
                },
            }
        } else if is_unit_letter(c) {
            if in_unit {
                nanoseconds_from(text, position + 1, number, fraction, true, total)
            } else {
                let more = amount(number, fraction, unit_nanoseconds(text, position));
                nanoseconds_from(text, position + 1, 0, None, true, total + more)
            }
        } else if c == '.' && fraction is None {
            nanoseconds_from(text, position + 1, number, Some((0, 1)), false, total)
        } else {
            nanoseconds_from(text, position + 1, number, fraction, false, total)
        }
    }
}

/// A text spells out no duration, or one that 64 bits of seconds do not hold.
pub open spec fn is_too_long(text: Seq<char>) -> bool {
    match nanoseconds_from(text, 0, 0, None, false, 0) {
        Some(total) => total >= 0x1_0000_0000_0000_0000 * 1_000_000_000,
        None => true,
    }
}

spec fn is_part(fraction: Option<(int, int)>) -> bool {
    match fraction {
        Some((digits, scale)) => 0 <= digits < scale <= u64::MAX,
        None => true,
    }
}

proof fn lemma_amount_not_negative(number: int, fraction: Option<(int, int)>, unit: int)
    requires
        number >= 0,
        unit >= 0,
        is_part(fraction),
    ensures
        amount(number, fraction, unit) >= 0,
{
    assert(number * unit >= 0) by (nonlinear_arith)
        requires
            number >= 0,
            unit >= 0,
    ;
    if let Some((digits, scale)) = fraction {
        assert(digits * unit / scale >= 0) by (nonlinear_arith)
            requires
                digits >= 0,
                unit >= 0,
                scale > 0,
        ;
    }
}

proof fn lemma_total_grows(
    text: Seq<char>,
    position: int,
    number: int,
    fraction: Option<(int, int)>,
    in_unit: bool,
    total: int,
)
    requires
        position >= 0,
        number >= 0,
        is_part(fraction),
    ensures
        nanoseconds_from(text, position, number, fraction, in_unit, total) matches Some(end)
            ==> end >= total,
    decreases text.len() - position,
{
    if position < text.len() {
        let c = text[position];
        if '0' <= c <= '9' {
            let digit = c as int - '0' as int;
            match fraction {
                None => {
                    lemma_total_grows(
                        text,
                        position + 1,
                        10 * number + digit,
                        None,
                        false,
                        total,
                    );
                },
                Some((digits, scale)) => {
                    if 10 * scale <= u64::MAX {
                        lemma_total_grows(
                            text,
                            position + 1,
                            number,
                            Some((10 * digits + digit, 10 * scale)),
                            false,
                            total,
                        );
                    }
                },
            }
        } else if is_unit_letter(c) {
            if in_unit {
                lemma_total_grows(text, position + 1, number, fraction, true, total);
            } else {
                let unit = unit_nanoseconds(text, position);
                lemma_amount_not_negative(number, fraction, unit);
                let more = amount(number, fraction, unit);
                lemma_total_grows(text, position + 1, 0, None, true, total + more);
            }
        } else if c == '.' && fraction is None {
            lemma_total_grows(text, position + 1, number, Some((0, 1)), false, total);
        } else {
            lemma_total_grows(text, position + 1, number, fraction, false, total);
        }
    }
}

fn size_of_unit(all: &Vec<char>, i: usize) -> (unit: u128)
    requires
        i < all@.len(),
    ensures
        unit == unit_nanoseconds(all@, i as int),
        unit <= 31_557_600_000_000_000,
{
    let c: char = all[i];
    let left: usize = all.len() - i;
    let second: Option<char> = if left > 1 {
        Some(all[i + 1])
    } else {
        None
    };
    let third: Option<char> = if left > 2 {
        Some(all[i + 2])
    } else {
        None
    };
    if c == 'y' {
        31_557_600_000_000_000
    } else if c == 'M' || (c == 'm' && second == Some('o')) {
        2_630_016_000_000_000
    } else if c == 'w' {
        604_800_000_000_000
    } else if c == 'd' {
        86_400_000_000_000
    } else if c == 'h' {
        3_600_000_000_000
    } else if c == 'm' && (second == Some('s') || (second == Some('i') && third == Some('l'))) {
        1_000_000
    } else if c == 'm' {
        60_000_000_000
    } else if c == 's' {
        1_000_000_000
    } else if c == 'u' || c == '\u{b5}' {
        1_000
    } else if c == 'n' {
        1
    } else {
        0
    }
}

spec fn fraction_model(fraction: Option<(u128, u128)>) -> Option<(int, int)> {
    match fraction {
        Some((digits, scale)) => Some((digits as int, scale as int)),
        None => None,
    }
}

fn amount_of(number: u128, fraction: Option<(u128, u128)>, unit: u128) -> (result: u128)
    requires
        number <= u64::MAX,
        unit <= 31_557_600_000_000_000,
        is_part(fraction_model(fraction)),
    ensures
        result == amount(number as int, fraction_model(fraction), unit as int),
        result <= 0x2_0000_0000_0000_0000 * 31_557_600_000_000_000,
{
    assert(number * unit <= u64::MAX * 31_557_600_000_000_000) by (nonlinear_arith)
        requires
            number <= u64::MAX,
            unit <= 31_557_600_000_000_000,
    ;
    let whole: u128 = number * unit;
    match fraction {
        Some((digits, scale)) => {
            assert(digits * unit <= u64::MAX * 31_557_600_000_000_000) by (nonlinear_arith)
                requires
                    digits <= u64::MAX,
                    unit <= 31_557_600_000_000_000,
            ;
            let part: u128 = digits * unit / scale;
            assert(digits * unit / (scale as int) <= digits * unit) by (nonlinear_arith)
                requires
                    scale > 0,
                    digits >= 0,
                    unit >= 0,
            ;
            whole + part
        },
        None => whole,
    }
}

/// Tells whether a text spells out a duration that 64 bits of seconds hold.
fn fits_in_seconds(text: &str) -> (fits: bool)
    ensures
        fits == !is_too_long(text@),
{
    let all = characters(text);
    let mut number: u128 = 0;
    let mut fraction: Option<(u128, u128)> = None;
    let mut in_unit: bool = false;
    let mut total: u128 = 0;
    let mut i: usize = 0;
    while i < all.len()
        invariant
            i <= all.len(),
            all@ == text@,
            number <= u64::MAX,
            is_part(fraction_model(fraction)),
            total < 0x1_0000_0000_0000_0000 * 1_000_000_000,
            nanoseconds_from(text@, 0, 0, None, false, 0) == nanoseconds_from(
                text@,
                i as int,
                number as int,
                fraction_model(fraction),
                in_unit,
                total as int,
            ),
        decreases all.len() - i,
    {
        let c: char = all[i];
        if '0' <= c && c <= '9' {
            let digit: u128 = c as u128 - '0' as u128;
            match fraction {
                None => {
                    number = 10 * number + digit;
                    if number > u64::MAX as u128 {
                        return false;
                    }
                },
                Some((digits, scale)) => {
                    if 10 * scale > u64::MAX as u128 {
                        return false;
                    }
                    fraction = Some((10 * digits + digit, 10 * scale));
                },
            }
            in_unit = false;
        } else if ('a' <= c && c <= 'z') || ('A' <= c && c <= 'Z') || c == '\u{b5}' {
            if !in_unit {
                let unit: u128 = size_of_unit(&all, i);
                total = total + amount_of(number, fraction, unit);
                number = 0;
                fraction = None;
                in_unit = true;
            }
        } else {
            if c == '.' && fraction.is_none() {
                fraction = Some((0, 1));
            }
            in_unit = false;
        }
        i = i + 1;
        if total >= 0x1_0000_0000_0000_0000 * 1_000_000_000 {
            proof {
                lemma_total_grows(
                    text@,
                    i as int,
                    number as int,
                    fraction_model(fraction),
                    in_unit,
                    total as int,
                );
            }
            return false;
        }
    }
    true
}

/// What `humantime::parse_duration` reads: whole seconds and the nanoseconds beyond them, or
/// nothing where it rejects the text.
pub uninterp spec fn duration_text(text: Seq<char>) -> Option<(u64, u32)>;

/// Calls `humantime::parse_duration`, which reads a duration such as `1hour 12min 5s` or rejects
/// the text. What it reads is a function of the text alone, and goes by the name
/// [`duration_text`]. A duration that 64 bits of seconds do not hold is rejected there, or panics
/// where parts of a second add up to a whole one on top of the largest number of seconds; so texts
/// that spell such durations out are left out.
#[verifier::external_body]
fn parse_duration(text: &str) -> (duration: Option<(u64, u32)>)
    requires
        !is_too_long(text@),
    ensures
        duration == duration_text(text@),
{
    match humantime::parse_duration(text) {
        Ok(duration) => Some((duration.as_secs(), duration.subsec_nanos())),
        Err(_) => None,
    }
}

/// The duration that a setting spells out. One that 64 bits of seconds do not hold is not valid.
pub open spec fn setting_duration(text: Seq<char>) -> Result<(u64, u32), ConfigError> {
    if is_too_long(text) {
        Err(ConfigError::InvalidDuration)
    } else {
        match duration_text(text) {
            Some(duration) => Ok(duration),
            None => Err(ConfigError::InvalidDuration),
        }
    }
}

fn read_duration(text: &str) -> (result: Result<(u64, u32), ConfigError>)
    ensures
        result == setting_duration(text@),
{
    if !fits_in_seconds(text) {
        return Err(ConfigError::InvalidDuration);
    }
    match parse_duration(text) {
        Some(duration) => Ok(duration),
        None => Err(ConfigError::InvalidDuration),
    }
}

/// A power of two.
pub open spec fn is_power_of_two(number: int) -> bool
    decreases number,
{
    number == 1 || (number > 1 && number % 2 == 0 && is_power_of_two(number / 2))
}

fn power_of_two(number: u64) -> (result: bool)
    ensures
        result == is_power_of_two(number as int),
{
    let mut rest: u64 = number;
    while rest > 1 && rest % 2 == 0
        invariant
            is_power_of_two(number as int) == is_power_of_two(rest as int),
        decreases rest,
    {
        rest = rest / 2;
    }
    rest == 1
}

/// The bit patterns of the fractions from zero to one, minus zero with them.
pub open spec fn is_fraction(bits: u64) -> bool {
    bits <= 0x3ff0_0000_0000_0000 || bits == 0x8000_0000_0000_0000
}

impl ChunkCacheConfig {
    /// The largest number of bytes in the cache.
    pub fn max_size_bytes(&self) -> (result: Result<u64, ConfigError>)
        ensures
            match result {
                Ok(bytes) => size_bytes(self.max_size@, SizeSetting::CacheMaxSize) == Ok::<
                    int,
                    ConfigError,
                >(bytes as int),
                Err(error) => size_bytes(self.max_size@, SizeSetting::CacheMaxSize) == Err::<
                    int,
                    ConfigError,
                >(error),
            },
    {
        parse_size(self.max_size.as_str(), SizeSetting::CacheMaxSize)
    }

    /// The number of bytes in a page of the cache.
    pub fn page_size_bytes(&self) -> (result: Result<u64, ConfigError>)
        ensures
            match result {
                Ok(bytes) => size_bytes(self.page_size@, SizeSetting::CachePageSize) == Ok::<
                    int,
                    ConfigError,
                >(bytes as int),
                Err(error) => size_bytes(self.page_size@, SizeSetting::CachePageSize) == Err::<
                    int,
                    ConfigError,
                >(error),
            },
    {
        parse_size(self.page_size.as_str(), SizeSetting::CachePageSize)
    }

    /// What is wrong with the settings of the cache, if anything is.
    pub open spec fn problem(&self) -> Option<ConfigError> {
        match size_bytes(self.max_size@, SizeSetting::CacheMaxSize) {
            Err(error) => Some(error),
            Ok(max_size) => match size_bytes(self.page_size@, SizeSetting::CachePageSize) {
                Err(error) => Some(error),
                Ok(page_size) => if max_size == 0 || page_size == 0 || page_size > max_size {
                    Some(ConfigError::CachePageSizeOutOfRange)
                } else if !is_power_of_two(page_size) {
                    Some(ConfigError::CachePageSizeNotPowerOfTwo)
                } else if !is_fraction(self.protected_fraction) {
                    Some(ConfigError::ProtectedFractionOutOfRange)
                } else {
                    None
                },
            },
        }
    }

    fn validate(&self) -> (result: Result<(), ConfigError>)
        ensures
            match result {
                Ok(_) => self.problem() is None,
                Err(error) => self.problem() == Some(error),
            },
    {
        let max_size: u64 = self.max_size_bytes()?;
        let page_size: u64 = self.page_size_bytes()?;
        if max_size == 0 || page_size == 0 || page_size > max_size {
            return Err(ConfigError::CachePageSizeOutOfRange);
        }
        if !power_of_two(page_size) {
            return Err(ConfigError::CachePageSizeNotPowerOfTwo);
        }
        if self.protected_fraction > 0x3ff0_0000_0000_0000 && self.protected_fraction
            != 0x8000_0000_0000_0000 {
            return Err(ConfigError::ProtectedFractionOutOfRange);
        }
        Ok(())
    }
}

impl StorageConfig {
    /// The time that a request may take, in seconds and nanoseconds.
    pub fn request_timeout_duration(&self) -> (result: Result<(u64, u32), ConfigError>)
        ensures
            result == setting_duration(self.request_timeout@),
    {
        read_duration(self.request_timeout.as_str())
    }

    /// The number of bytes that one request of a bulk read asks for.
    pub fn bulk_read_chunk_size_bytes(&self) -> (result: Result<u64, ConfigError>)
        ensures
            match result {
                Ok(bytes) => size_bytes(self.bulk_read_chunk_size@, SizeSetting::BulkReadChunkSize)
                    == Ok::<int, ConfigError>(bytes as int),
                Err(error) => size_bytes(self.bulk_read_chunk_size@, SizeSetting::BulkReadChunkSize)
                    == Err::<int, ConfigError>(error),
            },
    {
        parse_size(self.bulk_read_chunk_size.as_str(), SizeSetting::BulkReadChunkSize)
    }

    /// The largest age of a block, in seconds and nanoseconds, if there is one.
    pub fn block_max_age_duration(&self) -> (result: Result<Option<(u64, u32)>, ConfigError>)
        ensures
            match (self.block_max_age, result) {
                (None, result) => result == Ok::<Option<(u64, u32)>, ConfigError>(None),
                (Some(text), Ok(duration)) => duration is Some && setting_duration(text@) == Ok::<
                    (u64, u32),
                    ConfigError,
                >(duration->0),
                (Some(text), Err(error)) => setting_duration(text@) == Err::<
                    (u64, u32),
                    ConfigError,
                >(error),
            },
    {
        match &self.block_max_age {
            None => Ok(None),
            Some(text) => {
                let duration = read_duration(text.as_str())?;
                Ok(Some(duration))
            },
        }
    }

    /// What is wrong with the limits, if anything is.
    pub open spec fn problem(&self) -> Option<ConfigError> {
        match setting_duration(self.request_timeout@) {
            Err(error) => Some(error),
            Ok((seconds, nanoseconds)) => if seconds == 0 && nanoseconds == 0 {
                Some(ConfigError::ZeroRequestTimeout)
            } else if self.max_concurrent_requests == 0 || self.bulk_read_concurrency == 0
                || self.max_concurrent_chunk_reads == 0 || self.index_build_concurrency == 0
                || self.metadata_read_concurrency == 0 {
                Some(ConfigError::ZeroConcurrency)
            } else {
                match size_bytes(self.bulk_read_chunk_size@, SizeSetting::BulkReadChunkSize) {
                    Err(error) => Some(error),
                    Ok(bytes) => if bytes == 0 {
                        Some(ConfigError::ZeroBulkReadChunkSize)
                    } else {
                        match self.chunk_cache {
                            Some(cache) => cache.problem(),
                            None => None,
                        }
                    },
                }
            },
        }
    }

    /// Checks the limits.
    pub fn validate(&self) -> (result: Result<(), ConfigError>)
        ensures
            match result {
                Ok(_) => self.problem() is None,
                Err(error) => self.problem() == Some(error),
            },
    {
        let (seconds, nanoseconds) = self.request_timeout_duration()?;
        if seconds == 0 && nanoseconds == 0 {
            return Err(ConfigError::ZeroRequestTimeout);
        }
        if self.max_concurrent_requests == 0 || self.bulk_read_concurrency == 0
            || self.max_concurrent_chunk_reads == 0 || self.index_build_concurrency == 0
            || self.metadata_read_concurrency == 0 {
            return Err(ConfigError::ZeroConcurrency);
        }
        if self.bulk_read_chunk_size_bytes()? == 0 {
            return Err(ConfigError::ZeroBulkReadChunkSize);
        }
        match &self.chunk_cache {
            Some(cache) => cache.validate(),
            None => Ok(()),
        }
    }
}

impl Default for StorageConfig {
    fn default() -> (config: Self)
        ensures
            config.request_timeout@ == "30s"@,
            config.max_retries == 3,
            config.max_concurrent_requests == 64,
            config.bulk_read_chunk_size@ == "8MiB"@,
            config.bulk_read_concurrency == 4,
            config.max_concurrent_chunk_reads == 16,
            config.index_build_concurrency == 12,
            config.metadata_read_concurrency == 64,
            config.block_max_age is None,
            config.chunk_cache is None,
    {
        StorageConfig {
            request_timeout: "30s".to_owned(),
            max_retries: 3,
            max_concurrent_requests: 64,
            bulk_read_chunk_size: "8MiB".to_owned(),
            bulk_read_concurrency: 4,
            max_concurrent_chunk_reads: 16,
            index_build_concurrency: 12,
            metadata_read_concurrency: 64,
            block_max_age: None,
            chunk_cache: None,
        }
    }
}

/// Where the server listens unless the configuration says otherwise.
pub fn default_listen_addr() -> (address: String)
    ensures
        address@ == "127.0.0.1:50051"@,
{
    "127.0.0.1:50051".to_owned()
}

/// Where metrics are served unless the configuration says otherwise.
pub fn default_metrics_listen_addr() -> (address: String)
    ensures
        address@ == "127.0.0.1:9090"@,
{
    "127.0.0.1:9090".to_owned()
}

/// The size of a chunk cache unless the configuration says otherwise.
pub fn default_chunk_cache_max_size() -> (size: String)
    ensures
        size@ == "10GiB"@,
{
    "10GiB".to_owned()
}

/// The size of a page of a chunk cache unless the configuration says otherwise.
pub fn default_chunk_cache_page_size() -> (size: String)
    ensures
        size@ == "512KiB"@,
{
    "512KiB".to_owned()
}

/// The policy of a chunk cache unless the configuration says otherwise.
pub fn default_chunk_cache_policy() -> (policy: CachePolicy)
    ensures
        policy == CachePolicy::Slru,
{
    CachePolicy::Slru
}

/// The bit pattern of the protected fraction of a chunk cache unless the configuration says
/// otherwise: four fifths.
pub fn default_protected_fraction() -> (bits: u64)
    ensures
        bits == 0x3fe9_9999_9999_999a,
        is_fraction(bits),
{
    0x3fe9_9999_9999_999a
}

/// The kinds of object storage that a repository can be in.
#[derive(Clone, Copy, Debug, PartialEq, Eq, Structural)]
pub enum Backend {
    File,
    S3,
    Gcs,
}

/// The kind of storage that the scheme of a URI names.
pub open spec fn backend_of(scheme: Seq<char>) -> Option<Backend> {
    if scheme == "file"@ {
        Some(Backend::File)
    } else if scheme == "s3"@ {
        Some(Backend::S3)
    } else if scheme == "gs"@ || scheme == "gcs"@ {
        Some(Backend::Gcs)
    } else {
        None
    }
}

/// The kind of storage that the scheme of a URI names.
pub(crate) fn backend(scheme: &str) -> (result: Option<Backend>)
    ensures
        result == backend_of(scheme@),
{
    if same(scheme, "file") {
        Some(Backend::File)
    } else if same(scheme, "s3") {
        Some(Backend::S3)
    } else if same(scheme, "gs") || same(scheme, "gcs") {
        Some(Backend::Gcs)
    } else {
        None
    }
}

/// What is wrong with the repository at a position, if anything is.
pub open spec fn repository_problem(
    repositories: Seq<ThanosRepositoryConfig>,
    position: int,
) -> Option<ConfigError> {
    let repository = repositories[position];
    if trimmed(repository.name@).len() == 0 {
        Some(ConfigError::EmptyRepositoryName(position as usize))
    } else if trimmed(repository.uri@).len() == 0 {
        Some(ConfigError::EmptyRepositoryUri(position as usize))
    } else if exists|i: int| 0 <= i < position && (#[trigger] repositories[i]).name@
        == repository.name@ {
        Some(ConfigError::DuplicateRepositoryName(position as usize))
    } else {
        match split_at_first(repository.uri@, "://"@) {
            None => Some(ConfigError::MissingScheme(position as usize)),
            Some((scheme, location)) => match backend_of(scheme) {
                None => Some(ConfigError::UnsupportedScheme(position as usize)),
                Some(backend) => {
                    let fits = match backend {
                        Backend::File => repository.s3 is None && repository.gcs is None,
                        Backend::S3 => repository.gcs is None,
                        Backend::Gcs => repository.s3 is None,
                    };
                    if fits {
                        None
                    } else {
                        Some(ConfigError::WrongBackend(position as usize))
                    }
                },
            },
        }
    }
}

/// What is wrong with the first repository from a position on that something is wrong with.
pub open spec fn repositories_problem(
    repositories: Seq<ThanosRepositoryConfig>,
    position: int,
) -> Option<ConfigError>
    decreases repositories.len() - position,
{
    if position < 0 || position >= repositories.len() {
        None
    } else {
        match repository_problem(repositories, position) {
            Some(error) => Some(error),
            None => repositories_problem(repositories, position + 1),
        }
    }
}

fn validate_repository(repositories: &Vec<ThanosRepositoryConfig>, position: usize) -> (result:
    Result<(), ConfigError>)
    requires
        position < repositories.len(),
    ensures
        match result {
            Ok(_) => repository_problem(repositories@, position as int) is None,
            Err(error) => repository_problem(repositories@, position as int) == Some(error),
        },
{
    let repository = &repositories[position];
    if trim(repository.name.as_str()).is_empty() {
        return Err(ConfigError::EmptyRepositoryName(position));
    }
    if trim(repository.uri.as_str()).is_empty() {
        return Err(ConfigError::EmptyRepositoryUri(position));
    }
    let mut i: usize = 0;
    while i < position
        invariant
            i <= position < repositories.len(),
            *repository == repositories@[position as int],
            trimmed(repository.name@).len() != 0,
            trimmed(repository.uri@).len() != 0,
            forall|k: int|
                0 <= k < i ==> (#[trigger] repositories@[k]).name@ != repository.name@,
        decreases position - i,
    {
        if same(repositories[i].name.as_str(), repository.name.as_str()) {
            assert(repositories@[i as int].name@ == repository.name@);
            return Err(ConfigError::DuplicateRepositoryName(position));
        }
        i = i + 1;
    }
    let scheme = match split_once(repository.uri.as_str(), "://") {
        Some((scheme, _)) => scheme,
        None => {
            return Err(ConfigError::MissingScheme(position));
        },
    };
    let fits: bool = match backend(scheme) {
        None => {
            return Err(ConfigError::UnsupportedScheme(position));
        },
        Some(Backend::File) => repository.s3.is_none() && repository.gcs.is_none(),
        Some(Backend::S3) => repository.gcs.is_none(),
        Some(Backend::Gcs) => repository.s3.is_none(),
    };
    if fits {
        Ok(())
    } else {
        Err(ConfigError::WrongBackend(position))
    }
}

impl ReaderConfig {
    /// What is wrong with the configuration, if anything is. Whether the two addresses can be
    /// listened on is given.
    pub open spec fn problem(&self, listen_ok: bool, metrics_ok: bool) -> Option<ConfigError> {
        if !listen_ok {
            Some(ConfigError::InvalidListenAddress)
        } else if !metrics_ok {
            Some(ConfigError::InvalidMetricsListenAddress)
        } else if trimmed(self.index_cache_location@).len() == 0 {
            Some(ConfigError::EmptyIndexCacheLocation)
        } else if self.repositories@.len() == 0 {
            Some(ConfigError::NoRepositories)
        } else {
            match self.storage.problem() {
                Some(error) => Some(error),
                None => repositories_problem(self.repositories@, 0),
            }
        }
    }

    /// Checks the configuration. Whether the two listen addresses are addresses is given.
    pub fn validate(&self, listen_ok: bool, metrics_ok: bool) -> (result: Result<(), ConfigError>)
        ensures
            match result {
                Ok(_) => self.problem(listen_ok, metrics_ok) is None,
                Err(error) => self.problem(listen_ok, metrics_ok) == Some(error),
            },
    {
        if !listen_ok {
            return Err(ConfigError::InvalidListenAddress);
        }
        if !metrics_ok {
            return Err(ConfigError::InvalidMetricsListenAddress);
        }
        if trim(self.index_cache_location.as_str()).is_empty() {
            return Err(ConfigError::EmptyIndexCacheLocation);
        }
        if self.repositories.len() == 0 {
            return Err(ConfigError::NoRepositories);
        }
        self.storage.validate()?;
        let mut position: usize = 0;
        while position < self.repositories.len()
            invariant
                position <= self.repositories.len(),
                self.problem(listen_ok, metrics_ok) == repositories_problem(
                    self.repositories@,
                    position as int,
                ),
            decreases self.repositories.len() - position,
        {
            validate_repository(&self.repositories, position)?;
            position = position + 1;
        }
        Ok(())
    }
}

proof fn lemma_accepted_from(repositories: Seq<ThanosRepositoryConfig>, position: int, i: int)
    requires
        repositories_problem(repositories, position) is None,
        0 <= position <= i < repositories.len(),
    ensures
        repository_problem(repositories, i) is None,
    decreases i - position,
{
    if position < i {
        lemma_accepted_from(repositories, position + 1, i);
    }
}

/// In a configuration that is accepted no two repositories have the same name.
pub proof fn law_repository_names_are_unique(
    config: ReaderConfig,
    listen_ok: bool,
    metrics_ok: bool,
    i: int,
    j: int,
)
    requires
        config.problem(listen_ok, metrics_ok) is None,
        0 <= i < j < config.repositories@.len(),
    ensures
        config.repositories@[i].name@ != config.repositories@[j].name@,
{
    lemma_accepted_from(config.repositories@, 0, j);
}

/// In a configuration that is accepted every repository is in storage of a known kind, and has
/// no options for storage of another kind.
pub proof fn law_repository_options_fit(
    config: ReaderConfig,
    listen_ok: bool,
    metrics_ok: bool,
    i: int,
)
    requires
        config.problem(listen_ok, metrics_ok) is None,
        0 <= i < config.repositories@.len(),
    ensures
        split_at_first(config.repositories@[i].uri@, "://"@) matches Some((scheme, location)) && (
        match backend_of(scheme) {
            Some(Backend::File) => config.repositories@[i].s3 is None
                && config.repositories@[i].gcs is None,
            Some(Backend::S3) => config.repositories@[i].gcs is None,
            Some(Backend::Gcs) => config.repositories@[i].s3 is None,
            None => false,
        }),
{
    lemma_accepted_from(config.repositories@, 0, i);
}

/// A cache whose settings are accepted holds at least one page, and the size of its pages is a
/// power of two.
pub proof fn law_cache_holds_a_page(cache: ChunkCacheConfig)
    requires
        cache.problem() is None,
    ensures
        size_bytes(cache.page_size@, SizeSetting::CachePageSize) matches Ok(page) && size_bytes(
            cache.max_size@,
            SizeSetting::CacheMaxSize,
        ) matches Ok(max) && 0 < page <= max && is_power_of_two(page),
{
    lemma_size_not_negative(cache.page_size@, SizeSetting::CachePageSize);
}

proof fn lemma_size_not_negative(text: Seq<char>, setting: SizeSetting)
    ensures
        size_bytes(text, setting) matches Ok(bytes) ==> bytes >= 0,
{
    lemma_number_not_negative();
}

/// A size is its number times the bytes of its suffix: 1024 for each step from `B` over `KiB`, `MiB`
/// and `GiB` to `TiB`.
#[verifier::spinoff_prover]
#[verifier::rlimit(60)]
pub proof fn law_sizes_count_in_steps_of_1024(
    digits: Seq<char>,
    suffix: Seq<char>,
    steps: int,
    setting: SizeSetting,
)
    requires
        steps == 0 ==> suffix == "B"@,
        steps == 1 ==> suffix == "KiB"@,
        steps == 2 ==> suffix == "MiB"@,
        steps == 3 ==> suffix == "GiB"@,
        steps == 4 ==> suffix == "TiB"@,
        0 <= steps <= 4,
        trimmed(digits + suffix) == digits + suffix,
        number_text(trimmed(digits)) is Some,
        digits.len() > 0 ==> digits.last() != 'i',
    ensures
        ({
            let number = number_text(trimmed(digits))->Some_0;
            let bytes = number * (if steps == 0 {
                1int
            } else if steps == 1 {
                1024int
            } else if steps == 2 {
                1024int * 1024
            } else if steps == 3 {
                1024int * 1024 * 1024
            } else {
                1024int * 1024 * 1024 * 1024
            });
            size_bytes(digits + suffix, setting) == (if bytes <= u64::MAX {
                Ok::<int, ConfigError>(bytes)
            } else {
                Err(ConfigError::SizeOverflow(setting))
            })
        }),
{
    reveal_strlit("B");
    reveal_strlit("KiB");
    reveal_strlit("MiB");
    reveal_strlit("GiB");
    reveal_strlit("TiB");
    let text = digits + suffix;
    let length = text.len() as int;
    assert(text.take(length - suffix.len()) =~= digits);
    assert forall|i: int| 0 <= i < suffix.len() implies text[digits.len() + i] == suffix[i] by {
    }
    if steps == 0 {
        assert(text[length - 1] == 'B');
        if length >= 2 {
            assert(text[length - 2] == digits.last());
        }
        lemma_other_suffix(text, "KiB"@);
        lemma_other_suffix(text, "MiB"@);
        lemma_other_suffix(text, "GiB"@);
        lemma_other_suffix(text, "TiB"@);
    } else {
        assert(suffix[0] == text[length - 3] && suffix[1] == text[length - 2] && suffix[2]
            == text[length - 1]);
        lemma_other_suffix(text, "KiB"@);
        lemma_other_suffix(text, "MiB"@);
        lemma_other_suffix(text, "GiB"@);
        lemma_other_suffix(text, "TiB"@);
    }
    assert(has_suffix(text, suffix)) by {
        assert forall|i: int| 0 <= i < suffix.len() implies text[length - suffix.len() + i]
            == suffix[i] by {
        }
        assert(text.subrange(length - suffix.len(), length) =~= suffix);
    }
}

proof fn lemma_other_suffix(text: Seq<char>, suffix: Seq<char>)
    requires
        suffix.len() == 3,
    ensures
        has_suffix(text, suffix) ==> text.len() >= 3 && text[text.len() - 3] == suffix[0]
            && text[text.len() - 2] == suffix[1] && text[text.len() - 1] == suffix[2],
{
    if has_suffix(text, suffix) {
        let start = text.len() - 3;
        assert(text.subrange(start, start + 3) =~= suffix);
        assert(text.subrange(start, start + 3)[0] == text[start]);
        assert(text.subrange(start, start + 3)[1] == text[start + 1]);
        assert(text.subrange(start, start + 3)[2] == text[start + 2]);
    }
}

/// The scheme of a URI names the storage: `file` the file system, `s3` S3, and `gs` or `gcs` Google
/// Cloud Storage; no other scheme is known.
pub proof fn law_schemes_name_storage(scheme: Seq<char>)
    ensures
        backend_of(scheme) == Some(Backend::File) <==> scheme == "file"@,
        backend_of(scheme) == Some(Backend::S3) <==> scheme == "s3"@,
        backend_of(scheme) == Some(Backend::Gcs) <==> scheme == "gs"@ || scheme == "gcs"@,
        backend_of(scheme) is None <==> scheme != "file"@ && scheme != "s3"@ && scheme != "gs"@
            && scheme != "gcs"@,
{
    reveal_strlit("file");
    reveal_strlit("s3");
    reveal_strlit("gs");
    reveal_strlit("gcs");
    assert("s3"@[0] != "gs"@[0]);
    assert("file"@.len() == 4 && "s3"@.len() == 2 && "gs"@.len() == 2 && "gcs"@.len() == 3);
}

/// A number is a power of two exactly if it is two to some power.
pub proof fn law_powers_of_two(number: int, exponent: nat)
    ensures
        is_power_of_two(pow2(exponent) as int),
        is_power_of_two(number) ==> exists|e: nat| number == #[trigger] pow2(e),
{
    lemma_power_is_one(exponent);
    if is_power_of_two(number) {
        lemma_is_a_power(number);
    }
}

proof fn lemma_power_is_one(exponent: nat)
    ensures
        is_power_of_two(pow2(exponent) as int),
    decreases exponent,
{
    if exponent == 0 {
        vstd::arithmetic::power2::lemma2_to64();
    } else {
        lemma_power_is_one((exponent - 1) as nat);
        vstd::arithmetic::power2::lemma_pow2_unfold(exponent);
        vstd::arithmetic::power2::lemma_pow2_pos((exponent - 1) as nat);
        assert(pow2(exponent) as int / 2 == pow2((exponent - 1) as nat));
    }
}

proof fn lemma_is_a_power(number: int)
    requires
        is_power_of_two(number),
    ensures
        exists|e: nat| number == #[trigger] pow2(e),
    decreases number,
{
    if number == 1 {
        vstd::arithmetic::power2::lemma2_to64();
        assert(number == pow2(0));
    } else {
        lemma_is_a_power(number / 2);
        let e = choose|e: nat| number / 2 == #[trigger] pow2(e);
        vstd::arithmetic::power2::lemma_pow2_unfold(e + 1);
        assert(number == pow2(e + 1));
    }
}

/// The settings of a cache are accepted exactly if both sizes can be read, a page is not empty and not
/// larger than the cache, its size is a power of two, and the protected part is a fraction.
pub proof fn law_cache_settings_are_checked(cache: ChunkCacheConfig)
    ensures
        cache.problem() is None <==> {
            &&& size_bytes(cache.max_size@, SizeSetting::CacheMaxSize) matches Ok(max)
            &&& size_bytes(cache.page_size@, SizeSetting::CachePageSize) matches Ok(page)
            &&& 0 < page <= max
            &&& exists|e: nat| page == #[trigger] pow2(e)
            &&& cache.protected_fraction <= 0x3ff0_0000_0000_0000 || cache.protected_fraction
                == 0x8000_0000_0000_0000
        },
{
    lemma_size_not_negative(cache.page_size@, SizeSetting::CachePageSize);
    if let Ok(page) = size_bytes(cache.page_size@, SizeSetting::CachePageSize) {
        if is_power_of_two(page) {
            law_powers_of_two(page, 0);
        }
        if exists|e: nat| page == #[trigger] pow2(e) {
            let e = choose|e: nat| page == #[trigger] pow2(e);
            law_powers_of_two(page, e);
        }
    }
}

/// The limits of the storage are accepted exactly if requests have time, every kind of work may go on
/// at least once at a time, bulk reads ask for something, and the settings of the cache are accepted.
pub proof fn law_storage_limits_are_checked(storage: StorageConfig)
    ensures
        storage.problem() is None <==> {
            &&& setting_duration(storage.request_timeout@) matches Ok((seconds, nanoseconds))
            &&& seconds > 0 || nanoseconds > 0
            &&& storage.max_concurrent_requests > 0
            &&& storage.bulk_read_concurrency > 0
            &&& storage.max_concurrent_chunk_reads > 0
            &&& storage.index_build_concurrency > 0
            &&& storage.metadata_read_concurrency > 0
            &&& size_bytes(
                storage.bulk_read_chunk_size@,
                SizeSetting::BulkReadChunkSize,
            ) matches Ok(bytes)
            &&& bytes > 0
            &&& storage.chunk_cache matches Some(cache) ==> cache.problem() is None
        },
{
    lemma_size_not_negative(storage.bulk_read_chunk_size@, SizeSetting::BulkReadChunkSize);
}

proof fn lemma_problem_from(repositories: Seq<ThanosRepositoryConfig>, position: int)
    requires
        0 <= position <= repositories.len(),
    ensures
        repositories_problem(repositories, position) is None <==> forall|i: int|
            position <= i < repositories.len() ==> #[trigger] repository_problem(repositories, i)
                is None,
    decreases repositories.len() - position,
{
    if position < repositories.len() {
        lemma_problem_from(repositories, position + 1);
        if repositories_problem(repositories, position) is None {
            assert forall|i: int| position <= i < repositories.len() implies #[trigger] repository_problem(
                repositories,
                i,
            ) is None by {
                if i > position {
                    assert(repositories_problem(repositories, position + 1) is None);
                }
            }
        }
    }
}

/// A configuration is accepted exactly if both addresses can be listened on, it says where indexes are
/// kept, it has repositories, the limits of the storage are accepted, and so is every repository.
pub proof fn law_configurations_are_checked(
    config: ReaderConfig,
    listen_ok: bool,
    metrics_ok: bool,
)
    ensures
        config.problem(listen_ok, metrics_ok) is None <==> {
            &&& listen_ok
            &&& metrics_ok
            &&& trimmed(config.index_cache_location@).len() > 0
            &&& config.repositories@.len() > 0
            &&& config.storage.problem() is None
            &&& forall|i: int|
                0 <= i < config.repositories@.len() ==> #[trigger] repository_problem(
                    config.repositories@,
                    i,
                ) is None
        },
{
    lemma_problem_from(config.repositories@, 0);
}

/// A repository is accepted exactly if it has a name and a URI, no repository before it has the same
/// name, its URI has a known scheme, and it has options for no other storage.
pub proof fn law_repositories_are_checked(
    repositories: Seq<ThanosRepositoryConfig>,
    position: int,
)
    requires
        0 <= position < repositories.len(),
    ensures
        repository_problem(repositories, position) is None <==> {
            let repository = repositories[position];
            &&& trimmed(repository.name@).len() > 0
            &&& trimmed(repository.uri@).len() > 0
            &&& forall|i: int|
                0 <= i < position ==> (#[trigger] repositories[i]).name@ != repository.name@
            &&& split_at_first(repository.uri@, "://"@) matches Some((scheme, location))
            &&& scheme == "file"@ && repository.s3 is None && repository.gcs is None || scheme
                == "s3"@ && repository.gcs is None || (scheme == "gs"@ || scheme == "gcs"@)
                && repository.s3 is None
        },
{
    if let Some((scheme, location)) = split_at_first(repositories[position].uri@, "://"@) {
        law_schemes_name_storage(scheme);
    }
}

/// Time units are built on each other: a thousand of the smaller ones make the next one up to the
/// second, sixty seconds a minute, sixty minutes an hour, and so on. A year has 365.25 days and a
/// month 30.44.
#[verifier::spinoff_prover]
#[verifier::rlimit(60)]
pub proof fn law_time_units_are_built_on_each_other(text: Seq<char>, position: int)
    requires
        0 <= position < text.len(),
    ensures
        ({
            let unit = unit_nanoseconds(text, position);
            let second = 1_000_000_000int;
            let day = 24 * 60 * 60 * second;
            let rest = text.skip(position);
            &&& text[position] == 'n' ==> unit == 1
            &&& text[position] == 'u' || text[position] == '\u{b5}' ==> unit * 1_000_000 == second
            &&& has_prefix(rest, "ms"@) || has_prefix(rest, "mil"@) ==> unit * 1_000 == second
            &&& text[position] == 's' ==> unit == second
            &&& has_prefix(rest, "min"@) || rest == "m"@ ==> unit == 60 * second
            &&& text[position] == 'h' ==> unit == 60 * 60 * second
            &&& text[position] == 'd' ==> unit == day
            &&& text[position] == 'w' ==> unit == 7 * day
            &&& text[position] == 'M' || has_prefix(rest, "mo"@) ==> unit * 100 == 3044 * day
            &&& text[position] == 'y' ==> unit * 4 == 1461 * day
        }),
{
    reveal_strlit("ms");
    reveal_strlit("mil");
    reveal_strlit("min");
    reveal_strlit("m");
    reveal_strlit("mo");
    let rest = text.skip(position);
    assert(rest[0] == text[position]);
    if rest.len() >= 2 {
        assert(rest[1] == text[position + 1]);
        assert(rest.subrange(0, 2)[0] == rest[0]);
        assert(rest.subrange(0, 2)[1] == rest[1]);
    }
    if rest.len() >= 3 {
        assert(rest[2] == text[position + 2]);
        assert(rest.subrange(0, 3)[0] == rest[0]);
        assert(rest.subrange(0, 3)[1] == rest[1]);
        assert(rest.subrange(0, 3)[2] == rest[2]);
    }
}

#[verifier::spinoff_prover]
#[verifier::rlimit(60)]
proof fn lemma_number_before_unit(number: int, unit: Seq<char>, position: int)
    requires
        0 <= number <= u64::MAX,
        0 <= position <= decimal_text(number).len(),
    ensures
        digits_value(decimal_text(number).take(position)) matches Some(value) && nanoseconds_from(
            decimal_text(number) + unit,
            position,
            value,
            None,
            false,
            0,
        ) == nanoseconds_from(
            decimal_text(number) + unit,
            decimal_text(number).len() as int,
            number,
            None,
            false,
            0,
        ),
        digits_value(decimal_text(number).take(position))->0 <= number,
    decreases decimal_text(number).len() - position,
{
    let digits = decimal_text(number);
    let text = digits + unit;
    law_written_numbers_are_read(number);
    law_padded_numbers_are_read(number, digits.len() as int);
    assert(padded_text(number, digits.len() as int) =~= digits);
    if position < digits.len() {
        lemma_number_before_unit(number, unit, position + 1);
        let front = digits.take(position + 1);
        assert(front.drop_last() =~= digits.take(position));
        assert(front.last() == text[position]);
        lemma_number_not_negative();
        lemma_digits_not_negative(digits.take(position));
    } else {
        assert(digits.take(position) =~= digits);
    }
}

proof fn lemma_letters_add_nothing(text: Seq<char>, position: int, total: int)
    requires
        0 <= position <= text.len(),
        forall|i: int| position <= i < text.len() ==> is_unit_letter(#[trigger] text[i]),
    ensures
        nanoseconds_from(text, position, 0, None, true, total) == Some(total),
    decreases text.len() - position,
{
    if position < text.len() {
        assert(is_unit_letter(text[position]));
        lemma_letters_add_nothing(text, position + 1, total);
    }
}

/// A number with a time unit behind it spells so many of these units out, and is too long exactly if
/// 64 bits of seconds do not hold them.
#[verifier::spinoff_prover]
#[verifier::rlimit(60)]
pub proof fn law_durations_count_their_units(number: int, unit: Seq<char>)
    requires
        0 <= number <= u64::MAX,
        unit.len() > 0,
        forall|i: int| 0 <= i < unit.len() ==> is_unit_letter(#[trigger] unit[i]),
    ensures
        is_too_long(decimal_text(number) + unit) <==> number * unit_nanoseconds(unit, 0)
            >= 0x1_0000_0000_0000_0000 * 1_000_000_000,
{
    let digits = decimal_text(number);
    let text = digits + unit;
    let at = digits.len() as int;
    lemma_number_before_unit(number, unit, 0);
    assert(digits.take(0) =~= Seq::<char>::empty());
    assert(digits_value(digits.take(0)) == Some(0int));
    assert(text[at] == unit[0]);
    assert(is_unit_letter(unit[0]));
    assert forall|i: int| at + 1 <= i < text.len() implies is_unit_letter(#[trigger] text[i]) by {
        assert(text[i] == unit[i - at]);
    }
    if unit.len() > 1 {
        assert(text[at + 1] == unit[1]);
    }
    if unit.len() > 2 {
        assert(text[at + 2] == unit[2]);
    }
    assert(unit_nanoseconds(text, at) == unit_nanoseconds(unit, 0));
    lemma_letters_add_nothing(text, at + 1, number * unit_nanoseconds(unit, 0));
}

/// What is reported of the cache is so.
proof fn lemma_cache_problem(cache: ChunkCacheConfig, error: ConfigError)
    requires
        cache.problem() == Some(error),
    ensures
        ({
            let max = size_bytes(cache.max_size@, SizeSetting::CacheMaxSize);
            let page = size_bytes(cache.page_size@, SizeSetting::CachePageSize);
            match error {
                ConfigError::CachePageSizeOutOfRange => max is Ok && page is Ok && (page->Ok_0 == 0
                    || page->Ok_0 > max->Ok_0),
                ConfigError::CachePageSizeNotPowerOfTwo => page is Ok && !is_power_of_two(
                    page->Ok_0,
                ),
                ConfigError::ProtectedFractionOutOfRange => !is_fraction(cache.protected_fraction),
                _ => max == Err::<int, ConfigError>(error) || page == Err::<int, ConfigError>(
                    error,
                ),
            }
        }),
{
    lemma_size_not_negative(cache.max_size@, SizeSetting::CacheMaxSize);
    lemma_size_not_negative(cache.page_size@, SizeSetting::CachePageSize);
}

/// What is reported of the limits of the storage is so: a timeout that is zero or no duration, work that
/// may never go on, a size that cannot be read or is zero, or a cache whose settings do not fit.
pub proof fn law_reported_storage_problems_are_there(storage: StorageConfig, error: ConfigError)
    requires
        storage.problem() == Some(error),
    ensures
        match error {
            ConfigError::ZeroRequestTimeout => setting_duration(storage.request_timeout@) == Ok::<
                (u64, u32),
                ConfigError,
            >((0, 0)),
            ConfigError::ZeroConcurrency => storage.max_concurrent_requests == 0
                || storage.bulk_read_concurrency == 0 || storage.max_concurrent_chunk_reads == 0
                || storage.index_build_concurrency == 0 || storage.metadata_read_concurrency == 0,
            ConfigError::ZeroBulkReadChunkSize => size_bytes(
                storage.bulk_read_chunk_size@,
                SizeSetting::BulkReadChunkSize,
            ) == Ok::<int, ConfigError>(0),
            ConfigError::CachePageSizeOutOfRange => storage.chunk_cache matches Some(cache)
                && size_bytes(cache.max_size@, SizeSetting::CacheMaxSize) matches Ok(max)
                && size_bytes(cache.page_size@, SizeSetting::CachePageSize) matches Ok(page) && (page
                == 0 || page > max),
            ConfigError::CachePageSizeNotPowerOfTwo => storage.chunk_cache matches Some(cache)
                && size_bytes(cache.page_size@, SizeSetting::CachePageSize) matches Ok(page)
                && forall|e: nat| page != #[trigger] pow2(e),
            ConfigError::ProtectedFractionOutOfRange => storage.chunk_cache matches Some(cache)
                && cache.protected_fraction > 0x3ff0_0000_0000_0000 && cache.protected_fraction
                != 0x8000_0000_0000_0000,
            _ => {
                ||| setting_duration(storage.request_timeout@) == Err::<(u64, u32), ConfigError>(
                    error,
                )
                ||| size_bytes(storage.bulk_read_chunk_size@, SizeSetting::BulkReadChunkSize)
                    == Err::<int, ConfigError>(error)
                ||| storage.chunk_cache matches Some(cache) && (size_bytes(
                    cache.max_size@,
                    SizeSetting::CacheMaxSize,
                ) == Err::<int, ConfigError>(error) || size_bytes(
                    cache.page_size@,
                    SizeSetting::CachePageSize,
                ) == Err::<int, ConfigError>(error))
            },
        },
{
    if let Some(cache) = storage.chunk_cache {
        if cache.problem() == Some(error) {
            lemma_cache_problem(cache, error);
        }
        if let Ok(page) = size_bytes(cache.page_size@, SizeSetting::CachePageSize) {
            if !is_power_of_two(page) {
                assert forall|e: nat| page != #[trigger] pow2(e) by {
                    law_powers_of_two(page, e);
                }
            }
        }
    }
}

/// What is reported of a repository is so: the repository at the position has no name, no URI, the name
/// of one before it, no scheme, an unknown scheme, or options for another storage.
pub proof fn law_reported_repository_problems_are_there(
    repositories: Seq<ThanosRepositoryConfig>,
    position: int,
)
    requires
        0 <= position < repositories.len() <= usize::MAX,
    ensures
        ({
            let repository = repositories[position];
            let uri = split_at_first(repository.uri@, "://"@);
            let (scheme, location) = uri->Some_0;
            match repository_problem(repositories, position) {
                None => true,
                Some(ConfigError::EmptyRepositoryName(at)) => at == position && trimmed(
                    repository.name@,
                ).len() == 0,
                Some(ConfigError::EmptyRepositoryUri(at)) => at == position && trimmed(
                    repository.uri@,
                ).len() == 0,
                Some(ConfigError::DuplicateRepositoryName(at)) => at == position && exists|i: int|
                    0 <= i < position && (#[trigger] repositories[i]).name@ == repository.name@,
                Some(ConfigError::MissingScheme(at)) => at == position && uri is None,
                Some(ConfigError::UnsupportedScheme(at)) => at == position && uri is Some
                    && scheme != "file"@ && scheme != "s3"@ && scheme != "gs"@ && scheme
                    != "gcs"@,
                Some(ConfigError::WrongBackend(at)) => at == position && uri is Some && (
                repository.s3 is Some && scheme != "s3"@ || repository.gcs is Some && scheme
                    != "gs"@ && scheme != "gcs"@),
                _ => false,
            }
        }),
{
    if let Some((scheme, location)) = split_at_first(repositories[position].uri@, "://"@) {
        law_schemes_name_storage(scheme);
    }
}

/// The repositories are reported on from the first one on: where one is reported, nothing is wrong with
/// those before it.
pub proof fn law_the_first_repository_problem_is_reported(
    repositories: Seq<ThanosRepositoryConfig>,
    first: int,
)
    requires
        0 <= first < repositories.len(),
        repository_problem(repositories, first) is Some,
        forall|i: int|
            0 <= i < first ==> #[trigger] repository_problem(repositories, i) is None,
    ensures
        repositories_problem(repositories, 0) == repository_problem(repositories, first),
{
    lemma_skip_accepted(repositories, 0, first);
}

proof fn lemma_skip_accepted(
    repositories: Seq<ThanosRepositoryConfig>,
    position: int,
    first: int,
)
    requires
        0 <= position <= first < repositories.len(),
        repository_problem(repositories, first) is Some,
        forall|i: int|
            0 <= i < first ==> #[trigger] repository_problem(repositories, i) is None,
    ensures
        repositories_problem(repositories, position) == repository_problem(repositories, first),
    decreases first - position,
{
    if position < first {
        assert(repository_problem(repositories, position) is None);
        lemma_skip_accepted(repositories, position + 1, first);
    }
}

/// What is reported of a configuration as a whole is so, and the addresses are looked at first.
pub proof fn law_reported_configuration_problems_are_there(
    config: ReaderConfig,
    listen_ok: bool,
    metrics_ok: bool,
)
    ensures
        !listen_ok ==> config.problem(listen_ok, metrics_ok) == Some(
            ConfigError::InvalidListenAddress,
        ),
        listen_ok && !metrics_ok ==> config.problem(listen_ok, metrics_ok) == Some(
            ConfigError::InvalidMetricsListenAddress,
        ),
        listen_ok && metrics_ok && trimmed(config.index_cache_location@).len() == 0
            ==> config.problem(listen_ok, metrics_ok) == Some(ConfigError::EmptyIndexCacheLocation),
        listen_ok && metrics_ok && trimmed(config.index_cache_location@).len() > 0
            && config.repositories@.len() == 0 ==> config.problem(listen_ok, metrics_ok) == Some(
            ConfigError::NoRepositories,
        ),
        listen_ok && metrics_ok && trimmed(config.index_cache_location@).len() > 0
            && config.repositories@.len() > 0 ==> config.problem(listen_ok, metrics_ok) == (
        if config.storage.problem() is Some {
            config.storage.problem()
        } else {
            repositories_problem(config.repositories@, 0)
        }),
{
}

/// A size without the suffix of a size is refused for that.
pub proof fn law_sizes_need_a_suffix(text: Seq<char>, setting: SizeSetting)
    requires
        trimmed(text).len() > 0 ==> trimmed(text).last() != 'B',
    ensures
        size_bytes(text, setting) == Err::<int, ConfigError>(
            ConfigError::MissingSizeSuffix(setting),
        ),
{
    reveal_strlit("B");
    reveal_strlit("KiB");
    reveal_strlit("MiB");
    reveal_strlit("GiB");
    reveal_strlit("TiB");
    let inner = trimmed(text);
    lemma_other_suffix(inner, "KiB"@);
    lemma_other_suffix(inner, "MiB"@);
    lemma_other_suffix(inner, "GiB"@);
    lemma_other_suffix(inner, "TiB"@);
    if has_suffix(inner, "B"@) {
        let start = inner.len() - 1;
        assert(inner.subrange(start, start + 1)[0] == inner[start]);
    }
}

} // verus!
