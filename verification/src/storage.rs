//! Object storage: where repositories are, how byte ranges are cut into pages, and where pages
//! are kept.

use vstd::prelude::*;
use vstd::utf8::encode_utf8;
#[allow(unused_imports)]
use vstd::utf8::{decode_utf8, valid_utf8};

#[allow(unused_imports)]
use crate::config::{
    backend_of, law_schemes_name_storage, setting_duration, size_bytes, SizeSetting,
};
use crate::config::{
    backend, Backend, ConfigError, ReaderConfig, StorageConfig, ThanosRepositoryConfig,
};
#[allow(unused_imports)]
use crate::digest::{be_bytes, hex_text, law_bytes_are_written_in_two_digits, sha256};
use crate::digest::{hex, push_all, push_be_bytes, sha256_digest};
use crate::hll::eight_at;
#[allow(unused_imports)]
use crate::hll::{be_value, lemma_eight_bytes};
#[allow(unused_imports)]
use crate::page_cache::KeyModel;
use crate::page_cache::PageKey;
use crate::sorted_map::SortedMap;
#[allow(unused_imports)]
use crate::text::{
    decimal_text, find_last, has_prefix, has_suffix, law_both_ends_are_trimmed,
    law_texts_are_split_at_the_first_separator, occurs_at, split_at_first, split_at_last,
    trim_back, trim_front,
};
use crate::text::{
    characters, decimal, ends_with, joined, rsplit_once, split_once, starts_with, utf8_text,
};

verus! {

/// Why a storage operation was refused.
#[derive(Clone, Copy, Debug, PartialEq, Eq, Structural)]
pub enum StorageError {
    MissingScheme,
    UnsupportedScheme,
    EmptyBucket,
    UnknownRepository,
    PageBehindObject,
    UnexpectedEnd,
    Config(ConfigError),
}

/// A path with a name behind it. A name that is a path from the root on stands for itself.
pub open spec fn path_joined(path: Seq<char>, name: Seq<char>) -> Seq<char> {
    if name.len() > 0 && name[0] == '/' {
        name
    } else if path.len() == 0 || path.last() == '/' {
        path + name
    } else {
        path.push('/') + name
    }
}

/// Puts a name behind a path.
pub(crate) fn join_path(path: &str, name: &str) -> (result: String)
    ensures
        result@ == path_joined(path@, name@),
{
    let before = characters(path);
    let behind = characters(name);
    if behind.len() > 0 && behind[0] == '/' {
        return name.to_owned();
    }
    if before.len() == 0 || before[before.len() - 1] == '/' {
        return joined(path, name);
    }
    proof {
        reveal_strlit("/");
    }
    let mut result = joined(path, "/");
    assert(result@ =~= path@.push('/'));
    result.append(name);
    result
}

/// A text without the slashes at its start and at its end.
pub open spec fn without_slashes(text: Seq<char>) -> Seq<char> {
    trim_back(trim_front(text, |c: char| c == '/'), |c: char| c == '/')
}

fn trim_slashes<'a>(text: &'a str) -> (result: &'a str)
    ensures
        result@ == without_slashes(text@),
{
    let all = characters(text);
    let ghost slash = |c: char| c == '/';
    let mut start: usize = 0;
    assert(text@.skip(0) =~= text@);
    while start < all.len() && all[start] == '/'
        invariant
            start <= all.len(),
            all@ == text@,
            slash == (|c: char| c == '/'),
            trim_front(text@, slash) == trim_front(text@.skip(start as int), slash),
        decreases all.len() - start,
    {
        assert(text@.skip(start as int)[0] == all@[start as int]);
        assert(text@.skip(start as int).skip(1) =~= text@.skip(start + 1));
        start = start + 1;
    }
    assert(start < all.len() ==> text@.skip(start as int)[0] == all@[start as int]);
    let mut end: usize = all.len();
    let ghost front = text@.skip(start as int);
    assert(text@.subrange(start as int, end as int) =~= front);
    while end > start && all[end - 1] == '/'
        invariant
            start <= end <= all.len(),
            all@ == text@,
            slash == (|c: char| c == '/'),
            trim_back(front, slash) == trim_back(text@.subrange(start as int, end as int), slash),
        decreases end,
    {
        let ghost current = text@.subrange(start as int, end as int);
        assert(current.last() == all@[end - 1]);
        assert(current.drop_last() =~= text@.subrange(start as int, end - 1));
        end = end - 1;
    }
    let result = text.substring_char(start, end);
    assert(end > start ==> result@.last() == all@[end - 1]);
    result
}

/// The bucket and the root inside it that a location names, slashes around the location aside.
pub open spec fn bucket_root(location: Seq<char>) -> Result<
    (Seq<char>, Seq<char>),
    StorageError,
> {
    let inner = without_slashes(location);
    let (bucket, root) = match split_at_first(inner, "/"@) {
        Some(parts) => parts,
        None => (inner, "/"@),
    };
    if bucket.len() == 0 {
        Err(StorageError::EmptyBucket)
    } else {
        Ok((bucket, root))
    }
}

fn bucket_and_root(location: &str) -> (result: Result<(String, String), StorageError>)
    ensures
        match result {
            Ok((bucket, root)) => bucket_root(location@) == Ok::<
                (Seq<char>, Seq<char>),
                StorageError,
            >((bucket@, root@)),
            Err(error) => bucket_root(location@) == Err::<(Seq<char>, Seq<char>), StorageError>(
                error,
            ),
        },
{
    let inner = trim_slashes(location);
    let (bucket, root) = match split_once(inner, "/") {
        Some(parts) => parts,
        None => (inner, "/"),
    };
    if bucket.is_empty() {
        return Err(StorageError::EmptyBucket);
    }
    Ok((bucket.to_owned(), root.to_owned()))
}

/// Where the objects of a repository are, and how they are reached.
pub struct OperatorSettings {
    pub backend: Backend,
    pub bucket: String,
    pub root: String,
    pub region: Option<String>,
    pub endpoint: Option<String>,
    pub virtual_host_style: bool,
    /// The time that a request may take, in seconds and nanoseconds.
    pub timeout: (u64, u32),
    pub max_retries: usize,
    pub max_concurrent_requests: usize,
}

/// An optional text by what it holds.
pub open spec fn text_view(text: Option<String>) -> Option<Seq<char>> {
    match text {
        Some(text) => Some(text@),
        None => None,
    }
}

fn copy_text(text: &Option<String>) -> (copy: Option<String>)
    ensures
        text_view(copy) == text_view(*text),
{
    match text {
        Some(text) => Some(text.clone()),
        None => None,
    }
}

impl OperatorSettings {
    /// The settings are those of a repository: its location is a directory of the file system,
    /// or a bucket with a root inside it, and the options of its own backend and the limits of
    /// the storage hold.
    pub open spec fn serve(
        &self,
        repository: ThanosRepositoryConfig,
        location: Seq<char>,
        storage: StorageConfig,
    ) -> bool {
        &&& setting_duration(storage.request_timeout@) == Ok::<(u64, u32), ConfigError>(
            self.timeout,
        )
        &&& self.max_retries == storage.max_retries
        &&& self.max_concurrent_requests == storage.max_concurrent_requests
        &&& match self.backend {
            Backend::File => self.bucket@.len() == 0 && self.root@ == location,
            _ => bucket_root(location) == Ok::<(Seq<char>, Seq<char>), StorageError>(
                (self.bucket@, self.root@),
            ),
        }
        &&& text_view(self.region) == match (self.backend, repository.s3) {
            (Backend::S3, Some(options)) => text_view(options.region),
            _ => None,
        }
        &&& text_view(self.endpoint) == match (self.backend, repository.s3, repository.gcs) {
            (Backend::S3, Some(options), _) => text_view(options.endpoint),
            (Backend::Gcs, _, Some(options)) => text_view(options.endpoint),
            _ => None,
        }
        &&& self.virtual_host_style == match (self.backend, repository.s3) {
            (Backend::S3, Some(options)) => options.virtual_host_style,
            _ => false,
        }
    }
}

/// Where the objects of a repository are, or why they cannot be reached within the limits of the
/// storage.
pub open spec fn repository_location(uri: Seq<char>, storage: StorageConfig) -> Result<
    (Backend, Seq<char>),
    StorageError,
> {
    match split_at_first(uri, "://"@) {
        None => Err(StorageError::MissingScheme),
        Some((scheme, location)) => match backend_of(scheme) {
            None => Err(StorageError::UnsupportedScheme),
            Some(backend) => if backend != Backend::File && bucket_root(location) is Err {
                Err(StorageError::EmptyBucket)
            } else {
                match setting_duration(storage.request_timeout@) {
                    Err(error) => Err(StorageError::Config(error)),
                    Ok(_) => Ok((backend, location)),
                }
            },
        },
    }
}

/// Finds out where the objects of a repository are, and how they are reached.
pub fn repository_operator(
    repository: &ThanosRepositoryConfig,
    storage: &StorageConfig,
) -> (result: Result<OperatorSettings, StorageError>)
    ensures
        match result {
            Ok(settings) => repository_location(repository.uri@, *storage) matches Ok(
                (backend, location),
            ) && settings.backend == backend && settings.serve(*repository, location, *storage),
            Err(error) => repository_location(repository.uri@, *storage) == Err::<
                (Backend, Seq<char>),
                StorageError,
            >(error),
        },
{
    let (scheme, location) = match split_once(repository.uri.as_str(), "://") {
        Some(parts) => parts,
        None => {
            return Err(StorageError::MissingScheme);
        },
    };
    let backend = match backend(scheme) {
        Some(backend) => backend,
        None => {
            return Err(StorageError::UnsupportedScheme);
        },
    };
    let (bucket, root) = match backend {
        Backend::File => (String::new(), location.to_owned()),
        _ => bucket_and_root(location)?,
    };
    let timeout = match storage.request_timeout_duration() {
        Ok(timeout) => timeout,
        Err(error) => {
            return Err(StorageError::Config(error));
        },
    };
    let mut region: Option<String> = None;
    let mut endpoint: Option<String> = None;
    let mut virtual_host_style: bool = false;
    match backend {
        Backend::File => {},
        Backend::S3 => {
            if let Some(options) = &repository.s3 {
                region = copy_text(&options.region);
                endpoint = copy_text(&options.endpoint);
                virtual_host_style = options.virtual_host_style;
            }
        },
        Backend::Gcs => {
            if let Some(options) = &repository.gcs {
                endpoint = copy_text(&options.endpoint);
            }
        },
    }
    Ok(
        OperatorSettings {
            backend,
            bucket,
            root,
            region,
            endpoint,
            virtual_host_style,
            timeout,
            max_retries: storage.max_retries,
            max_concurrent_requests: storage.max_concurrent_requests,
        },
    )
}

/// The part of a page that a byte range covers: the offset of the page, and the positions in it
/// where the part starts and ends.
#[derive(Clone, Copy, Debug, PartialEq, Eq, Structural)]
pub struct PageSlice {
    pub offset: u64,
    pub start: u64,
    pub end: u64,
}

/// The smaller of two numbers.
pub open spec fn smaller(a: int, b: int) -> int {
    if a < b {
        a
    } else {
        b
    }
}

/// The part of the page at an offset that the range from `start` to `end` covers.
pub open spec fn slice_of(offset: int, start: int, end: int, page_size: int) -> PageSlice {
    PageSlice {
        offset: offset as u64,
        start: (if start > offset {
            start - offset
        } else {
            0
        }) as u64,
        end: (smaller(end, offset + page_size) - offset) as u64,
    }
}

/// The parts of the pages from an offset on that the range from `start` to `end` covers.
pub open spec fn slices_from(offset: int, start: int, end: int, page_size: int) -> Seq<PageSlice>
    decreases
            if offset < end {
                end - offset
            } else {
                0
            },
{
    if page_size <= 0 || offset >= end {
        Seq::empty()
    } else {
        seq![slice_of(offset, start, end, page_size)] + slices_from(
            offset + page_size,
            start,
            end,
            page_size,
        )
    }
}

/// The parts of pages that make up the range from `start` to `end`, in order.
pub open spec fn range_slices(start: int, end: int, page_size: int) -> Seq<PageSlice> {
    slices_from(start / page_size * page_size, start, end, page_size)
}

/// Cuts a byte range into the parts of pages that make it up.
pub fn page_slices(start: u64, end: u64, page_size: u64) -> (slices: Vec<PageSlice>)
    requires
        page_size > 0,
        start < end,
    ensures
        slices@ == range_slices(start as int, end as int, page_size as int),
{
    let mut slices: Vec<PageSlice> = Vec::new();
    proof {
        vstd::arithmetic::div_mod::lemma_fundamental_div_mod(start as int, page_size as int);
        vstd::arithmetic::mul::lemma_mul_is_commutative(
            start as int / page_size as int,
            page_size as int,
        );
        vstd::arithmetic::div_mod::lemma_mod_bound(start as int, page_size as int);
        assert(0 <= start as int / page_size as int * page_size) by (nonlinear_arith)
            requires
                start >= 0,
                page_size > 0,
        ;
    }
    let mut offset: u64 = start / page_size * page_size;
    let ghost all = range_slices(start as int, end as int, page_size as int);
    assert(all =~= slices@ + slices_from(offset as int, start as int, end as int, page_size as int));
    loop
        invariant_except_break
            all == slices@ + slices_from(
                offset as int,
                start as int,
                end as int,
                page_size as int,
            ),
        invariant
            page_size > 0,
            start < end,
            offset < end,
            start < offset + page_size,
        ensures
            all == slices@,
        decreases end - offset,
    {
        let from: u64 = start.saturating_sub(offset);
        let reach: u64 = end - offset;
        let to: u64 = if reach < page_size {
            reach
        } else {
            page_size
        };
        let ghost before = slices@;
        let slice = PageSlice { offset, start: from, end: to };
        assert(slice == slice_of(offset as int, start as int, end as int, page_size as int));
        slices.push(slice);
        proof {
            let rest = slices_from(
                offset + page_size,
                start as int,
                end as int,
                page_size as int,
            );
            assert(before + (seq![slice] + rest) =~= slices@ + rest);
        }
        if reach <= page_size {
            assert(slices@ + Seq::<PageSlice>::empty() =~= slices@);
            break;
        }
        offset = offset + page_size;
    }
    slices
}

/// Appends the part of a page to the bytes of a range. A page that ends too early ends the read.
pub fn append_slice(output: &mut Vec<u8>, page: &[u8], slice: PageSlice) -> (result: Result<
    (),
    StorageError,
>)
    ensures
        match result {
            Ok(_) => {
                &&& slice.start <= slice.end <= page@.len()
                &&& final(output)@ == old(output)@ + page@.subrange(
                    slice.start as int,
                    slice.end as int,
                )
            },
            Err(error) => {
                &&& error == StorageError::UnexpectedEnd
                &&& !(slice.start <= slice.end <= page@.len())
                &&& final(output)@ == old(output)@
            },
        },
{
    if slice.start > slice.end || slice.end > page.len() as u64 {
        return Err(StorageError::UnexpectedEnd);
    }
    push_all(output, &page[slice.start as usize..slice.end as usize]);
    Ok(())
}

/// The byte range of the page at an offset in an object of a length.
pub fn page_bounds(offset: u64, page_size: u64, length: u64) -> (result: Result<
    (u64, u64),
    StorageError,
>)
    ensures
        match result {
            Ok((start, end)) => {
                &&& start == offset
                &&& end == smaller(offset + page_size, length as int)
                &&& start < end
            },
            Err(error) => {
                &&& error == StorageError::PageBehindObject
                &&& smaller(offset + page_size, length as int) <= offset
            },
        },
{
    let end: u64 = if page_size > u64::MAX - offset || offset + page_size > length {
        length
    } else {
        offset + page_size
    };
    if end <= offset {
        return Err(StorageError::PageBehindObject);
    }
    Ok((offset, end))
}

/// The page at an offset of an object.
pub open spec fn object_page(object: Seq<u8>, offset: int, page_size: int) -> Seq<u8> {
    object.subrange(offset, smaller(offset + page_size, object.len() as int))
}

/// The parts of pages, one behind the other.
pub open spec fn assembled(object: Seq<u8>, slices: Seq<PageSlice>, page_size: int) -> Seq<u8>
    decreases slices.len(),
{
    if slices.len() == 0 {
        Seq::empty()
    } else {
        object_page(object, slices[0].offset as int, page_size).subrange(
            slices[0].start as int,
            slices[0].end as int,
        ) + assembled(object, slices.skip(1), page_size)
    }
}

proof fn lemma_assembled_from(
    object: Seq<u8>,
    offset: int,
    start: int,
    end: int,
    page_size: int,
)
    requires
        page_size > 0,
        0 <= offset,
        0 <= start <= offset + page_size,
        start < end <= object.len() <= u64::MAX,
        page_size <= u64::MAX,
    ensures
        assembled(object, slices_from(offset, start, end, page_size), page_size)
            == object.subrange(
            if start > offset {
                start
            } else {
                smaller(offset, end)
            },
            end,
        ),
    decreases
            if offset < end {
                end - offset
            } else {
                0
            },
{
    let slices = slices_from(offset, start, end, page_size);
    if offset < end {
        let first = slice_of(offset, start, end, page_size);
        let rest = slices_from(offset + page_size, start, end, page_size);
        lemma_assembled_from(object, offset + page_size, start, end, page_size);
        assert(slices.skip(1) =~= rest);
        let page = object_page(object, offset, page_size);
        let from = if start > offset {
            start
        } else {
            offset
        };
        assert(page.subrange(first.start as int, first.end as int) =~= object.subrange(
            from,
            smaller(end, offset + page_size),
        ));
        assert(object.subrange(from, smaller(end, offset + page_size)) + object.subrange(
            smaller(offset + page_size, end),
            end,
        ) =~= object.subrange(from, end));
    } else {
        assert(object.subrange(end, end) =~= Seq::<u8>::empty());
        assert(object.subrange(smaller(offset, end), end) =~= Seq::<u8>::empty());
    }
}

/// A range that is put together from pages is the range of the object: whatever the size of the
/// pages, the parts that they give are its bytes, in order and without a gap.
pub proof fn law_range_is_assembled(object: Seq<u8>, start: int, end: int, page_size: int)
    requires
        0 < page_size <= u64::MAX,
        0 <= start < end <= object.len() <= u64::MAX,
    ensures
        assembled(object, range_slices(start, end, page_size), page_size) == object.subrange(
            start,
            end,
        ),
{
    let offset = start / page_size * page_size;
    vstd::arithmetic::div_mod::lemma_fundamental_div_mod(start, page_size);
    vstd::arithmetic::mul::lemma_mul_is_commutative(start / page_size, page_size);
    vstd::arithmetic::div_mod::lemma_mod_bound(start, page_size);
    assert(0 <= offset) by (nonlinear_arith)
        requires
            start >= 0,
            page_size > 0,
            offset == start / page_size * page_size,
    ;
    lemma_assembled_from(object, offset, start, end, page_size);
}

/// The bytes that name a page: the repository, a zero byte, the path and the offset.
pub open spec fn page_name_bytes(key: KeyModel) -> Seq<u8> {
    encode_utf8(key.repository) + seq![0u8] + encode_utf8(key.path) + be_bytes(
        key.offset as int,
        8,
    )
}

/// The file that holds a page: named by the digest of what names the page, in a directory named
/// by the first two digits.
pub open spec fn page_file(directory: Seq<char>, key: KeyModel) -> Seq<char> {
    let digest = hex_text(sha256(page_name_bytes(key)));
    path_joined(path_joined(directory, digest.take(2)), digest)
}

/// The file that holds a page.
pub fn page_path(directory: &str, key: &PageKey) -> (path: String)
    ensures
        path@ == page_file(directory@, key@),
{
    let mut bytes: Vec<u8> = Vec::new();
    push_all(&mut bytes, key.repository.as_str().as_bytes());
    bytes.push(0);
    push_all(&mut bytes, key.path.as_str().as_bytes());
    push_be_bytes(&mut bytes, key.offset, 8);
    assert(bytes@ =~= page_name_bytes(key@));
    let digest = hex(&sha256_digest(bytes.as_slice()));
    let prefix = digest.as_str().substring_char(0, 2);
    assert(prefix@ =~= digest@.take(2));
    join_path(join_path(directory, prefix).as_str(), digest.as_str())
}

/// The file beside a page that says which page it is.
pub fn page_key_path(page_path: &str) -> (path: String)
    ensures
        path@ == page_path@ + ".key"@,
{
    joined(page_path, ".key")
}

/// Tells whether a file is one that says which page another file holds.
pub fn is_page_key(file_name: &str) -> (result: bool)
    ensures
        result == has_suffix(file_name@, ".key"@),
{
    ends_with(file_name, ".key")
}

/// The bytes that say which page a file holds: the offset, the length of the name of the repository,
/// that name, and the path of the object.
pub open spec fn page_key_bytes(key: KeyModel) -> Seq<u8> {
    be_bytes(key.offset as int, 8) + be_bytes(encode_utf8(key.repository).len() as int, 8)
        + encode_utf8(key.repository) + encode_utf8(key.path)
}

/// The key of a page that bytes say.
pub open spec fn page_key_in(bytes: Seq<u8>) -> Option<KeyModel> {
    if bytes.len() < 16 {
        None
    } else {
        let length = be_value(bytes.subrange(8, 16));
        if length > bytes.len() - 16 {
            None
        } else {
            let repository = bytes.subrange(16, 16 + length);
            let path = bytes.subrange(16 + length, bytes.len() as int);
            if valid_utf8(repository) && valid_utf8(path) {
                Some(
                    KeyModel {
                        repository: decode_utf8(repository),
                        path: decode_utf8(path),
                        offset: be_value(bytes.subrange(0, 8)) as u64,
                    },
                )
            } else {
                None
            }
        }
    }
}

/// Writes down which page a file holds.
pub fn write_page_key(key: &PageKey) -> (bytes: Vec<u8>)
    ensures
        bytes@ == page_key_bytes(key@),
{
    let repository = key.repository.as_str().as_bytes();
    let mut bytes: Vec<u8> = Vec::new();
    push_be_bytes(&mut bytes, key.offset, 8);
    push_be_bytes(&mut bytes, repository.len() as u64, 8);
    push_all(&mut bytes, repository);
    push_all(&mut bytes, key.path.as_str().as_bytes());
    assert(bytes@ =~= page_key_bytes(key@));
    bytes
}

/// Reads which page a file holds.
pub fn read_page_key(bytes: &[u8]) -> (key: Option<PageKey>)
    ensures
        match key {
            Some(key) => page_key_in(bytes@) == Some(key@),
            None => page_key_in(bytes@) is None,
        },
{
    if bytes.len() < 16 {
        return None;
    }
    let offset: u64 = eight_at(bytes, 0);
    let length: u64 = eight_at(bytes, 8);
    if length > (bytes.len() - 16) as u64 {
        return None;
    }
    let end: usize = 16 + length as usize;
    match (utf8_text(&bytes[16..end]), utf8_text(&bytes[end..bytes.len()])) {
        (Some(repository), Some(path)) => Some(PageKey { repository, path, offset }),
        _ => None,
    }
}

/// What was written down of a page says which page it is.
pub proof fn law_page_keys_round_trip(key: KeyModel)
    requires
        encode_utf8(key.repository).len() <= u64::MAX,
    ensures
        page_key_in(page_key_bytes(key)) == Some(key),
{
    broadcast use vstd::utf8::encode_utf8_decode_utf8;
    broadcast use vstd::utf8::encode_utf8_valid_utf8;

    let repository = encode_utf8(key.repository);
    let path = encode_utf8(key.path);
    let bytes = page_key_bytes(key);
    lemma_eight_bytes(key.offset as int);
    lemma_eight_bytes(repository.len() as int);
    assert(bytes.subrange(0, 8) =~= be_bytes(key.offset as int, 8));
    assert(bytes.subrange(8, 16) =~= be_bytes(repository.len() as int, 8));
    let end = 16 + repository.len() as int;
    assert(bytes.subrange(16, end) =~= repository);
    assert(bytes.subrange(end, bytes.len() as int) =~= path);
}

/// The file that a page is written to before it gets its name. The number of the process tells it
/// apart from those of other processes.
pub fn temporary_page_path(page_path: &str, process: u32) -> (path: String)
    ensures
        path@ == page_path@ + ".tmp-"@ + decimal_text(process as int),
{
    let mut path = joined(page_path, ".tmp-");
    path.append(decimal(process as u64).as_str());
    path
}

/// A file is one that a page is written to before it gets its name.
pub open spec fn is_temporary(file_name: Seq<char>) -> bool {
    match split_at_last(file_name, '.') {
        Some((stem, extension)) => stem.len() > 0 && has_prefix(extension, "tmp-"@),
        None => false,
    }
}

/// Whether a file is one that a page is written to before it gets its name.
pub fn is_temporary_page(file_name: &str) -> (result: bool)
    ensures
        result == is_temporary(file_name@),
{
    match rsplit_once(file_name, '.') {
        Some((stem, extension)) => !stem.is_empty() && starts_with(extension, "tmp-"),
        None => false,
    }
}

proof fn lemma_no_dot(number: int, i: int)
    requires
        0 <= number,
        0 <= i < decimal_text(number).len(),
    ensures
        decimal_text(number)[i] != '.',
    decreases number,
{
    if number >= 10 && i < decimal_text(number).len() - 1 {
        lemma_no_dot(number / 10, i);
    }
}

proof fn lemma_last_dot_of_temporary(name: Seq<char>, process: int, end: int)
    requires
        0 <= process,
        name.len() < end <= (name + ".tmp-"@ + decimal_text(process)).len(),
    ensures
        find_last(name + ".tmp-"@ + decimal_text(process), '.', end) == Some(name.len() as int),
    decreases end,
{
    reveal_strlit(".tmp-");
    let text = name + ".tmp-"@ + decimal_text(process);
    let at = end - 1 - name.len();
    if at >= 5 {
        lemma_no_dot(process, at - 5);
        assert(text[end - 1] == decimal_text(process)[at - 5]);
        lemma_last_dot_of_temporary(name, process, end - 1);
    } else {
        assert(text[end - 1] == ".tmp-"@[at]);
        if at > 0 {
            lemma_last_dot_of_temporary(name, process, end - 1);
        }
    }
}

/// A file that a page was written to before it got its name is known as such when the cache is
/// opened again.
pub proof fn law_temporary_pages_are_known(name: Seq<char>, process: u32)
    requires
        name.len() > 0,
    ensures
        is_temporary(name + ".tmp-"@ + decimal_text(process as int)),
{
    reveal_strlit(".tmp-");
    reveal_strlit("tmp-");
    let text = name + ".tmp-"@ + decimal_text(process as int);
    lemma_last_dot_of_temporary(name, process as int, text.len() as int);
    let extension = text.skip(name.len() as int + 1);
    assert(text.take(name.len() as int) =~= name);
    assert(extension.subrange(0, "tmp-"@.len() as int) =~= "tmp-"@);
}

/// The repositories of a reader, found by their URIs. A repository is named by its position in
/// the configuration.
pub struct RepositoryRegistry {
    by_uri: SortedMap<usize>,
    max_concurrent_chunk_reads: usize,
}

/// The positions of the repositories up to `count`, by their URIs. Of repositories with the same
/// URI the last one counts.
pub open spec fn uri_positions(repositories: Seq<ThanosRepositoryConfig>, count: int) -> Map<
    Seq<char>,
    usize,
>
    decreases count,
{
    if count <= 0 {
        Map::empty()
    } else {
        uri_positions(repositories, count - 1).insert(
            repositories[count - 1].uri@,
            (count - 1) as usize,
        )
    }
}

/// The position of the first repository from `position` on that cannot be read, and why.
pub open spec fn unreadable_from(
    repositories: Seq<ThanosRepositoryConfig>,
    storage: StorageConfig,
    position: int,
) -> Option<(int, StorageError)>
    decreases repositories.len() - position,
{
    if position < 0 || position >= repositories.len() {
        None
    } else {
        match repository_location(repositories[position].uri@, storage) {
            Err(error) => Some((position, error)),
            Ok(_) => match size_bytes(
                storage.bulk_read_chunk_size@,
                SizeSetting::BulkReadChunkSize,
            ) {
                Err(error) => Some((position, StorageError::Config(error))),
                Ok(_) => unreadable_from(repositories, storage, position + 1),
            },
        }
    }
}

impl RepositoryRegistry {
    /// The positions of the repositories by their URIs.
    pub closed spec fn positions(&self) -> Map<Seq<char>, usize> {
        self.by_uri@
    }

    /// The largest number of chunks that are read at the same time.
    pub closed spec fn chunk_reads(&self) -> usize {
        self.max_concurrent_chunk_reads
    }

    /// The registry without repositories.
    pub fn empty() -> (registry: Self)
        ensures
            registry.positions() == Map::<Seq<char>, usize>::empty(),
            registry.chunk_reads() == 1,
    {
        RepositoryRegistry { by_uri: SortedMap::new(), max_concurrent_chunk_reads: 1 }
    }

    /// The repositories of a configuration, all of which can be read; or the position of the
    /// first one that cannot, and why.
    pub fn new(config: &ReaderConfig) -> (result: Result<Self, (usize, StorageError)>)
        ensures
            match result {
                Ok(registry) => {
                    &&& unreadable_from(config.repositories@, config.storage, 0) is None
                    &&& registry.positions() == uri_positions(
                        config.repositories@,
                        config.repositories@.len() as int,
                    )
                    &&& registry.chunk_reads() == config.storage.max_concurrent_chunk_reads
                },
                Err((position, error)) => unreadable_from(config.repositories@, config.storage, 0) == Some(
                    (position as int, error),
                ),
            },
    {
        let mut by_uri: SortedMap<usize> = SortedMap::new();
        let mut position: usize = 0;
        while position < config.repositories.len()
            invariant
                position <= config.repositories.len(),
                by_uri@ == uri_positions(config.repositories@, position as int),
                unreadable_from(config.repositories@, config.storage, 0) == unreadable_from(
                    config.repositories@,
                    config.storage,
                    position as int,
                ),
            decreases config.repositories.len() - position,
        {
            match repository_operator(&config.repositories[position], &config.storage) {
                Ok(_) => {},
                Err(error) => {
                    return Err((position, error));
                },
            }
            match config.storage.bulk_read_chunk_size_bytes() {
                Ok(_) => {},
                Err(error) => {
                    return Err((position, StorageError::Config(error)));
                },
            }
            let _previous = by_uri.insert(config.repositories[position].uri.clone(), position);
            position = position + 1;
        }
        Ok(
            RepositoryRegistry {
                by_uri,
                max_concurrent_chunk_reads: config.storage.max_concurrent_chunk_reads,
            },
        )
    }

    /// The position of the repository with a URI, if there is one.
    pub fn get(&self, uri: &str) -> (position: Option<usize>)
        ensures
            match position {
                Some(position) => self.positions().contains_key(uri@) && position
                    == self.positions()[uri@],
                None => !self.positions().contains_key(uri@),
            },
    {
        match self.by_uri.get(uri) {
            Some(position) => Some(*position),
            None => None,
        }
    }

    /// The position of the repository with a URI.
    pub fn require(&self, uri: &str) -> (result: Result<usize, StorageError>)
        ensures
            match result {
                Ok(position) => self.positions().contains_key(uri@) && position
                    == self.positions()[uri@],
                Err(error) => error == StorageError::UnknownRepository
                    && !self.positions().contains_key(uri@),
            },
    {
        match self.get(uri) {
            Some(position) => Ok(position),
            None => Err(StorageError::UnknownRepository),
        }
    }

    /// The largest number of chunks that are read at the same time.
    pub fn max_concurrent_chunk_reads(&self) -> (count: usize)
        ensures
            count == self.chunk_reads(),
    {
        self.max_concurrent_chunk_reads
    }
}

/// A name stands behind a path with one slash between them, whether or not the path ends with one. A
/// name that starts with a slash stands alone.
pub proof fn law_names_stand_behind_paths(path: Seq<char>, name: Seq<char>)
    ensures
        path_joined(path, seq!['/'] + name) == seq!['/'] + name,
        name.len() > 0 && name[0] != '/' && path.len() > 0 && path.last() != '/' ==> path_joined(
            path,
            name,
        ) == path + "/"@ + name && path_joined(path.push('/'), name) == path + "/"@ + name,
        name.len() > 0 && name[0] != '/' ==> path_joined(Seq::empty(), name) == name,
{
    reveal_strlit("/");
    assert(path.push('/') + name =~= path + "/"@ + name);
    assert(Seq::<char>::empty() + name =~= name);
}

proof fn lemma_first_slash(bucket: Seq<char>, root: Seq<char>)
    requires
        !bucket.contains('/'),
    ensures
        split_at_first(bucket.push('/') + root, "/"@) == Some((bucket, root)),
{
    reveal_strlit("/");
    let text = bucket.push('/') + root;
    let at = bucket.len() as int;
    law_texts_are_split_at_the_first_separator(text, "/"@);
    assert(text.subrange(at, at + 1) =~= "/"@);
    assert(occurs_at(text, "/"@, at));
    if let Some((before, behind)) = split_at_first(text, "/"@) {
        let size = before.len() as int;
        assert((before + "/"@ + behind)[size] == '/');
        if size < at {
            assert(text[size] == bucket[size]);
            assert(bucket.contains('/'));
        }
        assert(size == at);
        assert(text.take(at) =~= bucket);
        assert((before + "/"@ + behind).take(at) =~= before);
        assert(text.skip(at + 1) =~= root);
        assert((before + "/"@ + behind).skip(at + 1) =~= behind);
    }
}

proof fn lemma_slashes_are_trimmed(before: Seq<char>, inner: Seq<char>, behind: Seq<char>)
    requires
        inner.len() > 0,
        inner[0] != '/',
        inner.last() != '/',
        forall|i: int| 0 <= i < before.len() ==> #[trigger] before[i] == '/',
        forall|i: int| 0 <= i < behind.len() ==> #[trigger] behind[i] == '/',
    ensures
        without_slashes(before + inner + behind) == inner,
{
    let text = before + inner + behind;
    let gone = |c: char| c == '/';
    let range = law_both_ends_are_trimmed(text, gone);
    let start = before.len() as int;
    let end = start + inner.len();
    assert(text[start] == inner[0]);
    assert(text[end - 1] == inner.last());
    assert(!gone(text[start]) && !gone(text[end - 1]));
    assert(range.0 < range.1);
    if range.0 < start {
        assert(text[range.0] == before[range.0]);
    }
    if range.1 > end {
        assert(text[range.1 - 1] == behind[range.1 - 1 - end]);
    }
    assert(text.subrange(start, end) =~= inner);
}

/// A location names a bucket up to its first slash, and the root behind that slash. Slashes around
/// the location do not count. A bucket alone has the root `/`.
#[verifier::spinoff_prover]
#[verifier::rlimit(60)]
pub proof fn law_locations_name_buckets_and_roots(
    before: Seq<char>,
    bucket: Seq<char>,
    root: Seq<char>,
    behind: Seq<char>,
)
    requires
        bucket.len() > 0,
        !bucket.contains('/'),
        root.len() > 0,
        root.last() != '/',
        forall|i: int| 0 <= i < before.len() ==> #[trigger] before[i] == '/',
        forall|i: int| 0 <= i < behind.len() ==> #[trigger] behind[i] == '/',
    ensures
        bucket_root(before + (bucket.push('/') + root) + behind) == Ok::<
            (Seq<char>, Seq<char>),
            StorageError,
        >((bucket, root)),
        bucket_root(before + bucket + behind) == Ok::<(Seq<char>, Seq<char>), StorageError>(
            (bucket, "/"@),
        ),
{
    reveal_strlit("/");
    assert(bucket.contains(bucket[0]));
    assert(bucket.contains(bucket.last()));
    let inner = bucket.push('/') + root;
    assert(inner[0] == bucket[0] && inner.last() == root.last());
    lemma_slashes_are_trimmed(before, inner, behind);
    lemma_first_slash(bucket, root);
    lemma_slashes_are_trimmed(before, bucket, behind);
    law_texts_are_split_at_the_first_separator(bucket, "/"@);
    if let Some((front, rest)) = split_at_first(bucket, "/"@) {
        assert((front + "/"@ + rest)[front.len() as int] == '/');
        assert(bucket.contains('/'));
    }
}

/// A location without anything but slashes names no bucket.
pub proof fn law_slashes_name_no_bucket(location: Seq<char>)
    requires
        forall|i: int| 0 <= i < location.len() ==> #[trigger] location[i] == '/',
    ensures
        bucket_root(location) == Err::<(Seq<char>, Seq<char>), StorageError>(
            StorageError::EmptyBucket,
        ),
{
    reveal_strlit("/");
    let gone = |c: char| c == '/';
    let range = law_both_ends_are_trimmed(location, gone);
    assert(without_slashes(location) =~= Seq::<char>::empty());
}

/// A URI is a scheme, `://` and a location. Without `://` there is no scheme. A scheme that is not
/// known is refused, and so is a location without a bucket for a storage with buckets. Otherwise the
/// repository is at the location, if the limits of the storage state how long requests may take.
#[verifier::spinoff_prover]
#[verifier::rlimit(60)]
pub proof fn law_uris_say_where_repositories_are(
    scheme: Seq<char>,
    location: Seq<char>,
    storage: StorageConfig,
)
    requires
        !scheme.contains(':'),
    ensures
        ({
            let result = repository_location(scheme + "://"@ + location, storage);
            let timeout = setting_duration(storage.request_timeout@);
            let with_buckets = scheme == "s3"@ || scheme == "gs"@ || scheme == "gcs"@;
            if scheme != "file"@ && !with_buckets {
                result == Err::<(Backend, Seq<char>), StorageError>(StorageError::UnsupportedScheme)
            } else if with_buckets && bucket_root(location) is Err {
                result == Err::<(Backend, Seq<char>), StorageError>(StorageError::EmptyBucket)
            } else if timeout is Err {
                result == Err::<(Backend, Seq<char>), StorageError>(
                    StorageError::Config(timeout->Err_0),
                )
            } else {
                result == Ok::<(Backend, Seq<char>), StorageError>(
                    (
                        if scheme == "file"@ {
                            Backend::File
                        } else if scheme == "s3"@ {
                            Backend::S3
                        } else {
                            Backend::Gcs
                        },
                        location,
                    ),
                )
            }
        }),
        repository_location(scheme, storage) == Err::<(Backend, Seq<char>), StorageError>(
            StorageError::MissingScheme,
        ),
{
    reveal_strlit("://");
    let uri = scheme + "://"@ + location;
    let at = scheme.len() as int;
    law_schemes_name_storage(scheme);
    law_texts_are_split_at_the_first_separator(uri, "://"@);
    assert(uri.subrange(at, at + 3) =~= "://"@);
    assert(occurs_at(uri, "://"@, at));
    if let Some((before, behind)) = split_at_first(uri, "://"@) {
        let size = before.len() as int;
        assert((before + "://"@ + behind)[size] == ':');
        if size < at {
            assert(uri[size] == scheme[size]);
            assert(scheme.contains(':'));
        }
        assert(size == at);
        assert(uri.take(at) =~= scheme);
        assert((before + "://"@ + behind).take(at) =~= before);
        assert(uri.skip(at + 3) =~= location);
        assert((before + "://"@ + behind).skip(at + 3) =~= behind);
    }
    law_texts_are_split_at_the_first_separator(scheme, "://"@);
    if let Some((before, behind)) = split_at_first(scheme, "://"@) {
        assert((before + "://"@ + behind)[before.len() as int] == ':');
        assert(scheme.contains(':'));
    }
    reveal_strlit("file");
    reveal_strlit("s3");
    reveal_strlit("gs");
    reveal_strlit("gcs");
    assert("file"@.len() == 4 && "s3"@.len() == 2 && "gs"@.len() == 2 && "gcs"@.len() == 3);
    assert("s3"@[0] != "gs"@[0]);
}

/// Settings that serve a repository hold the limits of the storage, the place of the repository, and
/// the options for its own storage, and no options for another one.
pub proof fn law_settings_are_those_of_the_repository(
    settings: OperatorSettings,
    repository: ThanosRepositoryConfig,
    location: Seq<char>,
    storage: StorageConfig,
)
    requires
        settings.serve(repository, location, storage),
    ensures
        setting_duration(storage.request_timeout@) == Ok::<(u64, u32), ConfigError>(
            settings.timeout,
        ),
        settings.max_retries == storage.max_retries,
        settings.max_concurrent_requests == storage.max_concurrent_requests,
        settings.backend == Backend::File ==> settings.root@ == location && settings.bucket@.len()
            == 0 && settings.region is None && settings.endpoint is None
            && !settings.virtual_host_style,
        settings.backend != Backend::File ==> bucket_root(location) == Ok::<
            (Seq<char>, Seq<char>),
            StorageError,
        >((settings.bucket@, settings.root@)),
        settings.backend == Backend::S3 ==> match repository.s3 {
            Some(options) => {
                &&& (settings.region is Some <==> options.region is Some)
                &&& settings.region is Some ==> settings.region->0@ == options.region->0@
                &&& (settings.endpoint is Some <==> options.endpoint is Some)
                &&& settings.endpoint is Some ==> settings.endpoint->0@ == options.endpoint->0@
                &&& settings.virtual_host_style == options.virtual_host_style
            },
            None => settings.region is None && settings.endpoint is None
                && !settings.virtual_host_style,
        },
        settings.backend == Backend::Gcs ==> settings.region is None
            && !settings.virtual_host_style,
        settings.backend == Backend::Gcs ==> match repository.gcs {
            Some(options) => {
                &&& (settings.endpoint is Some <==> options.endpoint is Some)
                &&& settings.endpoint is Some ==> settings.endpoint->0@ == options.endpoint->0@
            },
            None => settings.endpoint is None,
        },
{
}

/// A URI stands for the last repository that has it, and for none where no repository has it.
pub proof fn law_uris_stand_for_the_last_repository(
    repositories: Seq<ThanosRepositoryConfig>,
    count: int,
    uri: Seq<char>,
)
    requires
        0 <= count <= repositories.len() <= usize::MAX,
    ensures
        ({
            let positions = uri_positions(repositories, count);
            if positions.contains_key(uri) {
                let last = positions[uri] as int;
                &&& 0 <= last < count
                &&& repositories[last].uri@ == uri
                &&& forall|i: int| last < i < count ==> (#[trigger] repositories[i]).uri@ != uri
            } else {
                forall|i: int| 0 <= i < count ==> (#[trigger] repositories[i]).uri@ != uri
            }
        }),
    decreases count,
{
    if count > 0 {
        law_uris_stand_for_the_last_repository(repositories, count - 1, uri);
    }
}

/// The first repository that cannot be read is reported, with the reason; where all can be read,
/// none is.
pub proof fn law_the_first_unreadable_repository_is_reported(
    repositories: Seq<ThanosRepositoryConfig>,
    storage: StorageConfig,
    position: int,
)
    requires
        0 <= position <= repositories.len(),
    ensures
        match unreadable_from(repositories, storage, position) {
            Some((first, error)) => {
                &&& position <= first < repositories.len()
                &&& forall|i: int|
                    position <= i < first ==> repository_location(
                        (#[trigger] repositories[i]).uri@,
                        storage,
                    ) is Ok
                &&& match repository_location(repositories[first].uri@, storage) {
                    Err(reason) => error == reason,
                    Ok(_) => size_bytes(
                        storage.bulk_read_chunk_size@,
                        SizeSetting::BulkReadChunkSize,
                    ) matches Err(reason) && error == StorageError::Config(reason),
                }
            },
            None => forall|i: int|
                position <= i < repositories.len() ==> repository_location(
                    (#[trigger] repositories[i]).uri@,
                    storage,
                ) is Ok && size_bytes(
                    storage.bulk_read_chunk_size@,
                    SizeSetting::BulkReadChunkSize,
                ) is Ok,
        },
    decreases repositories.len() - position,
{
    if position < repositories.len() {
        law_the_first_unreadable_repository_is_reported(repositories, storage, position + 1);
    }
}

/// A page is named by its repository, a zero byte, its path, and its offset in eight bytes.
pub proof fn law_pages_are_named_by_their_keys(key: KeyModel)
    ensures
        ({
            let bytes = page_name_bytes(key);
            let repository = encode_utf8(key.repository);
            let path = encode_utf8(key.path);
            let start = repository.len() as int + 1;
            let end = start + path.len();
            &&& bytes.len() == end + 8
            &&& bytes.take(start - 1) == repository
            &&& bytes[start - 1] == 0
            &&& bytes.subrange(start, end) == path
            &&& be_value(bytes.skip(end)) == key.offset
        }),
{
    let bytes = page_name_bytes(key);
    let repository = encode_utf8(key.repository);
    let path = encode_utf8(key.path);
    let start = repository.len() as int + 1;
    let end = start + path.len();
    lemma_eight_bytes(key.offset as int);
    assert(bytes.take(start - 1) =~= repository);
    assert(bytes.subrange(start, end) =~= path);
    assert(bytes.skip(end) =~= be_bytes(key.offset as int, 8));
}

/// A page is kept under the digest of its name, in a directory under that of the cache which is named
/// by the first byte of the digest.
#[verifier::spinoff_prover]
#[verifier::rlimit(60)]
pub proof fn law_pages_are_kept_under_their_digest(directory: Seq<char>, key: KeyModel)
    requires
        directory.len() > 0,
        directory.last() != '/',
    ensures
        sha256(page_name_bytes(key)).len() == 32 ==> page_file(directory, key) == directory + "/"@
            + hex_text(sha256(page_name_bytes(key)).take(1)) + "/"@ + hex_text(
            sha256(page_name_bytes(key)),
        ),
{
    reveal_strlit("/");
    let digest = sha256(page_name_bytes(key));
    if digest.len() == 32 {
        let name = hex_text(digest);
        assert(name.take(2) =~= hex_text(digest.take(1)));
        law_bytes_are_written_in_two_digits(digest, 0);
        reveal_strlit("0123456789abcdef");
        assert(name[0] != '/' && name[1] != '/');
        law_names_stand_behind_paths(directory, name.take(2));
        law_names_stand_behind_paths(directory + "/"@ + name.take(2), name);
    }
}

} // verus!
