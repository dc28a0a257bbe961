use thanos_v1_reader::config::{
    default_chunk_cache_max_size, default_chunk_cache_page_size, default_chunk_cache_policy,
    default_listen_addr, default_metrics_listen_addr, default_protected_fraction, Backend, CachePolicy,
    ChunkCacheConfig, ConfigError, GcsConfig, ReaderConfig, S3Config, SizeSetting, StorageConfig,
    ThanosRepositoryConfig,
};
use thanos_v1_reader::page_cache::{CacheState, FoundPage, PageKey};
use thanos_v1_reader::storage::{
    append_slice, is_page_key, is_temporary_page, page_bounds, page_key_path, page_path,
    page_slices, read_page_key, repository_operator, temporary_page_path, write_page_key, PageSlice,
    RepositoryRegistry, StorageError,
};

fn cache(max_size: &str, page_size: &str) -> ChunkCacheConfig {
    ChunkCacheConfig {
        directory: "/tmp/chunks".to_string(),
        max_size: max_size.to_string(),
        page_size: page_size.to_string(),
        policy: CachePolicy::Slru,
        protected_fraction: 0.8f64.to_bits(),
    }
}

fn repository(name: &str, uri: &str) -> ThanosRepositoryConfig {
    ThanosRepositoryConfig { name: name.to_string(), uri: uri.to_string(), s3: None, gcs: None }
}

fn config(repositories: Vec<ThanosRepositoryConfig>) -> ReaderConfig {
    ReaderConfig {
        listen_addr: "127.0.0.1:50051".to_string(),
        metrics_listen_addr: default_metrics_listen_addr(),
        index_cache_location: "file:///tmp/index".to_string(),
        repositories,
        storage: StorageConfig::default(),
    }
}

fn key(path: &str, offset: u64) -> PageKey {
    PageKey { repository: "blocks".to_string(), path: path.to_string(), offset }
}

fn read_range(object: &[u8], start: u64, end: u64, page_size: u64) -> Vec<u8> {
    let mut output = Vec::new();
    for slice in page_slices(start, end, page_size) {
        let (from, to) = page_bounds(slice.offset, page_size, object.len() as u64).unwrap();
        append_slice(&mut output, &object[from as usize..to as usize], slice).unwrap();
    }
    output
}

#[test]
fn storage_defaults_are_production_safe() {
    let storage = StorageConfig::default();
    assert_eq!(storage.request_timeout_duration().unwrap(), (30, 0));
    assert_eq!(storage.bulk_read_chunk_size_bytes().unwrap(), 8 * 1024 * 1024);
    assert_eq!(storage.max_concurrent_chunk_reads, 16);
    assert_eq!(storage.index_build_concurrency, 12);
    assert_eq!(storage.metadata_read_concurrency, 64);
    assert_eq!(default_chunk_cache_page_size(), "512KiB");
    assert!(storage.validate().is_ok());
}

#[test]
fn parses_binary_cache_sizes() {
    let cache = cache("10GiB", "16KiB");
    assert_eq!(cache.max_size_bytes().unwrap(), 10 * 1024 * 1024 * 1024);
    assert_eq!(cache.page_size_bytes().unwrap(), 16 * 1024);
}

#[test]
fn default_settings_are_the_documented_ones() {
    assert_eq!(default_listen_addr(), "127.0.0.1:50051");
    assert_eq!(default_metrics_listen_addr(), "127.0.0.1:9090");
    assert_eq!(default_chunk_cache_max_size(), "10GiB");
    assert_eq!(default_chunk_cache_policy(), CachePolicy::Slru);
    assert_eq!(f64::from_bits(default_protected_fraction()), 0.8);
}

#[test]
fn sizes_need_a_number_and_a_suffix() {
    let size = |text: &str| cache(text, "16KiB").max_size_bytes();
    assert_eq!(size(" 3 MiB "), Ok(3 * 1024 * 1024));
    assert_eq!(size("2TiB"), Ok(2 * 1024 * 1024 * 1024 * 1024));
    assert_eq!(size("7B"), Ok(7));
    assert_eq!(size("7"), Err(ConfigError::MissingSizeSuffix(SizeSetting::CacheMaxSize)));
    assert_eq!(size("xB"), Err(ConfigError::InvalidSize(SizeSetting::CacheMaxSize)));
    assert_eq!(
        size("18446744073709551615KiB"),
        Err(ConfigError::SizeOverflow(SizeSetting::CacheMaxSize))
    );
}

#[test]
fn durations_are_read_like_people_write_them() {
    let timeout = |text: &str| {
        StorageConfig { request_timeout: text.to_string(), ..StorageConfig::default() }
            .request_timeout_duration()
    };
    assert_eq!(timeout("1hour 12min 5s"), Ok((3600 + 12 * 60 + 5, 0)));
    assert_eq!(timeout("1.5s"), Ok((1, 500_000_000)));
    assert_eq!(timeout("250ms"), Ok((0, 250_000_000)));
    assert_eq!(timeout("10000000000000ms"), Ok((10_000_000_000, 0)));
    assert_eq!(timeout("18446744073709551615ns"), Ok((18_446_744_073, 709_551_615)));
    assert_eq!(timeout("2months"), Ok((2 * 2_630_016, 0)));
    assert_eq!(timeout("18446744073709551615s 999999999ns 1ns"), Err(ConfigError::InvalidDuration));
    assert_eq!(timeout("18446744073709551615s"), Ok((u64::MAX, 0)));
    assert_eq!(timeout("18446744073709551555s 1min"), Ok((u64::MAX, 0)));
    assert_eq!(timeout("18446744073709551616s"), Err(ConfigError::InvalidDuration));
    assert_eq!(timeout("18446744073709551615s 1h"), Err(ConfigError::InvalidDuration));
    assert_eq!(timeout("18446744073709551615s 0.5s"), Ok((u64::MAX, 500_000_000)));
    assert_eq!(timeout("18446744073709551615s 1ms"), Ok((u64::MAX, 1_000_000)));
    assert_eq!(timeout("18446744073709551615s 999999999ns"), Ok((u64::MAX, 999_999_999)));
    assert_eq!(timeout("soon"), Err(ConfigError::InvalidDuration));
    assert_eq!(timeout(""), Err(ConfigError::InvalidDuration));
}

#[test]
fn the_age_of_blocks_is_optional() {
    let age = |text: Option<&str>| {
        StorageConfig {
            block_max_age: text.map(|text| text.to_string()),
            ..StorageConfig::default()
        }
        .block_max_age_duration()
    };
    assert_eq!(age(None), Ok(None));
    assert_eq!(age(Some("2d")), Ok(Some((2 * 86_400, 0))));
    assert_eq!(age(Some("later")), Err(ConfigError::InvalidDuration));
}

#[test]
fn limits_are_checked() {
    let problem = |change: fn(&mut StorageConfig)| {
        let mut storage = StorageConfig::default();
        change(&mut storage);
        storage.validate().err()
    };
    assert_eq!(
        problem(|storage| storage.request_timeout = "0s".to_string()),
        Some(ConfigError::ZeroRequestTimeout)
    );
    assert_eq!(
        problem(|storage| storage.metadata_read_concurrency = 0),
        Some(ConfigError::ZeroConcurrency)
    );
    assert_eq!(
        problem(|storage| storage.bulk_read_chunk_size = "0B".to_string()),
        Some(ConfigError::ZeroBulkReadChunkSize)
    );
    assert_eq!(
        problem(|storage| storage.chunk_cache = Some(cache("1GiB", "2GiB"))),
        Some(ConfigError::CachePageSizeOutOfRange)
    );
    assert_eq!(
        problem(|storage| storage.chunk_cache = Some(cache("1GiB", "24KiB"))),
        Some(ConfigError::CachePageSizeNotPowerOfTwo)
    );
    assert_eq!(
        problem(|storage| {
            let mut cache = cache("1GiB", "16KiB");
            cache.protected_fraction = 1.5f64.to_bits();
            storage.chunk_cache = Some(cache);
        }),
        Some(ConfigError::ProtectedFractionOutOfRange)
    );
    assert_eq!(problem(|storage| storage.chunk_cache = Some(cache("1GiB", "16KiB"))), None);
}

#[test]
fn configurations_are_checked() {
    let good = config(vec![repository("a", "file:///blocks")]);
    assert_eq!(good.validate(true, true), Ok(()));
    assert_eq!(good.validate(false, true), Err(ConfigError::InvalidListenAddress));
    assert_eq!(good.validate(true, false), Err(ConfigError::InvalidMetricsListenAddress));
    assert_eq!(config(vec![]).validate(true, true), Err(ConfigError::NoRepositories));
    let mut nowhere = config(vec![repository("a", "file:///blocks")]);
    nowhere.index_cache_location = " ".to_string();
    assert_eq!(nowhere.validate(true, true), Err(ConfigError::EmptyIndexCacheLocation));
}

#[test]
fn repositories_are_checked_in_order() {
    let problem = |repositories| config(repositories).validate(true, true).err();
    assert_eq!(
        problem(vec![repository("a", "file:///a"), repository(" ", "file:///b")]),
        Some(ConfigError::EmptyRepositoryName(1))
    );
    assert_eq!(problem(vec![repository("a", "")]), Some(ConfigError::EmptyRepositoryUri(0)));
    assert_eq!(
        problem(vec![repository("a", "file:///a"), repository("a", "file:///b")]),
        Some(ConfigError::DuplicateRepositoryName(1))
    );
    assert_eq!(problem(vec![repository("a", "/a")]), Some(ConfigError::MissingScheme(0)));
    assert_eq!(problem(vec![repository("a", "http://a")]), Some(ConfigError::UnsupportedScheme(0)));
    let mut wrong = repository("a", "file:///a");
    wrong.gcs = Some(GcsConfig { endpoint: None });
    assert_eq!(problem(vec![wrong]), Some(ConfigError::WrongBackend(0)));
}

#[test]
fn repositories_are_reached_by_their_scheme() {
    let storage = StorageConfig::default();
    let files = repository_operator(&repository("a", "file:///blocks"), &storage).ok().unwrap();
    assert_eq!(files.backend, Backend::File);
    assert_eq!(files.root, "/blocks");
    assert_eq!(files.timeout, (30, 0));
    let mut objects = repository("a", "s3://bucket/some/prefix/");
    objects.s3 = Some(S3Config {
        region: Some("eu-central-1".to_string()),
        endpoint: Some("http://localhost:9000".to_string()),
        virtual_host_style: true,
    });
    let objects = repository_operator(&objects, &storage).ok().unwrap();
    assert_eq!(objects.backend, Backend::S3);
    assert_eq!(objects.bucket, "bucket");
    assert_eq!(objects.root, "some/prefix");
    assert_eq!(objects.region.as_deref(), Some("eu-central-1"));
    assert_eq!(objects.endpoint.as_deref(), Some("http://localhost:9000"));
    assert!(objects.virtual_host_style);
    assert_eq!((objects.max_retries, objects.max_concurrent_requests), (3, 64));
    let bucket = repository_operator(&repository("a", "gs://bucket"), &storage).ok().unwrap();
    assert_eq!(bucket.backend, Backend::Gcs);
    assert_eq!((bucket.bucket.as_str(), bucket.root.as_str()), ("bucket", "/"));
    let error = |uri: &str| repository_operator(&repository("a", uri), &storage).err();
    assert_eq!(error("/blocks"), Some(StorageError::MissingScheme));
    assert_eq!(error("http://bucket"), Some(StorageError::UnsupportedScheme));
    assert_eq!(error("s3://"), Some(StorageError::EmptyBucket));
    let late = StorageConfig { request_timeout: "?".to_string(), ..StorageConfig::default() };
    assert_eq!(
        repository_operator(&repository("a", "file:///a"), &late).err(),
        Some(StorageError::Config(ConfigError::InvalidDuration))
    );
}

#[test]
fn repositories_are_found_by_their_uri() {
    let configured =
        config(vec![repository("a", "file:///a"), repository("b", "s3://b")]);
    let registry = RepositoryRegistry::new(&configured).ok().unwrap();
    assert_eq!(registry.get("s3://b"), Some(1));
    assert_eq!(registry.require("file:///a"), Ok(0));
    assert_eq!(registry.require("file:///c"), Err(StorageError::UnknownRepository));
    assert_eq!(registry.max_concurrent_chunk_reads(), 16);
    let broken = config(vec![repository("a", "file:///a"), repository("b", "s3:///")]);
    assert_eq!(
        RepositoryRegistry::new(&broken).err(),
        Some((1, StorageError::EmptyBucket))
    );
    assert_eq!(RepositoryRegistry::empty().get("file:///a"), None);
    assert_eq!(RepositoryRegistry::empty().max_concurrent_chunk_reads(), 1);
}

#[test]
fn ranges_are_put_together_from_aligned_pages() {
    let object = b"abcdefghijklmnopqrstuvwxyz";
    assert_eq!(read_range(object, 2, 10, 4), b"cdefghij");
    assert_eq!(read_range(object, 5, 12, 4), b"fghijkl");
    assert_eq!(read_range(object, 0, 26, 5), object);
    assert_eq!(
        page_slices(2, 10, 4),
        vec![
            PageSlice { offset: 0, start: 2, end: 4 },
            PageSlice { offset: 4, start: 0, end: 4 },
            PageSlice { offset: 8, start: 0, end: 2 },
        ]
    );
}

#[test]
fn pages_end_with_their_object() {
    assert_eq!(page_bounds(24, 4, 26), Ok((24, 26)));
    assert_eq!(page_bounds(u64::MAX - 1, 4, u64::MAX), Ok((u64::MAX - 1, u64::MAX)));
    assert_eq!(page_bounds(28, 4, 26), Err(StorageError::PageBehindObject));
    let mut output = vec![1];
    let slice = PageSlice { offset: 0, start: 0, end: 3 };
    assert_eq!(append_slice(&mut output, &[2, 3], slice), Err(StorageError::UnexpectedEnd));
    assert_eq!(output, vec![1]);
}

#[test]
fn pages_are_named_by_their_digest() {
    let path = page_path("/cache", &key("a", 0));
    let name = path.rsplit('/').next().unwrap();
    assert_eq!(name.len(), 64);
    assert!(name.chars().all(|c| c.is_ascii_hexdigit()));
    assert_eq!(path, format!("/cache/{}/{}", &name[..2], name));
    assert_ne!(page_path("/cache", &key("a", 0)), page_path("/cache", &key("a", 1)));
    let digest: String = <sha2::Sha256 as sha2::Digest>::digest(b"blocks\0a\0\0\0\0\0\0\0\x07")
        .iter()
        .map(|byte| format!("{:02x}", byte))
        .collect();
    assert!(page_path("/cache", &key("a", 7)).ends_with(&digest));
}

#[test]
fn unfinished_pages_are_known_by_their_name() {
    let path = temporary_page_path("/cache/ab/abcd", 17);
    assert_eq!(path, "/cache/ab/abcd.tmp-17");
    assert!(is_temporary_page("abcd.tmp-17"));
    assert!(!is_temporary_page("abcd"));
    assert!(!is_temporary_page(".tmp-17"));
}

#[test]
fn the_cache_evicts_the_pages_that_were_not_used() {
    let mut state = CacheState::new();
    assert!(state.store(&key("a", 0), 4, 10).is_empty());
    assert!(state.store(&key("b", 0), 4, 10).is_empty());
    state.touch(&key("a", 0), CachePolicy::Lru, 0);
    let evicted = state.store(&key("c", 0), 4, 10);
    assert_eq!(evicted.len(), 1);
    assert_eq!(evicted[0].path, "b");
    assert!(state.contains(&key("a", 0)));
    assert!(!state.contains(&key("b", 0)));
    assert_eq!(state.bytes(), 8);
}

#[test]
fn protected_pages_outlive_probationary_ones() {
    let mut state = CacheState::new();
    state.store(&key("a", 0), 4, 12);
    state.touch(&key("a", 0), CachePolicy::Slru, 8);
    state.store(&key("b", 0), 4, 12);
    state.store(&key("c", 0), 4, 12);
    let evicted = state.store(&key("d", 0), 4, 12);
    assert_eq!(evicted[0].path, "b");
    assert!(state.contains(&key("a", 0)));
}

#[test]
fn the_oldest_protected_page_steps_back_at_the_limit() {
    let mut state = CacheState::new();
    state.store(&key("a", 0), 4, 12);
    state.store(&key("b", 0), 4, 12);
    state.touch(&key("a", 0), CachePolicy::Slru, 4);
    state.touch(&key("b", 0), CachePolicy::Slru, 4);
    state.store(&key("c", 0), 4, 12);
    let evicted = state.store(&key("d", 0), 4, 12);
    assert_eq!(evicted[0].path, "a");
    assert!(state.contains(&key("b", 0)));
}

#[test]
fn pages_larger_than_the_cache_are_not_held() {
    let mut state = CacheState::new();
    assert!(state.store(&key("a", 0), 11, 10).is_empty());
    assert!(!state.contains(&key("a", 0)));
    assert_eq!(state.bytes(), 0);
}

#[test]
fn a_page_that_was_lost_is_forgotten() {
    let mut state = CacheState::new();
    state.store(&key("a", 0), 4, 10);
    state.forget(&key("a", 0));
    assert!(!state.contains(&key("a", 0)));
    assert!(!state.contains(&key("a", 4)));
    assert_eq!(state.bytes(), 4);
    let copy = key("a", 8).copy();
    assert_eq!((copy.repository.as_str(), copy.path.as_str(), copy.offset), ("blocks", "a", 8));
}

#[test]
fn keys_of_pages_are_read_back() {
    let bytes = write_page_key(&key("blocks/\u{e9}/000001", 0x0102));
    assert_eq!(bytes[..8], [0, 0, 0, 0, 0, 0, 0x01, 0x02]);
    assert_eq!(bytes[8..16], [0, 0, 0, 0, 0, 0, 0, 6]);
    let read = read_page_key(&bytes).unwrap();
    assert_eq!(read.repository, "blocks");
    assert_eq!(read.path, "blocks/\u{e9}/000001");
    assert_eq!(read.offset, 0x0102);
    assert!(read_page_key(&bytes[..15]).is_none());
    assert!(read_page_key(&bytes[..20]).is_none());
    assert_eq!(read_page_key(&bytes[..22]).unwrap().path, "");
    let mut broken = bytes.clone();
    broken[16] = 0xff;
    assert!(read_page_key(&broken).is_none());
    let path = page_key_path("/cache/ab/abcd");
    assert_eq!(path, "/cache/ab/abcd.key");
    assert!(is_page_key("abcd.key"));
    assert!(!is_page_key("abcd"));
}

fn found(path: &str, size: u64) -> FoundPage {
    FoundPage { key: key(path, 0), size }
}

#[test]
fn a_cache_is_restored_from_the_pages_that_are_found() {
    let (state, gone) = CacheState::restore(&vec![], 10);
    assert_eq!((state.bytes(), gone.len()), (0, 0));
    let pages = vec![found("a", 4), found("b", 4), found("b", 4), found("huge", 11), found("c", 4)];
    let (mut state, gone) = CacheState::restore(&pages, 10);
    assert_eq!(gone.iter().map(|key| key.path.as_str()).collect::<Vec<_>>(), vec!["huge", "a"]);
    assert!(state.contains(&key("b", 0)));
    assert!(state.contains(&key("c", 0)));
    assert_eq!(state.bytes(), 8);
    let evicted = state.store(&key("d", 0), 4, 10);
    assert_eq!(evicted[0].path, "b");
}
