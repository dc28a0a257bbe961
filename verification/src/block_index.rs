//! The index of blocks and of their chunks.

use vstd::prelude::*;

use crate::config::ThanosRepositoryConfig;
#[allow(unused_imports)]
use crate::labels::{json_object, metric_label, names_contain};
use crate::labels::{labels_to_json, list_contains, overlaid, Labels};
use crate::name_set::NameSet;
#[allow(unused_imports)]
use crate::name_set::name_views;
use crate::sort::{reversed, stable_sort, Ranked};
#[allow(unused_imports)]
use crate::sort::{is_stable_sort, law_sorted_values_are_in_order};
use crate::sorted_map::SortedMap;
#[allow(unused_imports)]
use crate::sorted_map::{keys_increase, lemma_take_pairs, pairs_map, sorted_pairs};
use crate::storage::join_path;
#[allow(unused_imports)]
use crate::storage::path_joined;
use crate::table::{push_optional, push_required, Cell, Column, ColumnKind};
#[allow(unused_imports)]
use crate::table::{cell_models, cells_fit, column_models, optional, required, ColumnModel};
use crate::text::{
    compare, decimal, ends_with, joined, padded, rsplit_once, same, starts_with, strip_prefix,
    strip_suffix, Order,
};
#[allow(unused_imports)]
use crate::text::{
    decimal_text, digits_value, find_last, has_prefix, has_suffix, law_padded_numbers_are_read,
    law_texts_are_split_at_the_last_separator, lemma_str_lt_asymmetric, lemma_str_lt_total,
    lemma_str_lt_transitive, padded_text, split_at_last, str_lt,
};
use crate::tsdb_index::{Chunk, Series};
#[allow(unused_imports)]
use crate::tsdb_index::{series_models, SeriesModel};

verus! {

/// Why a block was not indexed.
#[derive(Clone, Copy, Debug, PartialEq, Eq, Structural)]
pub enum BlockIndexError {
    InvalidMetaPath,
    SizeOverflow,
    NoChunks,
    MissingName,
}

impl BlockIndexError {
    /// What the error says.
    pub open spec fn text(&self) -> Seq<char> {
        match self {
            BlockIndexError::InvalidMetaPath => "invalid metadata path"@,
            BlockIndexError::SizeOverflow => "the sizes of the block's files are too large"@,
            BlockIndexError::NoChunks => "series has no chunks"@,
            BlockIndexError::MissingName => "series is missing __name__ label"@,
        }
    }

    /// The text of the error.
    pub fn message(&self) -> (message: &'static str)
        ensures
            message@ == self.text(),
    {
        match self {
            BlockIndexError::InvalidMetaPath => "invalid metadata path",
            BlockIndexError::SizeOverflow => "the sizes of the block's files are too large",
            BlockIndexError::NoChunks => "series has no chunks",
            BlockIndexError::MissingName => "series is missing __name__ label",
        }
    }
}

/// The path that a location names, with or without the scheme of files.
pub open spec fn local_path(location: Seq<char>) -> Seq<char> {
    if has_prefix(location, "file://"@) {
        location.skip("file://"@.len() as int)
    } else {
        location
    }
}

fn without_scheme<'a>(location: &'a str) -> (path: &'a str)
    ensures
        path@ == local_path(location@),
{
    match strip_prefix(location, "file://") {
        Some(path) => path,
        None => location,
    }
}

/// The block index file of a cache directory.
pub fn block_index_file_path(index_cache_location: &str) -> (path: String)
    ensures
        path@ == path_joined(local_path(index_cache_location@), "block_index.parquet"@),
{
    join_path(without_scheme(index_cache_location), "block_index.parquet")
}

/// The directory of the chunk indexes in a cache directory.
pub fn chunk_index_directory_path(index_cache_location: &str) -> (path: String)
    ensures
        path@ == path_joined(local_path(index_cache_location@), "indexes"@),
{
    join_path(without_scheme(index_cache_location), "indexes")
}

/// The chunk index file of a block in a cache directory.
pub fn chunk_index_file_path(index_cache_location: &str, block_ulid: &str) -> (path: String)
    ensures
        path@ == path_joined(
            path_joined(local_path(index_cache_location@), "indexes"@),
            block_ulid@ + ".parquet"@,
        ),
{
    let directory = chunk_index_directory_path(index_cache_location);
    join_path(directory.as_str(), joined(block_ulid, ".parquet").as_str())
}

/// The directory that a refresh builds its indexes in, told apart from those of other refreshes by
/// the number of the process and by a running number.
pub fn generation_path(cache_root: &str, process: u32, sequence: u64) -> (path: String)
    ensures
        path@ == path_joined(
            path_joined(local_path(cache_root@), "refresh"@),
            decimal_text(process as int) + "-"@ + decimal_text(sequence as int),
        ),
{
    let directory = join_path(without_scheme(cache_root), "refresh");
    let mut name = joined(decimal(process as u64).as_str(), "-");
    name.append(decimal(sequence).as_str());
    join_path(directory.as_str(), name.as_str())
}

/// The path of the block whose metadata has a path, or nothing for other objects.
pub open spec fn block_of_path(path: Seq<char>) -> Result<Option<Seq<char>>, BlockIndexError> {
    if !has_suffix(path, "meta.json"@) {
        Ok(None)
    } else if has_suffix(path, "/meta.json"@) {
        Ok(Some(path.take(path.len() - "/meta.json"@.len())))
    } else {
        Err(BlockIndexError::InvalidMetaPath)
    }
}

/// The path of the block whose metadata has a path, or nothing for other objects.
pub fn block_path(path: &str) -> (result: Result<Option<String>, BlockIndexError>)
    ensures
        match result {
            Ok(Some(block)) => block_of_path(path@) == Ok::<
                Option<Seq<char>>,
                BlockIndexError,
            >(Some(block@)),
            Ok(None) => block_of_path(path@) == Ok::<Option<Seq<char>>, BlockIndexError>(None),
            Err(error) => block_of_path(path@) == Err::<Option<Seq<char>>, BlockIndexError>(error),
        },
{
    if !ends_with(path, "meta.json") {
        return Ok(None);
    }
    match strip_suffix(path, "/meta.json") {
        Some(block) => Ok(Some(block.to_owned())),
        None => Err(BlockIndexError::InvalidMetaPath),
    }
}

/// The path of the mark that a block is to be deleted.
pub open spec fn mark_path(block_path: Seq<char>) -> Seq<char> {
    if block_path.len() == 0 {
        "deletion-mark.json"@
    } else {
        block_path + "/"@ + "deletion-mark.json"@
    }
}

/// The path of the mark that a block is to be deleted.
pub fn deletion_mark_path(block_path: &str) -> (path: String)
    ensures
        path@ == mark_path(block_path@),
{
    if block_path.is_empty() {
        "deletion-mark.json".to_owned()
    } else {
        let mut path = joined(block_path, "/");
        path.append("deletion-mark.json");
        path
    }
}

/// The path of the index of a block.
pub fn block_index_path(block_path: &str) -> (path: String)
    ensures
        path@ == block_path@ + "/index"@,
{
    joined(block_path, "/index")
}

/// The block whose chunk index a file of the cache is.
pub open spec fn indexed_block(file_name: Seq<char>) -> Option<Seq<char>> {
    match split_at_last(file_name, '.') {
        Some((stem, extension)) => if stem.len() > 0 && extension == "parquet"@ {
            Some(stem)
        } else {
            None
        },
        None => None,
    }
}

/// A file is the chunk index of a block that is not there any more.
pub open spec fn is_stale_index(file_name: Seq<char>, active: Set<Seq<char>>) -> bool {
    match indexed_block(file_name) {
        Some(block) => !active.contains(block),
        None => false,
    }
}

fn is_stale(file_name: &str, active: &NameSet) -> (stale: bool)
    ensures
        stale == is_stale_index(file_name@, active@),
{
    match rsplit_once(file_name, '.') {
        Some((stem, extension)) => if !stem.is_empty() && same(extension, "parquet") {
            !active.contains(stem)
        } else {
            false
        },
        None => false,
    }
}

/// The files of the index directory that are chunk indexes of blocks that are not there any more.
pub fn stale_chunk_indexes(file_names: &Vec<String>, active: &NameSet) -> (stale: Vec<String>)
    ensures
        name_views(stale@) == name_views(file_names@).filter(
            |name: Seq<char>| is_stale_index(name, active@),
        ),
{
    let mut stale: Vec<String> = Vec::new();
    let mut i: usize = 0;
    let ghost views = name_views(file_names@);
    let ghost condition = |name: Seq<char>| is_stale_index(name, active@);
    proof {
        reveal(Seq::filter);
        assert(views.take(0).filter(condition) =~= name_views(stale@));
    }
    while i < file_names.len()
        invariant
            i <= file_names.len(),
            views == name_views(file_names@),
            condition == (|name: Seq<char>| is_stale_index(name, active@)),
            name_views(stale@) == views.take(i as int).filter(condition),
        decreases file_names.len() - i,
    {
        proof {
            reveal(Seq::filter);
            assert(views.take(i + 1).drop_last() =~= views.take(i as int));
            assert(views.take(i + 1).last() == file_names@[i as int]@);
        }
        if is_stale(file_names[i].as_str(), active) {
            let ghost before = stale@;
            stale.push(file_names[i].clone());
            assert(name_views(stale@) =~= name_views(before).push(file_names@[i as int]@));
        }
        i = i + 1;
    }
    assert(views.take(file_names@.len() as int) =~= views);
    stale
}

proof fn lemma_last_dot(stem: Seq<char>, end: int)
    requires
        stem.len() < end <= stem.len() + ".parquet"@.len(),
    ensures
        find_last(stem + ".parquet"@, '.', end) == Some(stem.len() as int),
    decreases end,
{
    reveal_strlit(".parquet");
    let name = stem + ".parquet"@;
    if end > stem.len() + 1 {
        assert(name[end - 1] == ".parquet"@[end - 1 - stem.len()]);
        lemma_last_dot(stem, end - 1);
    } else {
        assert(name[end - 1] == ".parquet"@[0]);
    }
}

/// Cleaning the cache up removes the chunk index of a block if and only if the block is not active.
pub proof fn law_cleanup_removes_inactive_indexes(block: Seq<char>, active: Set<Seq<char>>)
    requires
        block.len() > 0,
    ensures
        is_stale_index(block + ".parquet"@, active) == !active.contains(block),
{
    reveal_strlit(".parquet");
    reveal_strlit("parquet");
    let name = block + ".parquet"@;
    lemma_last_dot(block, name.len() as int);
    assert(name.take(block.len() as int) =~= block);
    assert(name.skip(block.len() as int + 1) =~= "parquet"@);
}

/// The metadata of a block.
pub struct BlockMeta {
    pub ulid: String,
    pub min_time: i64,
    pub max_time: i64,
    pub version: i32,
    pub stats: BlockStats,
    pub compaction: Compaction,
    pub thanos: ThanosMeta,
}

/// How much a block holds.
#[derive(Clone, Copy, Debug)]
pub struct BlockStats {
    pub num_samples: u64,
    pub num_float_samples: u64,
    pub num_histogram_samples: u64,
    pub num_series: u64,
    pub num_chunks: u64,
}

impl Default for BlockStats {
    fn default() -> (stats: Self)
        ensures
            stats == (BlockStats {
                num_samples: 0,
                num_float_samples: 0,
                num_histogram_samples: 0,
                num_series: 0,
                num_chunks: 0,
            }),
    {
        BlockStats {
            num_samples: 0,
            num_float_samples: 0,
            num_histogram_samples: 0,
            num_series: 0,
            num_chunks: 0,
        }
    }
}

/// What a block was compacted from.
pub struct Compaction {
    pub level: i32,
    pub sources: Vec<String>,
}

impl Default for Compaction {
    fn default() -> (compaction: Self)
        ensures
            compaction.level == 0,
            compaction.sources@ == Seq::<String>::empty(),
    {
        Compaction { level: 0, sources: Vec::new() }
    }
}

/// What a bucket says of a block: its external labels, its resolution and its files.
pub struct ThanosMeta {
    pub labels: Labels,
    pub resolution: i64,
    pub source: String,
    pub files: Vec<BlockFile>,
    pub series_max_size: Option<i64>,
    pub upload_time: Option<String>,
}

impl Default for ThanosMeta {
    fn default() -> (meta: Self)
        ensures
            meta.labels@ == Map::<Seq<char>, Seq<char>>::empty(),
            meta.resolution == 0,
            meta.source@ == Seq::<char>::empty(),
            meta.files@ == Seq::<BlockFile>::empty(),
            meta.series_max_size is None,
            meta.upload_time is None,
    {
        ThanosMeta {
            labels: SortedMap::new(),
            resolution: 0,
            source: String::new(),
            files: Vec::new(),
            series_max_size: None,
            upload_time: None,
        }
    }
}

/// A file of a block.
pub struct BlockFile {
    pub rel_path: String,
    pub size_bytes: u64,
}

/// The row of a block in the block index.
pub struct BlockIndexRow {
    pub repository_name: String,
    pub repository_uri: String,
    pub block_ulid: String,
    pub block_path: String,
    pub meta_path: String,
    pub min_time: i64,
    pub max_time: i64,
    pub downsample_resolution: i64,
    pub external_labels: String,
    pub external_labels_map: Labels,
    pub source: String,
    pub upload_time: Option<String>,
    pub version: i32,
    pub compaction_level: i32,
    pub compaction_sources: Vec<String>,
    pub num_samples: u64,
    pub num_float_samples: u64,
    pub num_histogram_samples: u64,
    pub num_series: u64,
    pub num_chunks: u64,
    pub index_series_max_size: Option<i64>,
    pub index_size_bytes: u64,
    pub chunks_size_bytes: u64,
    pub total_size_bytes: u64,
    pub files: String,
}

/// The part of a block that a file belongs to.
pub enum FilePart {
    Index,
    Chunks,
    Any,
}

impl FilePart {
    /// A file belongs to the part.
    pub open spec fn holds(&self, file: BlockFile) -> bool {
        match self {
            FilePart::Index => file.rel_path@ == "index"@,
            FilePart::Chunks => has_prefix(file.rel_path@, "chunks/"@),
            FilePart::Any => true,
        }
    }
}

/// The sizes of the files of a part, taken together.
pub open spec fn part_size(files: Seq<BlockFile>, part: FilePart) -> int
    decreases files.len(),
{
    if files.len() == 0 {
        0
    } else {
        let size: int = if part.holds(files.last()) {
            files.last().size_bytes as int
        } else {
            0
        };
        part_size(files.drop_last(), part) + size
    }
}

proof fn lemma_part_size(files: Seq<BlockFile>, n: int, part: FilePart)
    requires
        0 <= n <= files.len(),
    ensures
        0 <= part_size(files.take(n), part) <= part_size(files, FilePart::Any),
    decreases files.len() + n,
{
    if n < files.len() {
        assert(files.take(n) =~= files.drop_last().take(n));
        lemma_part_size(files.drop_last(), n, part);
    } else {
        assert(files.take(n) =~= files);
        if n > 0 {
            assert(files.drop_last().take(n - 1) =~= files.drop_last());
            lemma_part_size(files.drop_last(), n - 1, part);
        }
    }
}

/// The sizes of the files for the index, for the chunks and in all, unless they are too large.
fn file_sizes(files: &Vec<BlockFile>) -> (result: Option<(u64, u64, u64)>)
    ensures
        match result {
            Some((index, chunks, total)) => {
                &&& index == part_size(files@, FilePart::Index)
                &&& chunks == part_size(files@, FilePart::Chunks)
                &&& total == part_size(files@, FilePart::Any)
            },
            None => part_size(files@, FilePart::Any) > u64::MAX,
        },
{
    let mut index: u64 = 0;
    let mut chunks: u64 = 0;
    let mut total: u64 = 0;
    let mut i: usize = 0;
    while i < files.len()
        invariant
            i <= files.len(),
            index == part_size(files@.take(i as int), FilePart::Index),
            chunks == part_size(files@.take(i as int), FilePart::Chunks),
            total == part_size(files@.take(i as int), FilePart::Any),
        decreases files.len() - i,
    {
        let ghost longer = files@.take(i + 1);
        proof {
            assert(longer.drop_last() =~= files@.take(i as int));
            assert(longer.take(i + 1) =~= longer);
            lemma_part_size(longer, i + 1, FilePart::Index);
            lemma_part_size(longer, i + 1, FilePart::Chunks);
            lemma_part_size(files@, i + 1, FilePart::Any);
        }
        let size: u64 = files[i].size_bytes;
        match total.checked_add(size) {
            Some(sum) => {
                total = sum;
            },
            None => {
                return None;
            },
        }
        if same(files[i].rel_path.as_str(), "index") {
            index = index + size;
        }
        if starts_with(files[i].rel_path.as_str(), "chunks/") {
            chunks = chunks + size;
        }
        i = i + 1;
    }
    assert(files@.take(files@.len() as int) =~= files@);
    Some((index, chunks, total))
}

impl BlockIndexRow {
    /// The row says of a block what its metadata and its place say.
    pub open spec fn describes(
        &self,
        repository: ThanosRepositoryConfig,
        meta: BlockMeta,
        block_path: Seq<char>,
        meta_path: Seq<char>,
        files: Seq<char>,
    ) -> bool {
        &&& self.repository_name@ == repository.name@
        &&& self.repository_uri@ == repository.uri@
        &&& self.block_ulid@ == meta.ulid@
        &&& self.block_path@ == block_path
        &&& self.meta_path@ == meta_path
        &&& self.min_time == meta.min_time
        &&& self.max_time == meta.max_time
        &&& self.downsample_resolution == meta.thanos.resolution
        &&& self.external_labels@ == json_object(meta.thanos.labels.pairs())
        &&& self.external_labels_map == meta.thanos.labels
        &&& self.source == meta.thanos.source
        &&& self.upload_time == meta.thanos.upload_time
        &&& self.version == meta.version
        &&& self.compaction_level == meta.compaction.level
        &&& self.compaction_sources == meta.compaction.sources
        &&& self.num_samples == meta.stats.num_samples
        &&& self.num_float_samples == meta.stats.num_float_samples
        &&& self.num_histogram_samples == meta.stats.num_histogram_samples
        &&& self.num_series == meta.stats.num_series
        &&& self.num_chunks == meta.stats.num_chunks
        &&& self.index_series_max_size == meta.thanos.series_max_size
        &&& self.index_size_bytes == part_size(meta.thanos.files@, FilePart::Index)
        &&& self.chunks_size_bytes == part_size(meta.thanos.files@, FilePart::Chunks)
        &&& self.total_size_bytes == part_size(meta.thanos.files@, FilePart::Any)
        &&& self.files@ == files
    }
}

/// The row of a block. `files` is the JSON form of the list of the block's files.
pub fn index_row(
    repository: &ThanosRepositoryConfig,
    meta: BlockMeta,
    block_path: String,
    meta_path: String,
    files: String,
) -> (result: Result<BlockIndexRow, BlockIndexError>)
    ensures
        match result {
            Ok(row) => row.describes(*repository, meta, block_path@, meta_path@, files@),
            Err(error) => error == BlockIndexError::SizeOverflow && part_size(
                meta.thanos.files@,
                FilePart::Any,
            ) > u64::MAX,
        },
        result is Ok <==> part_size(meta.thanos.files@, FilePart::Any) <= u64::MAX,
        result matches Ok(row) ==> {
            &&& row.repository_name@ == repository.name@
            &&& row.repository_uri@ == repository.uri@
            &&& row.block_ulid == meta.ulid
            &&& row.block_path == block_path
            &&& row.meta_path == meta_path
            &&& row.min_time == meta.min_time
            &&& row.max_time == meta.max_time
            &&& row.downsample_resolution == meta.thanos.resolution
            &&& row.external_labels@ == json_object(meta.thanos.labels.pairs())
            &&& row.external_labels_map == meta.thanos.labels
            &&& row.source == meta.thanos.source
            &&& row.upload_time == meta.thanos.upload_time
            &&& row.version == meta.version
            &&& row.compaction_level == meta.compaction.level
            &&& row.compaction_sources == meta.compaction.sources
            &&& row.num_samples == meta.stats.num_samples
            &&& row.num_float_samples == meta.stats.num_float_samples
            &&& row.num_histogram_samples == meta.stats.num_histogram_samples
            &&& row.num_series == meta.stats.num_series
            &&& row.num_chunks == meta.stats.num_chunks
            &&& row.index_series_max_size == meta.thanos.series_max_size
            &&& row.index_size_bytes == part_size(meta.thanos.files@, FilePart::Index)
            &&& row.chunks_size_bytes == part_size(meta.thanos.files@, FilePart::Chunks)
            &&& row.total_size_bytes == part_size(meta.thanos.files@, FilePart::Any)
            &&& row.files == files
        },
{
    let (index_size_bytes, chunks_size_bytes, total_size_bytes) = match file_sizes(
        &meta.thanos.files,
    ) {
        Some(sizes) => sizes,
        None => {
            return Err(BlockIndexError::SizeOverflow);
        },
    };
    let external_labels = labels_to_json(&meta.thanos.labels);
    Ok(
        BlockIndexRow {
            repository_name: repository.name.clone(),
            repository_uri: repository.uri.clone(),
            block_ulid: meta.ulid,
            block_path,
            meta_path,
            min_time: meta.min_time,
            max_time: meta.max_time,
            downsample_resolution: meta.thanos.resolution,
            external_labels,
            external_labels_map: meta.thanos.labels,
            source: meta.thanos.source,
            upload_time: meta.thanos.upload_time,
            version: meta.version,
            compaction_level: meta.compaction.level,
            compaction_sources: meta.compaction.sources,
            num_samples: meta.stats.num_samples,
            num_float_samples: meta.stats.num_float_samples,
            num_histogram_samples: meta.stats.num_histogram_samples,
            num_series: meta.stats.num_series,
            num_chunks: meta.stats.num_chunks,
            index_series_max_size: meta.thanos.series_max_size,
            index_size_bytes,
            chunks_size_bytes,
            total_size_bytes,
            files,
        },
    )
}

/// The columns of the block index.
pub open spec fn block_table() -> Seq<ColumnModel> {
    seq![
        required("repository_name"@, ColumnKind::Text),
        required("repository_uri"@, ColumnKind::Text),
        required("block_ulid"@, ColumnKind::Text),
        required("block_path"@, ColumnKind::Text),
        required("meta_path"@, ColumnKind::Text),
        required("min_time"@, ColumnKind::Integer),
        required("max_time"@, ColumnKind::Integer),
        required("downsample_resolution"@, ColumnKind::Integer),
        required("external_labels"@, ColumnKind::Text),
        required("external_labels_map"@, ColumnKind::TextMap),
        required("source"@, ColumnKind::Text),
        optional("upload_time"@, ColumnKind::Text),
        required("version"@, ColumnKind::SmallInteger),
        required("compaction_level"@, ColumnKind::SmallInteger),
        optional("compaction_sources"@, ColumnKind::TextList),
        required("num_samples"@, ColumnKind::Unsigned),
        required("num_float_samples"@, ColumnKind::Unsigned),
        required("num_histogram_samples"@, ColumnKind::Unsigned),
        required("num_series"@, ColumnKind::Unsigned),
        required("num_chunks"@, ColumnKind::Unsigned),
        optional("index_series_max_size"@, ColumnKind::Integer),
        required("index_size_bytes"@, ColumnKind::Unsigned),
        required("chunks_size_bytes"@, ColumnKind::Unsigned),
        required("total_size_bytes"@, ColumnKind::Unsigned),
        required("files"@, ColumnKind::Text),
    ]
}

/// The columns of the block index.
pub fn block_columns() -> (columns: Vec<Column>)
    ensures
        column_models(columns@) == block_table(),
{
    let mut columns: Vec<Column> = Vec::new();
    push_required(&mut columns, "repository_name", ColumnKind::Text);
    push_required(&mut columns, "repository_uri", ColumnKind::Text);
    push_required(&mut columns, "block_ulid", ColumnKind::Text);
    push_required(&mut columns, "block_path", ColumnKind::Text);
    push_required(&mut columns, "meta_path", ColumnKind::Text);
    push_required(&mut columns, "min_time", ColumnKind::Integer);
    push_required(&mut columns, "max_time", ColumnKind::Integer);
    push_required(&mut columns, "downsample_resolution", ColumnKind::Integer);
    push_required(&mut columns, "external_labels", ColumnKind::Text);
    push_required(&mut columns, "external_labels_map", ColumnKind::TextMap);
    push_required(&mut columns, "source", ColumnKind::Text);
    push_optional(&mut columns, "upload_time", ColumnKind::Text);
    push_required(&mut columns, "version", ColumnKind::SmallInteger);
    push_required(&mut columns, "compaction_level", ColumnKind::SmallInteger);
    push_optional(&mut columns, "compaction_sources", ColumnKind::TextList);
    push_required(&mut columns, "num_samples", ColumnKind::Unsigned);
    push_required(&mut columns, "num_float_samples", ColumnKind::Unsigned);
    push_required(&mut columns, "num_histogram_samples", ColumnKind::Unsigned);
    push_required(&mut columns, "num_series", ColumnKind::Unsigned);
    push_required(&mut columns, "num_chunks", ColumnKind::Unsigned);
    push_optional(&mut columns, "index_series_max_size", ColumnKind::Integer);
    push_required(&mut columns, "index_size_bytes", ColumnKind::Unsigned);
    push_required(&mut columns, "chunks_size_bytes", ColumnKind::Unsigned);
    push_required(&mut columns, "total_size_bytes", ColumnKind::Unsigned);
    push_required(&mut columns, "files", ColumnKind::Text);
    assert(column_models(columns@) =~= block_table());
    columns
}

/// A text that may be missing.
pub open spec fn optional_text(text: Option<String>) -> Cell {
    match text {
        Some(text) => Cell::Text(text),
        None => Cell::Null,
    }
}

/// A number that may be missing.
pub open spec fn optional_integer(number: Option<i64>) -> Cell {
    match number {
        Some(number) => Cell::Integer(number),
        None => Cell::Null,
    }
}

/// The cells of a row of the block index.
pub open spec fn block_row_cells(row: BlockIndexRow) -> Seq<Cell> {
    seq![
        Cell::Text(row.repository_name),
        Cell::Text(row.repository_uri),
        Cell::Text(row.block_ulid),
        Cell::Text(row.block_path),
        Cell::Text(row.meta_path),
        Cell::Integer(row.min_time),
        Cell::Integer(row.max_time),
        Cell::Integer(row.downsample_resolution),
        Cell::Text(row.external_labels),
        Cell::TextMap(row.external_labels_map),
        Cell::Text(row.source),
        optional_text(row.upload_time),
        Cell::SmallInteger(row.version),
        Cell::SmallInteger(row.compaction_level),
        Cell::TextList(row.compaction_sources),
        Cell::Unsigned(row.num_samples),
        Cell::Unsigned(row.num_float_samples),
        Cell::Unsigned(row.num_histogram_samples),
        Cell::Unsigned(row.num_series),
        Cell::Unsigned(row.num_chunks),
        optional_integer(row.index_series_max_size),
        Cell::Unsigned(row.index_size_bytes),
        Cell::Unsigned(row.chunks_size_bytes),
        Cell::Unsigned(row.total_size_bytes),
        Cell::Text(row.files),
    ]
}

/// The cells of a row of the block index, in the order of the columns.
pub fn block_cells(row: BlockIndexRow) -> (cells: Vec<Cell>)
    ensures
        cells@ == block_row_cells(row),
        cells_fit(cell_models(cells@), block_table()),
{
    let ghost whole = row;
    let upload_time = match row.upload_time {
        Some(text) => Cell::Text(text),
        None => Cell::Null,
    };
    let index_series_max_size = match row.index_series_max_size {
        Some(number) => Cell::Integer(number),
        None => Cell::Null,
    };
    let mut cells: Vec<Cell> = Vec::new();
    cells.push(Cell::Text(row.repository_name));
    cells.push(Cell::Text(row.repository_uri));
    cells.push(Cell::Text(row.block_ulid));
    cells.push(Cell::Text(row.block_path));
    cells.push(Cell::Text(row.meta_path));
    cells.push(Cell::Integer(row.min_time));
    cells.push(Cell::Integer(row.max_time));
    cells.push(Cell::Integer(row.downsample_resolution));
    cells.push(Cell::Text(row.external_labels));
    cells.push(Cell::TextMap(row.external_labels_map));
    cells.push(Cell::Text(row.source));
    cells.push(upload_time);
    cells.push(Cell::SmallInteger(row.version));
    cells.push(Cell::SmallInteger(row.compaction_level));
    cells.push(Cell::TextList(row.compaction_sources));
    cells.push(Cell::Unsigned(row.num_samples));
    cells.push(Cell::Unsigned(row.num_float_samples));
    cells.push(Cell::Unsigned(row.num_histogram_samples));
    cells.push(Cell::Unsigned(row.num_series));
    cells.push(Cell::Unsigned(row.num_chunks));
    cells.push(index_series_max_size);
    cells.push(Cell::Unsigned(row.index_size_bytes));
    cells.push(Cell::Unsigned(row.chunks_size_bytes));
    cells.push(Cell::Unsigned(row.total_size_bytes));
    cells.push(Cell::Text(row.files));
    assert(cells@ =~= block_row_cells(whole));
    cells
}

impl Ranked for BlockIndexRow {
    open spec fn before(&self, other: &Self) -> bool {
        ||| str_lt(self.repository_name@, other.repository_name@)
        ||| self.repository_name@ == other.repository_name@ && self.min_time < other.min_time
        ||| {
            &&& self.repository_name@ == other.repository_name@
            &&& self.min_time == other.min_time
            &&& !str_lt(other.block_ulid@, self.block_ulid@)
        }
    }

    proof fn lemma_total(a: &Self, b: &Self) {
        lemma_str_lt_total(a.repository_name@, b.repository_name@);
        lemma_str_lt_asymmetric(a.block_ulid@, b.block_ulid@);
    }

    proof fn lemma_transitive(a: &Self, b: &Self, c: &Self) {
        if str_lt(a.repository_name@, b.repository_name@) && str_lt(
            b.repository_name@,
            c.repository_name@,
        ) {
            lemma_str_lt_transitive(a.repository_name@, b.repository_name@, c.repository_name@);
        }
        if str_lt(c.block_ulid@, a.block_ulid@) {
            lemma_str_lt_total(b.block_ulid@, a.block_ulid@);
            if str_lt(a.block_ulid@, b.block_ulid@) {
                lemma_str_lt_transitive(c.block_ulid@, a.block_ulid@, b.block_ulid@);
            }
        }
    }

    fn may_precede(&self, other: &Self) -> (result: bool) {
        match compare(self.repository_name.as_str(), other.repository_name.as_str()) {
            Order::Less => true,
            Order::Greater => {
                proof {
                    lemma_str_lt_asymmetric(other.repository_name@, self.repository_name@);
                }
                false
            },
            Order::Equal => {
                proof {
                    lemma_str_lt_asymmetric(self.repository_name@, other.repository_name@);
                    lemma_str_lt_asymmetric(self.block_ulid@, other.block_ulid@);
                }
                if self.min_time < other.min_time {
                    true
                } else if other.min_time < self.min_time {
                    false
                } else {
                    match compare(self.block_ulid.as_str(), other.block_ulid.as_str()) {
                        Order::Less => true,
                        Order::Equal => true,
                        Order::Greater => false,
                    }
                }
            },
        }
    }
}

/// The row of a chunk in the chunk index.
pub struct ChunkIndexRow {
    pub repository_name: String,
    pub repository_uri: String,
    pub block_ulid: String,
    pub block_path: String,
    pub downsample_resolution: i64,
    pub metric_name: String,
    pub chunk_file_path: String,
    pub chunk_ref: u64,
    pub chunk_file_seq: u32,
    pub chunk_file_offset: u64,
    pub series_ref: u64,
    pub series_mint: i64,
    pub series_maxt: i64,
    pub chunk_mint: i64,
    pub chunk_maxt: i64,
    pub labels: Labels,
    pub labels_json: String,
}

/// What the row of a chunk says.
#[verifier::ext_equal]
pub struct ChunkRowModel {
    pub repository_name: Seq<char>,
    pub repository_uri: Seq<char>,
    pub block_ulid: Seq<char>,
    pub block_path: Seq<char>,
    pub downsample_resolution: int,
    pub metric_name: Seq<char>,
    pub chunk_file_path: Seq<char>,
    pub chunk_ref: int,
    pub chunk_file_seq: int,
    pub chunk_file_offset: int,
    pub series_ref: int,
    pub series_mint: int,
    pub series_maxt: int,
    pub chunk_mint: int,
    pub chunk_maxt: int,
    pub labels: Map<Seq<char>, Seq<char>>,
    pub labels_json: Seq<char>,
}

impl View for ChunkIndexRow {
    type V = ChunkRowModel;

    open spec fn view(&self) -> ChunkRowModel {
        ChunkRowModel {
            repository_name: self.repository_name@,
            repository_uri: self.repository_uri@,
            block_ulid: self.block_ulid@,
            block_path: self.block_path@,
            downsample_resolution: self.downsample_resolution as int,
            metric_name: self.metric_name@,
            chunk_file_path: self.chunk_file_path@,
            chunk_ref: self.chunk_ref as int,
            chunk_file_seq: self.chunk_file_seq as int,
            chunk_file_offset: self.chunk_file_offset as int,
            series_ref: self.series_ref as int,
            series_mint: self.series_mint as int,
            series_maxt: self.series_maxt as int,
            chunk_mint: self.chunk_mint as int,
            chunk_maxt: self.chunk_maxt as int,
            labels: self.labels@,
            labels_json: self.labels_json@,
        }
    }
}

/// What the rows of a list say.
pub open spec fn chunk_rows(rows: Seq<ChunkIndexRow>) -> Seq<ChunkRowModel> {
    rows.map_values(|row: ChunkIndexRow| row@)
}

/// The number of the file that a reference of a chunk points into; the first file has the number
/// zero.
pub open spec fn chunk_sequence(reference: int) -> int {
    reference / 0x1_0000_0000
}

/// The offset in its file that a reference of a chunk points to.
pub open spec fn chunk_offset(reference: int) -> int {
    reference % 0x1_0000_0000
}

/// The name of a file of chunks. The names count from one on and have six digits or more.
pub open spec fn chunk_file(sequence: int) -> Seq<char> {
    let number = sequence + 1;
    if decimal_text(number).len() < 6 {
        padded_text(number, 6)
    } else {
        decimal_text(number)
    }
}

/// The path of the file in a block that holds a chunk.
pub open spec fn chunk_path(block_path: Seq<char>, reference: int) -> Seq<char> {
    block_path + "/chunks/"@ + chunk_file(chunk_sequence(reference))
}

/// Two references of chunks that point to the same file and offset are equal.
pub proof fn law_references_name_places(first: u64, second: u64)
    ensures
        chunk_sequence(first as int) == chunk_sequence(second as int) && chunk_offset(first as int)
            == chunk_offset(second as int) ==> first == second,
        0 <= chunk_sequence(first as int) <= u32::MAX,
        0 <= chunk_offset(first as int) <= u32::MAX,
{
}

/// The name of a file of chunks, under the directory of chunks.
pub fn chunk_file_name(reference: u64) -> (name: String)
    ensures
        name@ == chunk_file(chunk_sequence(reference as int)),
{
    padded(reference / 0x1_0000_0000 + 1, 6)
}

/// The labels under which a series of a block is known: those of the series, with the external
/// labels of the block put over them.
pub open spec fn series_labels(
    labels: Map<Seq<char>, Seq<char>>,
    external: Map<Seq<char>, Seq<char>>,
) -> Map<Seq<char>, Seq<char>> {
    labels.union_prefer_right(external)
}

/// The row of the chunk at a position of a series.
pub open spec fn chunk_row(
    repository: ThanosRepositoryConfig,
    meta: BlockMeta,
    block_path: Seq<char>,
    series: SeriesModel,
    index: int,
) -> ChunkRowModel {
    let chunk = series.chunks[index];
    let labels = series_labels(series.labels, meta.thanos.labels@);
    ChunkRowModel {
        repository_name: repository.name@,
        repository_uri: repository.uri@,
        block_ulid: meta.ulid@,
        block_path,
        downsample_resolution: meta.thanos.resolution as int,
        metric_name: series.labels[metric_label()],
        chunk_file_path: chunk_path(block_path, chunk.reference as int),
        chunk_ref: chunk.reference as int,
        chunk_file_seq: chunk_sequence(chunk.reference as int),
        chunk_file_offset: chunk_offset(chunk.reference as int),
        series_ref: series.reference,
        series_mint: series.chunks.first().mint as int,
        series_maxt: series.chunks.last().maxt as int,
        chunk_mint: chunk.mint as int,
        chunk_maxt: chunk.maxt as int,
        labels,
        labels_json: json_object(sorted_pairs(labels)),
    }
}

/// The rows of the chunks of a series.
pub open spec fn series_rows(
    repository: ThanosRepositoryConfig,
    meta: BlockMeta,
    block_path: Seq<char>,
    series: SeriesModel,
) -> Result<Seq<ChunkRowModel>, BlockIndexError> {
    if series.chunks.len() == 0 {
        Err(BlockIndexError::NoChunks)
    } else if !series.labels.contains_key(metric_label()) {
        Err(BlockIndexError::MissingName)
    } else {
        Ok(
            Seq::new(
                series.chunks.len(),
                |index: int| chunk_row(repository, meta, block_path, series, index),
            ),
        )
    }
}

impl ChunkIndexRow {
    /// The row is that of the chunk at a position of a series.
    pub open spec fn is_row_of(
        &self,
        repository: ThanosRepositoryConfig,
        meta: BlockMeta,
        block_path: Seq<char>,
        series: Series,
        index: int,
    ) -> bool {
        &&& self.repository_name@ == repository.name@
        &&& self.repository_uri@ == repository.uri@
        &&& self.block_ulid@ == meta.ulid@
        &&& self.block_path@ == block_path
        &&& self.downsample_resolution == meta.thanos.resolution
        &&& series.labels@.contains_key("__name__"@)
        &&& self.metric_name@ == series.labels@["__name__"@]
        &&& self.chunk_ref == series.chunks@[index].reference
        &&& self.chunk_file_seq * 0x1_0000_0000 + self.chunk_file_offset == self.chunk_ref
        &&& self.chunk_file_offset < 0x1_0000_0000
        &&& self.chunk_file_path@ == block_path + "/chunks/"@ + chunk_file(
            self.chunk_file_seq as int,
        )
        &&& self.series_ref == series.reference
        &&& self.series_mint == series.chunks@[0].mint
        &&& self.series_maxt == series.chunks@[series.chunks@.len() - 1].maxt
        &&& self.chunk_mint == series.chunks@[index].mint
        &&& self.chunk_maxt == series.chunks@[index].maxt
        &&& self.labels@ == series.labels@.union_prefer_right(meta.thanos.labels@)
        &&& self.labels_json@ == json_object(sorted_pairs(self.labels@))
    }
}

fn row_of_chunk(
    repository: &ThanosRepositoryConfig,
    meta: &BlockMeta,
    block_path: &str,
    series: &Series,
    index: usize,
    metric_name: &String,
    labels: &Labels,
    labels_json: &String,
) -> (row: ChunkIndexRow)
    requires
        index < series.chunks@.len(),
        series@.labels.contains_key(metric_label()),
        metric_name@ == series@.labels[metric_label()],
        labels@ == series_labels(series@.labels, meta.thanos.labels@),
        labels_json@ == json_object(sorted_pairs(labels@)),
    ensures
        row@ == chunk_row(*repository, *meta, block_path@, series@, index as int),
        row.is_row_of(*repository, *meta, block_path@, *series, index as int),
{
    let chunk: Chunk = series.chunks[index];
    let mut chunk_file_path = joined(block_path, "/chunks/");
    chunk_file_path.append(chunk_file_name(chunk.reference).as_str());
    ChunkIndexRow {
        repository_name: repository.name.clone(),
        repository_uri: repository.uri.clone(),
        block_ulid: meta.ulid.clone(),
        block_path: block_path.to_owned(),
        downsample_resolution: meta.thanos.resolution,
        metric_name: metric_name.clone(),
        chunk_file_path,
        chunk_ref: chunk.reference,
        chunk_file_seq: (chunk.reference / 0x1_0000_0000) as u32,
        chunk_file_offset: chunk.reference % 0x1_0000_0000,
        series_ref: series.reference,
        series_mint: series.chunks[0].mint,
        series_maxt: series.chunks[series.chunks.len() - 1].maxt,
        chunk_mint: chunk.mint,
        chunk_maxt: chunk.maxt,
        labels: crate::labels::copy_labels(labels),
        labels_json: labels_json.clone(),
    }
}

/// Adds the rows of the chunks of a series, and hands the number of them out.
pub fn append_chunk_rows(
    repository: &ThanosRepositoryConfig,
    meta: &BlockMeta,
    block_path: &str,
    series: &Series,
    rows: &mut Vec<ChunkIndexRow>,
) -> (result: Result<usize, BlockIndexError>)
    ensures
        match result {
            Ok(count) => {
                &&& series_rows(*repository, *meta, block_path@, series@) matches Ok(added)
                &&& chunk_rows(final(rows)@) == chunk_rows(old(rows)@) + added
                &&& count == added.len()
                &&& count == series.chunks@.len()
                &&& final(rows)@.len() == old(rows)@.len() + count
                &&& final(rows)@.take(old(rows)@.len() as int) == old(rows)@
                &&& forall|i: int|
                    0 <= i < count ==> (#[trigger] final(rows)@[old(rows)@.len() + i]).is_row_of(
                        *repository,
                        *meta,
                        block_path@,
                        *series,
                        i,
                    )
            },
            Err(error) => {
                &&& series_rows(*repository, *meta, block_path@, series@) == Err::<
                    Seq<ChunkRowModel>,
                    BlockIndexError,
                >(error)
                &&& final(rows)@ == old(rows)@
            },
        },
{
    if series.chunks.len() == 0 {
        return Err(BlockIndexError::NoChunks);
    }
    let metric_name = match series.labels.get("__name__") {
        Some(name) => name.clone(),
        None => {
            return Err(BlockIndexError::MissingName);
        },
    };
    let labels = overlaid(&series.labels, &meta.thanos.labels);
    let labels_json = labels_to_json(&labels);
    let _count = labels.len();
    let ghost before = chunk_rows(rows@);
    let ghost start = rows@;
    assert(rows@.take(start.len() as int) =~= start);
    let ghost added = series_rows(*repository, *meta, block_path@, series@)->Ok_0;
    let mut i: usize = 0;
    assert(before + added.take(0) =~= before);
    while i < series.chunks.len()
        invariant
            i <= series.chunks@.len(),
            series@.labels.contains_key(metric_label()),
            metric_name@ == series@.labels[metric_label()],
            labels@ == series_labels(series@.labels, meta.thanos.labels@),
            labels_json@ == json_object(sorted_pairs(labels@)),
            series.chunks@.len() > 0,
            series_rows(*repository, *meta, block_path@, series@) == Ok::<
                Seq<ChunkRowModel>,
                BlockIndexError,
            >(added),
            chunk_rows(rows@) == before + added.take(i as int),
            start.len() + i == rows@.len(),
            rows@.take(start.len() as int) == start,
            forall|k: int|
                0 <= k < i ==> (#[trigger] rows@[start.len() + k]).is_row_of(
                    *repository,
                    *meta,
                    block_path@,
                    *series,
                    k,
                ),
        decreases series.chunks.len() - i,
    {
        let ghost current = rows@;
        let row = row_of_chunk(
            repository,
            meta,
            block_path,
            series,
            i,
            &metric_name,
            &labels,
            &labels_json,
        );
        let ghost model = row@;
        rows.push(row);
        proof {
            assert(chunk_rows(rows@) =~= chunk_rows(current).push(model));
            assert(added.take(i + 1) =~= added.take(i as int).push(added[i as int]));
            assert(chunk_rows(rows@) =~= before + added.take(i + 1));
            assert(rows@.take(start.len() as int) =~= current.take(start.len() as int));
            assert forall|k: int| 0 <= k < i + 1 implies (#[trigger] rows@[start.len()
                + k]).is_row_of(*repository, *meta, block_path@, *series, k) by {
                if k < i {
                    assert(rows@[start.len() + k] == current[start.len() + k]);
                }
            }
        }
        i = i + 1;
    }
    assert(added.take(series.chunks@.len() as int) =~= added);
    Ok(series.chunks.len())
}

/// A label that the block has as an external label has the block's value in every row of the
/// block's series; every other label of a series keeps its value, and no further label appears.
pub proof fn law_external_labels_win(
    labels: Map<Seq<char>, Seq<char>>,
    external: Map<Seq<char>, Seq<char>>,
    name: Seq<char>,
)
    ensures
        external.contains_key(name) ==> series_labels(labels, external).contains_key(name)
            && series_labels(labels, external)[name] == external[name],
        !external.contains_key(name) && labels.contains_key(name) ==> series_labels(
            labels,
            external,
        ).contains_key(name) && series_labels(labels, external)[name] == labels[name],
        !external.contains_key(name) && !labels.contains_key(name) ==> !series_labels(
            labels,
            external,
        ).contains_key(name),
{
}

/// Each row that a series gives says of its chunk what the index and the metadata of the block say:
/// the times and the reference of the chunk, the number and offset that make up the reference, the
/// times of the whole series, its labels under those of the block, and the name, the place and the
/// resolution of the block.
pub proof fn law_chunk_rows_describe_their_chunks(
    repository: ThanosRepositoryConfig,
    meta: BlockMeta,
    block_path: Seq<char>,
    series: SeriesModel,
    index: int,
    label: Seq<char>,
)
    requires
        0 <= index < series.chunks.len(),
        series.labels.contains_key("__name__"@),
    ensures
        series_rows(repository, meta, block_path, series) is Ok,
        series_rows(repository, meta, block_path, series)->Ok_0.len() == series.chunks.len(),
        ({
            let row = series_rows(repository, meta, block_path, series)->Ok_0[index];
            let chunk = series.chunks[index];
            &&& row.repository_name == repository.name@
            &&& row.repository_uri == repository.uri@
            &&& row.block_ulid == meta.ulid@
            &&& row.block_path == block_path
            &&& row.downsample_resolution == meta.thanos.resolution
            &&& row.metric_name == series.labels["__name__"@]
            &&& row.chunk_ref == chunk.reference
            &&& row.chunk_file_seq * 0x1_0000_0000 + row.chunk_file_offset == chunk.reference
            &&& 0 <= row.chunk_file_offset < 0x1_0000_0000
            &&& row.chunk_file_path == block_path + "/chunks/"@ + chunk_file(row.chunk_file_seq)
            &&& row.series_ref == series.reference
            &&& row.series_mint == series.chunks[0].mint
            &&& row.series_maxt == series.chunks[series.chunks.len() - 1].maxt
            &&& row.chunk_mint == chunk.mint
            &&& row.chunk_maxt == chunk.maxt
            &&& row.labels_json == json_object(sorted_pairs(row.labels))
            &&& row.labels.contains_key(label) == (series.labels.contains_key(label)
                || meta.thanos.labels@.contains_key(label))
            &&& row.labels.contains_key(label) ==> row.labels[label] == (
            if meta.thanos.labels@.contains_key(label) {
                meta.thanos.labels@[label]
            } else {
                series.labels[label]
            })
        }),
{
}

/// A series gives rows unless it has no chunks or no name.
pub proof fn law_series_with_a_name_and_chunks_have_rows(
    repository: ThanosRepositoryConfig,
    meta: BlockMeta,
    block_path: Seq<char>,
    series: SeriesModel,
)
    ensures
        series_rows(repository, meta, block_path, series) is Ok <==> series.chunks.len() > 0
            && series.labels.contains_key("__name__"@),
        series_rows(repository, meta, block_path, series) == Err::<
            Seq<ChunkRowModel>,
            BlockIndexError,
        >(BlockIndexError::NoChunks) <==> series.chunks.len() == 0,
{
}

/// Each cell of a row of the chunk index stands under the name of what it holds.
pub proof fn law_chunk_cells_stand_in_their_columns(row: ChunkIndexRow)
    ensures
        chunk_table().len() == 17,
        chunk_row_cells(row).len() == 17,
        chunk_table()[0].name == "repository_name"@ && chunk_row_cells(row)[0] == Cell::Text(row.repository_name),
        chunk_table()[1].name == "repository_uri"@ && chunk_row_cells(row)[1] == Cell::Text(row.repository_uri),
        chunk_table()[2].name == "block_ulid"@ && chunk_row_cells(row)[2] == Cell::Text(row.block_ulid),
        chunk_table()[3].name == "block_path"@ && chunk_row_cells(row)[3] == Cell::Text(row.block_path),
        chunk_table()[4].name == "downsample_resolution"@ && chunk_row_cells(row)[4] == Cell::Integer(row.downsample_resolution),
        chunk_table()[5].name == "metric_name"@ && chunk_row_cells(row)[5] == Cell::Text(row.metric_name),
        chunk_table()[6].name == "chunk_file_path"@ && chunk_row_cells(row)[6] == Cell::Text(row.chunk_file_path),
        chunk_table()[7].name == "chunk_ref"@ && chunk_row_cells(row)[7] == Cell::Unsigned(row.chunk_ref),
        chunk_table()[8].name == "chunk_file_seq"@ && chunk_row_cells(row)[8] == Cell::SmallUnsigned(row.chunk_file_seq),
        chunk_table()[9].name == "chunk_file_offset"@ && chunk_row_cells(row)[9] == Cell::Unsigned(row.chunk_file_offset),
        chunk_table()[10].name == "series_ref"@ && chunk_row_cells(row)[10] == Cell::Unsigned(row.series_ref),
        chunk_table()[11].name == "series_mint"@ && chunk_row_cells(row)[11] == Cell::Integer(row.series_mint),
        chunk_table()[12].name == "series_maxt"@ && chunk_row_cells(row)[12] == Cell::Integer(row.series_maxt),
        chunk_table()[13].name == "chunk_mint"@ && chunk_row_cells(row)[13] == Cell::Integer(row.chunk_mint),
        chunk_table()[14].name == "chunk_maxt"@ && chunk_row_cells(row)[14] == Cell::Integer(row.chunk_maxt),
        chunk_table()[15].name == "labels"@ && chunk_row_cells(row)[15] == Cell::TextMap(row.labels),
        chunk_table()[16].name == "labels_json"@ && chunk_row_cells(row)[16] == Cell::Text(row.labels_json),
{
}

/// Each cell of a row of the block index stands under the name of what it holds.
pub proof fn law_block_cells_stand_in_their_columns(row: BlockIndexRow)
    ensures
        block_table().len() == 25,
        block_row_cells(row).len() == 25,
        block_table()[0].name == "repository_name"@ && block_row_cells(row)[0] == Cell::Text(row.repository_name),
        block_table()[1].name == "repository_uri"@ && block_row_cells(row)[1] == Cell::Text(row.repository_uri),
        block_table()[2].name == "block_ulid"@ && block_row_cells(row)[2] == Cell::Text(row.block_ulid),
        block_table()[3].name == "block_path"@ && block_row_cells(row)[3] == Cell::Text(row.block_path),
        block_table()[4].name == "meta_path"@ && block_row_cells(row)[4] == Cell::Text(row.meta_path),
        block_table()[5].name == "min_time"@ && block_row_cells(row)[5] == Cell::Integer(row.min_time),
        block_table()[6].name == "max_time"@ && block_row_cells(row)[6] == Cell::Integer(row.max_time),
        block_table()[7].name == "downsample_resolution"@ && block_row_cells(row)[7] == Cell::Integer(row.downsample_resolution),
        block_table()[8].name == "external_labels"@ && block_row_cells(row)[8] == Cell::Text(row.external_labels),
        block_table()[9].name == "external_labels_map"@ && block_row_cells(row)[9] == Cell::TextMap(row.external_labels_map),
        block_table()[10].name == "source"@ && block_row_cells(row)[10] == Cell::Text(row.source),
        block_table()[11].name == "upload_time"@ && block_row_cells(row)[11] == (match row.upload_time {
            Some(value) => Cell::Text(value),
            None => Cell::Null,
        }),
        block_table()[12].name == "version"@ && block_row_cells(row)[12] == Cell::SmallInteger(row.version),
        block_table()[13].name == "compaction_level"@ && block_row_cells(row)[13] == Cell::SmallInteger(row.compaction_level),
        block_table()[14].name == "compaction_sources"@ && block_row_cells(row)[14] == Cell::TextList(row.compaction_sources),
        block_table()[15].name == "num_samples"@ && block_row_cells(row)[15] == Cell::Unsigned(row.num_samples),
        block_table()[16].name == "num_float_samples"@ && block_row_cells(row)[16] == Cell::Unsigned(row.num_float_samples),
        block_table()[17].name == "num_histogram_samples"@ && block_row_cells(row)[17] == Cell::Unsigned(row.num_histogram_samples),
        block_table()[18].name == "num_series"@ && block_row_cells(row)[18] == Cell::Unsigned(row.num_series),
        block_table()[19].name == "num_chunks"@ && block_row_cells(row)[19] == Cell::Unsigned(row.num_chunks),
        block_table()[20].name == "index_series_max_size"@ && block_row_cells(row)[20] == (match row.index_series_max_size {
            Some(value) => Cell::Integer(value),
            None => Cell::Null,
        }),
        block_table()[21].name == "index_size_bytes"@ && block_row_cells(row)[21] == Cell::Unsigned(row.index_size_bytes),
        block_table()[22].name == "chunks_size_bytes"@ && block_row_cells(row)[22] == Cell::Unsigned(row.chunks_size_bytes),
        block_table()[23].name == "total_size_bytes"@ && block_row_cells(row)[23] == Cell::Unsigned(row.total_size_bytes),
        block_table()[24].name == "files"@ && block_row_cells(row)[24] == Cell::Text(row.files),
{
}

/// After the labels of series were collected, a name is known of a metric if it was known before, or
/// if a series of the metric has it, itself or from its block. The label that holds the metric's name
/// is not collected.
pub proof fn law_collected_names_are_those_of_the_series(
    metrics: Map<Seq<char>, Set<Seq<char>>>,
    external: Map<Seq<char>, Seq<char>>,
    series: Seq<SeriesModel>,
    metric: Seq<char>,
    name: Seq<char>,
)
    ensures
        names_of(collected_all(metrics, external, series), metric).contains(name) <==> {
            ||| names_of(metrics, metric).contains(name)
            ||| name != "__name__"@ && exists|i: int|
                0 <= i < series.len() && (#[trigger] series[i]).labels.contains_key("__name__"@)
                    && series[i].labels["__name__"@] == metric && (series[i].labels.contains_key(
                    name,
                ) || external.contains_key(name))
        },
        collected_all(metrics, external, series).contains_key(metric) <==> {
            ||| metrics.contains_key(metric)
            ||| exists|i: int|
                0 <= i < series.len() && (#[trigger] series[i]).labels.contains_key("__name__"@)
                    && series[i].labels["__name__"@] == metric
        },
    decreases series.len(),
{
    if series.len() > 0 {
        let rest = series.drop_last();
        law_collected_names_are_those_of_the_series(metrics, external, rest, metric, name);
        let last = series.len() - 1;
        assert forall|i: int| 0 <= i < rest.len() implies rest[i] == #[trigger] series[i] by {
        }
        if series[last].labels.contains_key("__name__"@) && series[last].labels["__name__"@]
            == metric {
            assert(series[last] == series.last());
        }
        if exists|i: int|
            0 <= i < rest.len() && (#[trigger] rest[i]).labels.contains_key("__name__"@)
                && rest[i].labels["__name__"@] == metric {
            let i = choose|i: int|
                0 <= i < rest.len() && (#[trigger] rest[i]).labels.contains_key("__name__"@)
                    && rest[i].labels["__name__"@] == metric;
            assert(series[i] == rest[i]);
        }
        if exists|i: int|
            0 <= i < rest.len() && (#[trigger] rest[i]).labels.contains_key("__name__"@)
                && rest[i].labels["__name__"@] == metric && (rest[i].labels.contains_key(name)
                || external.contains_key(name)) {
            let i = choose|i: int|
                0 <= i < rest.len() && (#[trigger] rest[i]).labels.contains_key("__name__"@)
                    && rest[i].labels["__name__"@] == metric && (rest[i].labels.contains_key(name)
                    || external.contains_key(name));
            assert(series[i] == rest[i]);
        }
        assert forall|i: int|
            0 <= i < series.len() && (#[trigger] series[i]).labels.contains_key("__name__"@)
                && series[i].labels["__name__"@] == metric && i < last implies rest[i].labels["__name__"@]
            == metric by {
            assert(rest[i] == series[i]);
        }
    }
}

/// Merging loses no label name and makes none up.
pub proof fn law_merged_names_are_those_of_both(
    first: Map<Seq<char>, Set<Seq<char>>>,
    second: Map<Seq<char>, Set<Seq<char>>>,
    metric: Seq<char>,
    name: Seq<char>,
)
    ensures
        names_of(merged(first, second), metric).contains(name) <==> names_of(
            first,
            metric,
        ).contains(name) || names_of(second, metric).contains(name),
        merged(first, second).contains_key(metric) <==> first.contains_key(metric)
            || second.contains_key(metric),
{
}

/// A file more makes the block larger by its size, the index where it is the index, and the chunks
/// where it lies in their directory.
pub proof fn law_files_add_their_size(files: Seq<BlockFile>, file: BlockFile)
    ensures
        part_size(files.push(file), FilePart::Any) == part_size(files, FilePart::Any)
            + file.size_bytes,
        part_size(files.push(file), FilePart::Index) == part_size(files, FilePart::Index) + (
        if file.rel_path@ == "index"@ {
            file.size_bytes as int
        } else {
            0
        }),
        part_size(files.push(file), FilePart::Chunks) == part_size(files, FilePart::Chunks) + (
        if file.rel_path@.len() >= 7 && file.rel_path@.take(7) == "chunks/"@ {
            file.size_bytes as int
        } else {
            0
        }),
        part_size(Seq::empty(), FilePart::Any) == 0,
        part_size(Seq::empty(), FilePart::Index) == 0,
        part_size(Seq::empty(), FilePart::Chunks) == 0,
{
    reveal_strlit("chunks/");
    assert(files.push(file).drop_last() =~= files);
}

/// A block replaces another one of its resolution exactly if it was compacted from all that the
/// other was compacted from, and from something more.
pub proof fn law_compacted_blocks_replace_their_sources(meta: BlockMeta, other: BlockMeta)
    ensures
        supersedes(meta, other) <==> {
            let mine = name_views(meta.compaction.sources@);
            let theirs = name_views(other.compaction.sources@);
            &&& meta.thanos.resolution == other.thanos.resolution
            &&& theirs.len() > 0
            &&& forall|i: int| 0 <= i < theirs.len() ==> mine.contains(#[trigger] theirs[i])
            &&& exists|i: int| 0 <= i < mine.len() && !theirs.contains(#[trigger] mine[i])
        },
{
    let mine = name_views(meta.compaction.sources@);
    let theirs = name_views(other.compaction.sources@);
    vstd::seq_lib::seq_to_set_is_finite(theirs);
    if theirs.len() > 0 {
        assert(theirs.to_set().contains(theirs[0]));
        if theirs.to_set().len() == 0 {
            assert(theirs.to_set() =~= Set::<Seq<char>>::empty());
        }
    } else {
        assert(theirs.to_set() =~= Set::<Seq<char>>::empty());
    }
    if supersedes(meta, other) {
        assert forall|i: int| 0 <= i < theirs.len() implies mine.contains(#[trigger] theirs[i]) by {
            assert(theirs.to_set().contains(theirs[i]));
            assert(mine.to_set().contains(theirs[i]));
        }
        if forall|i: int| 0 <= i < mine.len() ==> theirs.contains(#[trigger] mine[i]) {
            assert forall|name: Seq<char>|
                #[trigger] theirs.to_set().contains(name) == mine.to_set().contains(name) by {
                if mine.contains(name) {
                    assert(theirs.contains(mine[mine.index_of(name)]));
                }
            }
            assert(theirs.to_set() =~= mine.to_set());
        }
    }
    if (forall|i: int| 0 <= i < theirs.len() ==> mine.contains(#[trigger] theirs[i])) && (exists|
        i: int,
    | 0 <= i < mine.len() && !theirs.contains(#[trigger] mine[i])) {
        assert forall|name: Seq<char>| theirs.to_set().contains(name) implies mine.to_set().contains(
            name,
        ) by {
            assert(mine.contains(theirs[theirs.index_of(name)]));
        }
        let i = choose|i: int| 0 <= i < mine.len() && !theirs.contains(#[trigger] mine[i]);
        assert(mine.to_set().contains(mine[i]));
        assert(!theirs.to_set().contains(mine[i]));
    }
}

/// The metadata file of a block names the path of the block, and no other file is metadata.
pub proof fn law_metadata_names_its_block(block: Seq<char>, other: Seq<char>)
    ensures
        block_of_path(block + "/meta.json"@) == Ok::<Option<Seq<char>>, BlockIndexError>(
            Some(block),
        ),
        !has_suffix(other, "meta.json"@) ==> block_of_path(other) == Ok::<
            Option<Seq<char>>,
            BlockIndexError,
        >(None),
        block_of_path(other) matches Ok(Some(found)) ==> other == found + "/meta.json"@,
{
    let path = block + "/meta.json"@;
    reveal_strlit("meta.json");
    reveal_strlit("/meta.json");
    assert("/meta.json"@.skip(1) =~= "meta.json"@);
    assert(path.skip(path.len() - 9) =~= "meta.json"@);
    assert(path.skip(path.len() - 10) =~= "/meta.json"@);
    assert(path.take(block.len() as int) =~= block);
    if block_of_path(other) is Ok && block_of_path(other)->Ok_0 is Some {
        assert(other =~= block_of_path(other)->Ok_0->Some_0 + "/meta.json"@);
    }
}

/// The columns of the chunk index.
pub open spec fn chunk_table() -> Seq<ColumnModel> {
    seq![
        required("repository_name"@, ColumnKind::Text),
        required("repository_uri"@, ColumnKind::Text),
        required("block_ulid"@, ColumnKind::Text),
        required("block_path"@, ColumnKind::Text),
        required("downsample_resolution"@, ColumnKind::Integer),
        required("metric_name"@, ColumnKind::Text),
        required("chunk_file_path"@, ColumnKind::Text),
        required("chunk_ref"@, ColumnKind::Unsigned),
        required("chunk_file_seq"@, ColumnKind::SmallUnsigned),
        required("chunk_file_offset"@, ColumnKind::Unsigned),
        required("series_ref"@, ColumnKind::Unsigned),
        required("series_mint"@, ColumnKind::Integer),
        required("series_maxt"@, ColumnKind::Integer),
        required("chunk_mint"@, ColumnKind::Integer),
        required("chunk_maxt"@, ColumnKind::Integer),
        required("labels"@, ColumnKind::TextMap),
        required("labels_json"@, ColumnKind::Text),
    ]
}

/// The columns of the chunk index.
pub fn chunk_columns() -> (columns: Vec<Column>)
    ensures
        column_models(columns@) == chunk_table(),
{
    let mut columns: Vec<Column> = Vec::new();
    push_required(&mut columns, "repository_name", ColumnKind::Text);
    push_required(&mut columns, "repository_uri", ColumnKind::Text);
    push_required(&mut columns, "block_ulid", ColumnKind::Text);
    push_required(&mut columns, "block_path", ColumnKind::Text);
    push_required(&mut columns, "downsample_resolution", ColumnKind::Integer);
    push_required(&mut columns, "metric_name", ColumnKind::Text);
    push_required(&mut columns, "chunk_file_path", ColumnKind::Text);
    push_required(&mut columns, "chunk_ref", ColumnKind::Unsigned);
    push_required(&mut columns, "chunk_file_seq", ColumnKind::SmallUnsigned);
    push_required(&mut columns, "chunk_file_offset", ColumnKind::Unsigned);
    push_required(&mut columns, "series_ref", ColumnKind::Unsigned);
    push_required(&mut columns, "series_mint", ColumnKind::Integer);
    push_required(&mut columns, "series_maxt", ColumnKind::Integer);
    push_required(&mut columns, "chunk_mint", ColumnKind::Integer);
    push_required(&mut columns, "chunk_maxt", ColumnKind::Integer);
    push_required(&mut columns, "labels", ColumnKind::TextMap);
    push_required(&mut columns, "labels_json", ColumnKind::Text);
    assert(column_models(columns@) =~= chunk_table());
    columns
}

/// The cells of a row of the chunk index.
pub open spec fn chunk_row_cells(row: ChunkIndexRow) -> Seq<Cell> {
    seq![
        Cell::Text(row.repository_name),
        Cell::Text(row.repository_uri),
        Cell::Text(row.block_ulid),
        Cell::Text(row.block_path),
        Cell::Integer(row.downsample_resolution),
        Cell::Text(row.metric_name),
        Cell::Text(row.chunk_file_path),
        Cell::Unsigned(row.chunk_ref),
        Cell::SmallUnsigned(row.chunk_file_seq),
        Cell::Unsigned(row.chunk_file_offset),
        Cell::Unsigned(row.series_ref),
        Cell::Integer(row.series_mint),
        Cell::Integer(row.series_maxt),
        Cell::Integer(row.chunk_mint),
        Cell::Integer(row.chunk_maxt),
        Cell::TextMap(row.labels),
        Cell::Text(row.labels_json),
    ]
}

/// The cells of a row of the chunk index, in the order of the columns.
pub fn chunk_cells(row: ChunkIndexRow) -> (cells: Vec<Cell>)
    ensures
        cells@ == chunk_row_cells(row),
        cells_fit(cell_models(cells@), chunk_table()),
{
    let ghost whole = row;
    let mut cells: Vec<Cell> = Vec::new();
    cells.push(Cell::Text(row.repository_name));
    cells.push(Cell::Text(row.repository_uri));
    cells.push(Cell::Text(row.block_ulid));
    cells.push(Cell::Text(row.block_path));
    cells.push(Cell::Integer(row.downsample_resolution));
    cells.push(Cell::Text(row.metric_name));
    cells.push(Cell::Text(row.chunk_file_path));
    cells.push(Cell::Unsigned(row.chunk_ref));
    cells.push(Cell::SmallUnsigned(row.chunk_file_seq));
    cells.push(Cell::Unsigned(row.chunk_file_offset));
    cells.push(Cell::Unsigned(row.series_ref));
    cells.push(Cell::Integer(row.series_mint));
    cells.push(Cell::Integer(row.series_maxt));
    cells.push(Cell::Integer(row.chunk_mint));
    cells.push(Cell::Integer(row.chunk_maxt));
    cells.push(Cell::TextMap(row.labels));
    cells.push(Cell::Text(row.labels_json));
    assert(cells@ =~= chunk_row_cells(whole));
    cells
}

/// The label names of each metric.
pub type MetricLabels = SortedMap<NameSet>;

/// The label names known of a metric.
pub open spec fn names_of(
    metrics: Map<Seq<char>, Set<Seq<char>>>,
    metric: Seq<char>,
) -> Set<Seq<char>> {
    if metrics.contains_key(metric) {
        metrics[metric]
    } else {
        Set::empty()
    }
}

/// The label names with those of a series of a block added.
pub open spec fn collected(
    metrics: Map<Seq<char>, Set<Seq<char>>>,
    external: Map<Seq<char>, Seq<char>>,
    labels: Map<Seq<char>, Seq<char>>,
) -> Map<Seq<char>, Set<Seq<char>>> {
    if labels.contains_key(metric_label()) {
        let metric = labels[metric_label()];
        metrics.insert(
            metric,
            names_of(metrics, metric).union(labels.dom().remove(metric_label())).union(
                external.dom().remove(metric_label()),
            ),
        )
    } else {
        metrics
    }
}

/// The label names with those of the series of a block added.
pub open spec fn collected_all(
    metrics: Map<Seq<char>, Set<Seq<char>>>,
    external: Map<Seq<char>, Seq<char>>,
    series: Seq<SeriesModel>,
) -> Map<Seq<char>, Set<Seq<char>>>
    decreases series.len(),
{
    if series.len() == 0 {
        metrics
    } else {
        collected(
            collected_all(metrics, external, series.drop_last()),
            external,
            series.last().labels,
        )
    }
}

/// The label names of two sets, taken together.
pub open spec fn merged(
    first: Map<Seq<char>, Set<Seq<char>>>,
    second: Map<Seq<char>, Set<Seq<char>>>,
) -> Map<Seq<char>, Set<Seq<char>>> {
    Map::new(
        |metric: Seq<char>| first.contains_key(metric) || second.contains_key(metric),
        |metric: Seq<char>| names_of(first, metric).union(names_of(second, metric)),
    )
}

/// Adds the names of labels, without the name of the label that holds the metric's name.
fn add_label_names(names: &mut NameSet, labels: &Labels)
    ensures
        final(names)@ == old(names)@.union(labels@.dom().remove(metric_label())),
{
    let count: usize = labels.len();
    let mut i: usize = 0;
    let ghost before = names@;
    let ghost pairs = labels.pairs();
    assert(before.union(pairs_map(pairs.take(0)).dom().remove(metric_label())) =~= before);
    while i < count
        invariant
            i <= count == pairs.len(),
            pairs == labels.pairs(),
            keys_increase(pairs),
            names@ == before.union(pairs_map(pairs.take(i as int)).dom().remove(metric_label())),
        decreases count - i,
    {
        proof {
            lemma_take_pairs(pairs, i as int);
        }
        let ghost current = names@;
        let name = labels.key_at(i);
        if !same(name.as_str(), "__name__") {
            names.insert(name.clone());
        }
        assert(names@ =~= before.union(
            pairs_map(pairs.take(i + 1)).dom().remove(metric_label()),
        ));
        i = i + 1;
    }
    assert(pairs.take(count as int) =~= pairs);
}

/// Adds the label names of a series of a block.
fn collect_series_labels(metric_labels: &mut MetricLabels, external: &Labels, series: &Series)
    ensures
        final(metric_labels)@ == collected(old(metric_labels)@, external@, series@.labels),
{
    let metric = match series.labels.get("__name__") {
        Some(metric) => metric.clone(),
        None => {
            return;
        },
    };
    let ghost before = metric_labels@;
    let mut names = match metric_labels.remove(metric.as_str()) {
        Some(names) => names,
        None => NameSet::new(),
    };
    add_label_names(&mut names, &series.labels);
    add_label_names(&mut names, external);
    let ghost name = metric@;
    let ghost set = names@;
    metric_labels.insert(metric, names);
    assert(before.remove(name).insert(name, set) =~= before.insert(name, set));
}

/// Adds the label names of the series of a block.
pub fn collect_metric_labels(
    metric_labels: &mut MetricLabels,
    external_labels: &Labels,
    series: &[Series],
)
    ensures
        final(metric_labels)@ == collected_all(
            old(metric_labels)@,
            external_labels@,
            series_models(series@),
        ),
{
    let mut i: usize = 0;
    let ghost before = metric_labels@;
    let ghost models = series_models(series@);
    while i < series.len()
        invariant
            i <= series@.len(),
            models == series_models(series@),
            metric_labels@ == collected_all(before, external_labels@, models.take(i as int)),
        decreases series.len() - i,
    {
        assert(models.take(i + 1).drop_last() =~= models.take(i as int));
        assert(models.take(i + 1).last() == series@[i as int]@);
        collect_series_labels(metric_labels, external_labels, &series[i]);
        i = i + 1;
    }
    assert(models.take(series@.len() as int) =~= models);
}

/// Adds the label names of another set.
pub fn merge_metric_labels(target: &mut MetricLabels, source: MetricLabels)
    ensures
        final(target)@ == merged(old(target)@, source@),
{
    let count: usize = source.len();
    let mut i: usize = 0;
    let ghost before = target@;
    let ghost pairs = source.pairs();
    assert(target@ =~= merged(before, pairs_map(pairs.take(0)))) by {
        assert forall|metric: Seq<char>| before.contains_key(metric) implies names_of(
            before,
            metric,
        ).union(Set::empty()) =~= before[metric] by {
        }
    }
    while i < count
        invariant
            i <= count == pairs.len(),
            pairs == source.pairs(),
            keys_increase(pairs),
            target@ == merged(before, pairs_map(pairs.take(i as int))),
        decreases count - i,
    {
        let ghost current = target@;
        let ghost part = pairs_map(pairs.take(i as int));
        proof {
            lemma_take_pairs(pairs, i as int);
        }
        let metric = source.key_at(i).clone();
        let ghost name = metric@;
        let mut names = match target.remove(metric.as_str()) {
            Some(names) => names,
            None => NameSet::new(),
        };
        names.extend(source.value_at(i));
        let ghost set = names@;
        target.insert(metric, names);
        proof {
            let longer = pairs_map(pairs.take(i + 1));
            assert(names_of(before, name).union(Set::empty()) =~= names_of(before, name));
            assert(set =~= names_of(before, name).union(names_of(longer, name)));
            assert forall|other: Seq<char>| other != name implies names_of(longer, other)
                == names_of(part, other) by {
            }
            assert(target@ =~= merged(before, longer));
        }
        i = i + 1;
    }
    assert(pairs.take(count as int) =~= pairs);
}

/// The order in which the label names of blocks are merged does not matter.
pub proof fn law_merge_order_does_not_matter(
    target: Map<Seq<char>, Set<Seq<char>>>,
    first: Map<Seq<char>, Set<Seq<char>>>,
    second: Map<Seq<char>, Set<Seq<char>>>,
)
    ensures
        merged(merged(target, first), second) == merged(merged(target, second), first),
{
    let left = merged(merged(target, first), second);
    let right = merged(merged(target, second), first);
    assert forall|metric: Seq<char>| names_of(left, metric) == names_of(right, metric) by {
        lemma_merged_names(target, first, metric);
        lemma_merged_names(target, second, metric);
        lemma_merged_names(merged(target, first), second, metric);
        lemma_merged_names(merged(target, second), first, metric);
        assert(names_of(left, metric) =~= names_of(right, metric));
    }
    assert forall|metric: Seq<char>| left.contains_key(metric) implies left[metric]
        == right[metric] by {
        assert(names_of(left, metric) == names_of(right, metric));
    }
    assert(left =~= right);
}

proof fn lemma_merged_names(
    first: Map<Seq<char>, Set<Seq<char>>>,
    second: Map<Seq<char>, Set<Seq<char>>>,
    metric: Seq<char>,
)
    ensures
        names_of(merged(first, second), metric) == names_of(first, metric).union(
            names_of(second, metric),
        ),
{
    assert(names_of(merged(first, second), metric) =~= names_of(first, metric).union(
        names_of(second, metric),
    ));
}

/// Merging label names that are already there changes nothing.
pub proof fn law_merge_is_idempotent(
    target: Map<Seq<char>, Set<Seq<char>>>,
    source: Map<Seq<char>, Set<Seq<char>>>,
)
    ensures
        merged(merged(target, source), source) == merged(target, source),
{
    let once = merged(target, source);
    let twice = merged(once, source);
    assert forall|metric: Seq<char>| once.contains_key(metric) implies twice[metric]
        == once[metric] by {
        lemma_merged_names(target, source, metric);
        lemma_merged_names(once, source, metric);
        assert(names_of(twice, metric) =~= names_of(once, metric));
    }
    assert(twice =~= once);
}

/// The label that holds a metric's name is never a column of the metric's table.
pub proof fn law_metric_name_is_no_column(
    metrics: Map<Seq<char>, Set<Seq<char>>>,
    external: Map<Seq<char>, Seq<char>>,
    series: Seq<SeriesModel>,
    metric: Seq<char>,
)
    requires
        !names_of(metrics, metric).contains(metric_label()),
    ensures
        !names_of(collected_all(metrics, external, series), metric).contains(metric_label()),
    decreases series.len(),
{
    if series.len() > 0 {
        law_metric_name_is_no_column(metrics, external, series.drop_last(), metric);
    }
}

/// The table of a metric.
pub struct MetricTableSchema {
    pub name: String,
    pub label_columns: NameSet,
}

/// The columns of a metric's table: what each sample has, and one column for each label.
pub open spec fn metric_columns(labels: Seq<Seq<char>>) -> Seq<ColumnModel> {
    seq![
        required("timestamp"@, ColumnKind::Timestamp),
        optional("value"@, ColumnKind::Float),
        optional("histogram"@, ColumnKind::Histogram),
        required("downsample_resolution"@, ColumnKind::Integer),
        required("aggregate_kind"@, ColumnKind::Text),
    ] + labels.map_values(|name: Seq<char>| required(name, ColumnKind::Text))
}

impl MetricTableSchema {
    /// The columns of the table.
    pub fn columns(&self) -> (columns: Vec<Column>)
        ensures
            column_models(columns@) == metric_columns(self.label_columns.names()),
    {
        let mut columns: Vec<Column> = Vec::new();
        push_required(&mut columns, "timestamp", ColumnKind::Timestamp);
        push_optional(&mut columns, "value", ColumnKind::Float);
        push_optional(&mut columns, "histogram", ColumnKind::Histogram);
        push_required(&mut columns, "downsample_resolution", ColumnKind::Integer);
        push_required(&mut columns, "aggregate_kind", ColumnKind::Text);
        let count: usize = self.label_columns.len();
        let ghost names = self.label_columns.names();
        let mut i: usize = 0;
        assert(column_models(columns@) =~= metric_columns(names.take(0)));
        while i < count
            invariant
                i <= count == names.len(),
                names == self.label_columns.names(),
                column_models(columns@) == metric_columns(names.take(i as int)),
            decreases count - i,
        {
            push_required(
                &mut columns,
                self.label_columns.name_at(i).as_str(),
                ColumnKind::Text,
            );
            assert(names.take(i + 1) =~= names.take(i as int).push(names[i as int]));
            assert(metric_columns(names.take(i + 1)) =~= metric_columns(names.take(i as int)).push(
                required(names[i as int], ColumnKind::Text),
            ));
            i = i + 1;
        }
        assert(names.take(count as int) =~= names);
        columns
    }
}

/// What the tables of a list are: the names of the metrics and of their labels.
pub open spec fn schema_models(schemas: Seq<MetricTableSchema>) -> Seq<
    (Seq<char>, Set<Seq<char>>),
> {
    schemas.map_values(|schema: MetricTableSchema| (schema.name@, schema.label_columns@))
}

/// The tables of the metrics, in the order of their names.
pub fn metric_table_schemas(metric_labels: &MetricLabels) -> (schemas: Vec<MetricTableSchema>)
    ensures
        schema_models(schemas@) == sorted_pairs(metric_labels@),
{
    let count: usize = metric_labels.len();
    let mut schemas: Vec<MetricTableSchema> = Vec::new();
    let mut i: usize = 0;
    let ghost pairs = metric_labels.pairs();
    assert(schema_models(schemas@) =~= pairs.take(0));
    while i < count
        invariant
            i <= count == pairs.len(),
            pairs == metric_labels.pairs(),
            schema_models(schemas@) == pairs.take(i as int),
        decreases count - i,
    {
        let mut label_columns = NameSet::new();
        label_columns.extend(metric_labels.value_at(i));
        assert(label_columns@ =~= pairs[i as int].1);
        let name = metric_labels.key_at(i).clone();
        let ghost before = schemas@;
        let ghost model = (name@, label_columns@);
        schemas.push(MetricTableSchema { name, label_columns });
        assert(schema_models(schemas@) =~= schema_models(before).push(model));
        assert(pairs.take(i + 1) =~= pairs.take(i as int).push(pairs[i as int]));
        i = i + 1;
    }
    assert(pairs.take(count as int) =~= pairs);
    schemas
}

/// How many rows of the chunk index are written together.
pub const CHUNK_INDEX_BATCH_SIZE: usize = 50_000;

/// The chunk index of a block while it is built.
pub struct ChunkIndexBuilder {
    pub rows: Vec<ChunkIndexRow>,
    pub series_count: u64,
    pub chunk_count: u64,
    pub metric_labels: MetricLabels,
}

/// A count with more added to it, as far as 64 bits can hold it.
pub open spec fn saturated(count: int) -> int {
    if count > u64::MAX {
        u64::MAX as int
    } else {
        count
    }
}

impl ChunkIndexBuilder {
    /// The chunk index before the first series.
    pub fn new() -> (builder: Self)
        ensures
            builder.rows@ == Seq::<ChunkIndexRow>::empty(),
            builder.series_count == 0,
            builder.chunk_count == 0,
            builder.metric_labels@ == Map::<Seq<char>, Set<Seq<char>>>::empty(),
    {
        ChunkIndexBuilder {
            rows: Vec::new(),
            series_count: 0,
            chunk_count: 0,
            metric_labels: SortedMap::new(),
        }
    }

    /// Adds a series. The result says whether the rows are to be written before the next one.
    pub fn add_series(
        &mut self,
        repository: &ThanosRepositoryConfig,
        meta: &BlockMeta,
        block_path: &str,
        series: &Series,
    ) -> (result: Result<bool, BlockIndexError>)
        ensures
            final(self).series_count == saturated(old(self).series_count + 1),
            final(self).metric_labels@ == collected(
                old(self).metric_labels@,
                meta.thanos.labels@,
                series@.labels,
            ),
            match result {
                Ok(flush) => {
                    &&& series_rows(*repository, *meta, block_path@, series@) matches Ok(added)
                    &&& chunk_rows(final(self).rows@) == chunk_rows(old(self).rows@) + added
                    &&& final(self).chunk_count == saturated(old(self).chunk_count + added.len())
                    &&& flush == (final(self).rows@.len() >= CHUNK_INDEX_BATCH_SIZE)
                    &&& flush <==> final(self).rows@.len() >= 50_000
                },
                Err(error) => {
                    &&& series_rows(*repository, *meta, block_path@, series@) == Err::<
                        Seq<ChunkRowModel>,
                        BlockIndexError,
                    >(error)
                    &&& final(self).rows@ == old(self).rows@
                    &&& final(self).chunk_count == old(self).chunk_count
                },
            },
    {
        self.series_count = self.series_count.saturating_add(1);
        collect_series_labels(&mut self.metric_labels, &meta.thanos.labels, series);
        let count: usize = append_chunk_rows(
            repository,
            meta,
            block_path,
            series,
            &mut self.rows,
        )?;
        self.chunk_count = self.chunk_count.saturating_add(count as u64);
        Ok(self.rows.len() >= CHUNK_INDEX_BATCH_SIZE)
    }

    /// Hands the rows that were not written yet out.
    pub fn take_rows(&mut self) -> (rows: Vec<ChunkIndexRow>)
        ensures
            rows@ == old(self).rows@,
            final(self).rows@ == Seq::<ChunkIndexRow>::empty(),
            final(self).series_count == old(self).series_count,
            final(self).chunk_count == old(self).chunk_count,
            final(self).metric_labels == old(self).metric_labels,
    {
        let mut rows: Vec<ChunkIndexRow> = Vec::new();
        std::mem::swap(&mut rows, &mut self.rows);
        rows
    }
}

/// A block whose chunk index was built.
pub struct BuiltBlockIndex {
    pub row: BlockIndexRow,
    pub metric_labels: MetricLabels,
}

/// The rows of the built blocks.
pub open spec fn built_rows(built: Seq<BuiltBlockIndex>) -> Seq<BlockIndexRow> {
    built.map_values(|block: BuiltBlockIndex| block.row)
}

/// The label names of the built blocks, taken together.
pub open spec fn built_labels(built: Seq<BuiltBlockIndex>) -> Map<Seq<char>, Set<Seq<char>>>
    decreases built.len(),
{
    if built.len() == 0 {
        Map::empty()
    } else {
        merged(built_labels(built.drop_last()), built.last().metric_labels@)
    }
}

/// Puts the index of the built blocks together: their rows in the order of the repositories'
/// names, of their times and of their names, and the tables of the metrics.
pub fn assemble_index(built: Vec<BuiltBlockIndex>) -> (result: (
    Vec<BlockIndexRow>,
    Vec<MetricTableSchema>,
))
    ensures
        is_stable_sort(built_rows(built@), result.0@),
        schema_models(result.1@) == sorted_pairs(built_labels(built@)),
{
    let ghost all = built@;
    let mut metric_labels: MetricLabels = SortedMap::new();
    let mut rows: Vec<BlockIndexRow> = Vec::new();
    let mut rest = reversed(built);
    assert(built_rows(all.take(0)) =~= rows@);
    while rest.len() > 0
        invariant
            rest@.len() + rows@.len() == all.len(),
            rest@ =~= all.skip(rows@.len() as int).reverse(),
            rows@ == built_rows(all.take(rows@.len() as int)),
            metric_labels@ == built_labels(all.take(rows@.len() as int)),
        decreases rest.len(),
    {
        let ghost position = rows@.len() as int;
        let ghost current = rest@;
        if let Some(block) = rest.pop() {
            proof {
                assert(current.last() == all[position]);
                assert(all.take(position + 1).drop_last() =~= all.take(position));
                assert(all.take(position + 1) =~= all.take(position).push(block));
            }
            merge_metric_labels(&mut metric_labels, block.metric_labels);
            rows.push(block.row);
            assert(rows@ =~= built_rows(all.take(position + 1)));
        }
    }
    assert(all.take(all.len() as int) =~= all);
    let schemas = metric_table_schemas(&metric_labels);
    (stable_sort(rows), schemas)
}

/// The rows of the block index stand in the order of the repositories' names, of the times at which
/// the blocks start, and of the blocks' names.
pub proof fn law_index_rows_are_in_order(rows: Seq<BlockIndexRow>, sorted: Seq<BlockIndexRow>)
    requires
        is_stable_sort(rows, sorted),
    ensures
        sorted.len() == rows.len(),
        forall|row: BlockIndexRow| #[trigger] sorted.contains(row) <==> rows.contains(row),
        forall|i: int, j: int|
            0 <= i < j < sorted.len() ==> {
                let a = #[trigger] sorted[i];
                let b = #[trigger] sorted[j];
                &&& !str_lt(b.repository_name@, a.repository_name@)
                &&& a.repository_name@ == b.repository_name@ ==> a.min_time <= b.min_time
                &&& a.repository_name@ == b.repository_name@ && a.min_time == b.min_time
                    ==> !str_lt(b.block_ulid@, a.block_ulid@)
            },
{
    law_sorted_values_are_in_order(rows, sorted);
    assert forall|i: int, j: int| 0 <= i < j < sorted.len() implies {
        let a = #[trigger] sorted[i];
        let b = #[trigger] sorted[j];
        &&& !str_lt(b.repository_name@, a.repository_name@)
        &&& a.repository_name@ == b.repository_name@ ==> a.min_time <= b.min_time
        &&& a.repository_name@ == b.repository_name@ && a.min_time == b.min_time ==> !str_lt(
            b.block_ulid@,
            a.block_ulid@,
        )
    } by {
        assert(sorted[i].before(&sorted[j]));
        lemma_str_lt_asymmetric(sorted[i].repository_name@, sorted[j].repository_name@);
    }
}

/// The tables of the metrics of built blocks: a table has a column for a label exactly if a block
/// has it for the metric.
pub proof fn law_built_labels_are_those_of_the_blocks(
    built: Seq<BuiltBlockIndex>,
    metric: Seq<char>,
    name: Seq<char>,
)
    ensures
        names_of(built_labels(built), metric).contains(name) <==> exists|i: int|
            0 <= i < built.len() && names_of(
                (#[trigger] built[i]).metric_labels@,
                metric,
            ).contains(name),
    decreases built.len(),
{
    if built.len() > 0 {
        let rest = built.drop_last();
        law_built_labels_are_those_of_the_blocks(rest, metric, name);
        law_merged_names_are_those_of_both(
            built_labels(rest),
            built.last().metric_labels@,
            metric,
            name,
        );
        if names_of(built_labels(rest), metric).contains(name) {
            let i = choose|i: int|
                0 <= i < rest.len() && names_of(
                    (#[trigger] rest[i]).metric_labels@,
                    metric,
                ).contains(name);
            assert(built[i] == rest[i]);
        }
        if names_of(built.last().metric_labels@, metric).contains(name) {
            assert(built[built.len() - 1] == built.last());
        }
        if exists|i: int|
            0 <= i < built.len() && names_of(
                (#[trigger] built[i]).metric_labels@,
                metric,
            ).contains(name) {
            let i = choose|i: int|
                0 <= i < built.len() && names_of(
                    (#[trigger] built[i]).metric_labels@,
                    metric,
                ).contains(name);
            if i < rest.len() {
                assert(rest[i] == built[i]);
            }
        }
    }
}

/// The blocks that a block was compacted from.
pub open spec fn sources(meta: BlockMeta) -> Set<Seq<char>> {
    name_views(meta.compaction.sources@).to_set()
}

/// A block holds what another block of the same resolution holds, and more: it was compacted from
/// all the blocks that the other was compacted from, and from others.
pub open spec fn supersedes(meta: BlockMeta, other: BlockMeta) -> bool {
    &&& meta.thanos.resolution == other.thanos.resolution
    &&& sources(other).len() > 0
    &&& sources(other).subset_of(sources(meta))
    &&& sources(other) != sources(meta)
}

proof fn lemma_source_set(names: Seq<String>, name: Seq<char>)
    ensures
        names_contain(names, name) == name_views(names).to_set().contains(name),
{
    let views = name_views(names);
    if names_contain(names, name) {
        let i = choose|i: int| 0 <= i < names.len() && (#[trigger] names[i])@ == name;
        assert(views[i] == name);
    }
    if views.contains(name) {
        let i = views.index_of(name);
        assert(names[i]@ == name);
    }
}

/// Whether each name of a list stands in another list too.
fn covers(names: &Vec<String>, part: &Vec<String>) -> (result: bool)
    ensures
        result == name_views(part@).to_set().subset_of(name_views(names@).to_set()),
{
    let ghost all = name_views(names@).to_set();
    let ghost views = name_views(part@);
    let mut i: usize = 0;
    while i < part.len()
        invariant
            i <= part@.len(),
            all == name_views(names@).to_set(),
            views == name_views(part@),
            forall|k: int| 0 <= k < i ==> all.contains(#[trigger] views[k]),
        decreases part.len() - i,
    {
        proof {
            lemma_source_set(names@, part@[i as int]@);
        }
        if !list_contains(names, part[i].as_str()) {
            assert(views[i as int] == part@[i as int]@);
            assert(views.to_set().contains(views[i as int]));
            return false;
        }
        assert(views[i as int] == part@[i as int]@);
        i = i + 1;
    }
    assert forall|name: Seq<char>| views.to_set().contains(name) implies all.contains(name) by {
        let k = views.index_of(name);
        assert(views[k] == name);
    }
    true
}

pub(crate) fn is_newer_version(meta: &BlockMeta, other: &BlockMeta) -> (result: bool)
    ensures
        result == supersedes(*meta, *other),
{
    let ghost mine = sources(*meta);
    let ghost theirs = sources(*other);
    if meta.thanos.resolution != other.thanos.resolution || other.compaction.sources.len() == 0 {
        proof {
            if other.compaction.sources@.len() == 0 {
                assert(theirs =~= Set::<Seq<char>>::empty());
            }
        }
        return false;
    }
    proof {
        let views = name_views(other.compaction.sources@);
        assert(views.to_set().contains(views[0]));
        vstd::seq_lib::seq_to_set_is_finite(views);
        if theirs.len() == 0 {
            assert(theirs =~= Set::<Seq<char>>::empty());
        }
    }
    if !covers(&meta.compaction.sources, &other.compaction.sources) {
        return false;
    }
    let same_sources = covers(&other.compaction.sources, &meta.compaction.sources);
    assert(same_sources == (theirs =~= mine));
    !same_sources
}

/// The names of the blocks of a list.
pub open spec fn block_names(metas: Seq<BlockMeta>) -> Set<Seq<char>> {
    metas.map_values(|meta: BlockMeta| meta.ulid@).to_set()
}

/// The names of the blocks of a list, whose chunk indexes are kept.
pub fn active_blocks(metas: &Vec<BlockMeta>) -> (names: NameSet)
    ensures
        names@ == block_names(metas@),
{
    let ghost all = metas@.map_values(|meta: BlockMeta| meta.ulid@);
    let mut names = NameSet::new();
    let mut i: usize = 0;
    assert(names@ =~= all.take(0).to_set());
    while i < metas.len()
        invariant
            i <= metas@.len(),
            all == metas@.map_values(|meta: BlockMeta| meta.ulid@),
            names@ == all.take(i as int).to_set(),
        decreases metas.len() - i,
    {
        let ghost known = names@;
        names.insert(metas[i].ulid.clone());
        proof {
            let before = all.take(i as int);
            let name = all[i as int];
            assert(names@ =~= known.insert(name));
            assert(all.take(i + 1) =~= before.push(name));
            assert forall|other: Seq<char>|
                #[trigger] before.push(name).to_set().contains(other) == (before.to_set().contains(
                    other,
                ) || other == name) by {
                if before.contains(other) {
                    assert(before.push(name)[before.index_of(other)] == other);
                }
                assert(before.push(name)[before.len() as int] == name);
                if before.push(name).contains(other) && other != name {
                    assert(before[before.push(name).index_of(other)] == other);
                }
            }
            assert(names@ =~= before.push(name).to_set());
        }
        i = i + 1;
    }
    assert(all.take(metas@.len() as int) =~= all);
    names
}

/// The chunk index of a block that was found is kept.
pub proof fn law_cleanup_keeps_active_indexes(metas: Seq<BlockMeta>, position: int)
    requires
        0 <= position < metas.len(),
    ensures
        !is_stale_index(metas[position].ulid@ + ".parquet"@, block_names(metas)),
{
    let names = metas.map_values(|meta: BlockMeta| meta.ulid@);
    assert(names[position] == metas[position].ulid@);
    assert(names.contains(metas[position].ulid@));
    if metas[position].ulid@.len() > 0 {
        law_cleanup_removes_inactive_indexes(metas[position].ulid@, block_names(metas));
    } else {
        reveal_strlit(".parquet");
        let name = metas[position].ulid@ + ".parquet"@;
        lemma_last_dot(metas[position].ulid@, name.len() as int);
        assert(name.take(0).len() == 0);
    }
}

/// A block with one of some positions supersedes the one at a position.
pub open spec fn is_superseded_among(
    metas: Seq<BlockMeta>,
    among: Set<int>,
    position: int,
) -> bool {
    exists|other: int|
        0 <= other < metas.len() && among.contains(other) && supersedes(
            #[trigger] metas[other],
            metas[position],
        )
}

/// The largest number of sources that a block of a list names.
pub(crate) closed spec fn longest_sources(metas: Seq<BlockMeta>) -> nat
    decreases metas.len(),
{
    if metas.len() == 0 {
        0
    } else {
        let rest = longest_sources(metas.drop_last());
        let last = metas.last().compaction.sources@.len();
        if last > rest {
            last
        } else {
            rest
        }
    }
}

proof fn lemma_longest_sources(metas: Seq<BlockMeta>, position: int)
    requires
        0 <= position < metas.len(),
    ensures
        sources(metas[position]).finite(),
        sources(metas[position]).len() <= longest_sources(metas),
    decreases metas.len(),
{
    let views = name_views(metas[position].compaction.sources@);
    vstd::seq_lib::seq_to_set_is_finite(views);
    views.lemma_cardinality_of_set();
    if position < metas.len() - 1 {
        lemma_longest_sources(metas.drop_last(), position);
        assert(metas.drop_last()[position] == metas[position]);
    }
}

/// The block at a position is covered by another one of some positions that none of them supersedes.
pub open spec fn is_current_above(
    metas: Seq<BlockMeta>,
    among: Set<int>,
    position: int,
    other: int,
) -> bool {
    &&& 0 <= other < metas.len()
    &&& among.contains(other)
    &&& !is_superseded_among(metas, among, other)
    &&& metas[other].thanos.resolution == metas[position].thanos.resolution
    &&& sources(metas[position]).subset_of(sources(metas[other]))
}

/// A block of some positions is covered by one of these positions that none of them supersedes.
pub(crate) proof fn lemma_current_above(metas: Seq<BlockMeta>, among: Set<int>, position: int)
    requires
        0 <= position < metas.len(),
        among.contains(position),
    ensures
        exists|other: int| #[trigger] is_current_above(metas, among, position, other),
    decreases longest_sources(metas) - sources(metas[position]).len(),
{
    lemma_longest_sources(metas, position);
    if is_superseded_among(metas, among, position) {
        let next = choose|other: int|
            0 <= other < metas.len() && among.contains(other) && supersedes(
                #[trigger] metas[other],
                metas[position],
            );
        lemma_longest_sources(metas, next);
        let small = sources(metas[position]);
        let large = sources(metas[next]);
        vstd::set_lib::lemma_len_subset(small, large);
        if small.len() == large.len() {
            vstd::set_lib::lemma_subset_equality(small, large);
        }
        lemma_current_above(metas, among, next);
        let last = choose|other: int| #[trigger] is_current_above(metas, among, next, other);
        assert(is_current_above(metas, among, position, last));
    } else {
        assert(is_current_above(metas, among, position, position));
    }
}

/// A location with the scheme of files stands for the path behind the scheme, and one without for
/// itself.
pub proof fn law_locations_stand_for_paths(path: Seq<char>)
    ensures
        local_path("file://"@ + path) == path,
        !has_prefix(path, "file://"@) ==> local_path(path) == path,
{
    reveal_strlit("file://");
    let location = "file://"@ + path;
    assert(location.subrange(0, 7) =~= "file://"@);
    assert(location.skip(7) =~= path);
}

/// The mark of a block stands beside its metadata.
pub proof fn law_marks_stand_in_their_blocks(block_path: Seq<char>)
    requires
        block_path.len() > 0,
    ensures
        mark_path(block_path) == block_path + "/deletion-mark.json"@,
        mark_path(Seq::empty()) == "deletion-mark.json"@,
{
    reveal_strlit("/");
    reveal_strlit("deletion-mark.json");
    reveal_strlit("/deletion-mark.json");
    assert("/"@ + "deletion-mark.json"@ =~= "/deletion-mark.json"@);
    assert(block_path + "/"@ + "deletion-mark.json"@ =~= block_path + ("/"@
        + "deletion-mark.json"@));
}

/// A file is the chunk index of a block exactly if it has the name of the block and ends with
/// `.parquet`.
pub proof fn law_chunk_indexes_are_named_by_their_blocks(file_name: Seq<char>)
    ensures
        indexed_block(file_name) matches Some(block) ==> block.len() > 0 && file_name == block
            + ".parquet"@,
{
    reveal_strlit(".parquet");
    reveal_strlit("parquet");
    law_texts_are_split_at_the_last_separator(file_name, '.');
    if let Some(block) = indexed_block(file_name) {
        assert(block.push('.') + "parquet"@ =~= block + ".parquet"@);
    }
}

/// A reference of a chunk is made of the number of its file in the higher half and of the offset in
/// the lower half.
pub proof fn law_references_are_made_of_file_and_offset(file: u32, offset: u32)
    ensures
        chunk_sequence(file * 0x1_0000_0000 + offset) == file,
        chunk_offset(file * 0x1_0000_0000 + offset) == offset,
{
}

/// The name of a file of chunks is a number of at least six digits, which is one more than that of the
/// file; the path of a chunk is that of its file in the directory of chunks.
pub proof fn law_files_of_chunks_count_from_one(block_path: Seq<char>, file: u32, offset: u32)
    ensures
        chunk_file(file as int).len() >= 6,
        digits_value(chunk_file(file as int)) == Some(file + 1),
        file < 999_999 ==> chunk_file(file as int).len() == 6,
        chunk_path(block_path, file * 0x1_0000_0000 + offset) == block_path + "/chunks/"@
            + chunk_file(file as int),
{
    let number = file as int + 1;
    law_references_are_made_of_file_and_offset(file, offset);
    law_padded_numbers_are_read(number, decimal_text(number).len() as int);
    assert(padded_text(number, decimal_text(number).len() as int) =~= decimal_text(number));
    if decimal_text(number).len() < 6 {
        law_padded_numbers_are_read(number, 6);
    }
    if file < 999_999 {
        reveal_with_fuel(decimal_text, 7);
        assert(decimal_text(number).len() <= 6);
    }
}

/// The table of a metric has five columns that all metrics have, and behind them one required column
/// of text for each label, in the order of the labels.
pub proof fn law_metric_columns_are_those_of_the_labels(labels: Seq<Seq<char>>, i: int)
    requires
        0 <= i < labels.len(),
    ensures
        metric_columns(labels).len() == 5 + labels.len(),
        metric_columns(labels)[5 + i].name == labels[i],
        metric_columns(labels)[5 + i].kind == ColumnKind::Text,
        !metric_columns(labels)[5 + i].nullable,
        metric_columns(labels)[0].name == "timestamp"@ && metric_columns(labels)[0].kind
            == ColumnKind::Timestamp && !metric_columns(labels)[0].nullable,
        metric_columns(labels)[1].name == "value"@ && metric_columns(labels)[1].kind
            == ColumnKind::Float && metric_columns(labels)[1].nullable,
        metric_columns(labels)[2].name == "histogram"@ && metric_columns(labels)[2].kind
            == ColumnKind::Histogram && metric_columns(labels)[2].nullable,
        metric_columns(labels)[3].name == "downsample_resolution"@ && metric_columns(
            labels,
        )[3].kind == ColumnKind::Integer && !metric_columns(labels)[3].nullable,
        metric_columns(labels)[4].name == "aggregate_kind"@ && metric_columns(labels)[4].kind
            == ColumnKind::Text && !metric_columns(labels)[4].nullable,
{
}

/// Counts grow by what is added, up to the largest number of 64 bits, at which they stay.
pub proof fn law_counts_do_not_wrap(count: u64, more: u64)
    ensures
        saturated(count + more) <= u64::MAX,
        saturated(count + more) >= count,
        count + more <= u64::MAX ==> saturated(count + more) == count + more,
        count + more > u64::MAX ==> saturated(count + more) == u64::MAX,
{
}

} // verus!
