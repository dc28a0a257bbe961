//! The answer to a request for series: encoded chunks, series, batches and warnings.

use vstd::prelude::*;

use crate::bits::ChunkError;
use crate::chunk_reader::{decode_encoded_chunk, EncodedChunk, EncodedData};
#[allow(unused_imports)]
use crate::chunk_reader::{encoded_chunk, encoded_view, EncodedChunkModel, EncodedModel};
use crate::digest::xxh64_hash;
#[allow(unused_imports)]
use crate::digest::xxh64;
use crate::labels::Labels;
use crate::series_plan::{AggregateSet, SeriesPlan};
#[allow(unused_imports)]
use crate::series_plan::series_limit;
use crate::store_service::{Aggregate, StoreError};
#[allow(unused_imports)]
use crate::store_service::StoreErrorModel;
#[allow(unused_imports)]
use crate::text::debug_text;
use crate::text::{debug_form, joined};

verus! {

/// Encoded samples with their hash. The kinds are: XOR, histogram and float histogram.
pub struct StoreChunk {
    pub kind: i32,
    pub data: Vec<u8>,
    pub hash: u64,
}

/// What encoded samples hold.
#[verifier::ext_equal]
pub struct StoreChunkModel {
    pub kind: int,
    pub data: Seq<u8>,
    pub hash: int,
}

impl View for StoreChunk {
    type V = StoreChunkModel;

    open spec fn view(&self) -> StoreChunkModel {
        StoreChunkModel { kind: self.kind as int, data: self.data@, hash: self.hash as int }
    }
}

/// A chunk of an answer: raw samples, or aggregates of windows.
pub struct AggrChunk {
    pub min_time: i64,
    pub max_time: i64,
    pub raw: Option<StoreChunk>,
    pub count: Option<StoreChunk>,
    pub sum: Option<StoreChunk>,
    pub min: Option<StoreChunk>,
    pub max: Option<StoreChunk>,
    pub counter: Option<StoreChunk>,
}

/// What a chunk of an answer holds.
#[verifier::ext_equal]
pub struct AggrChunkModel {
    pub min_time: int,
    pub max_time: int,
    pub raw: Option<StoreChunkModel>,
    pub count: Option<StoreChunkModel>,
    pub sum: Option<StoreChunkModel>,
    pub min: Option<StoreChunkModel>,
    pub max: Option<StoreChunkModel>,
    pub counter: Option<StoreChunkModel>,
}

/// What encoded samples hold that may be missing.
pub open spec fn chunk_view(chunk: Option<StoreChunk>) -> Option<StoreChunkModel> {
    match chunk {
        Some(chunk) => Some(chunk@),
        None => None,
    }
}

impl View for AggrChunk {
    type V = AggrChunkModel;

    open spec fn view(&self) -> AggrChunkModel {
        AggrChunkModel {
            min_time: self.min_time as int,
            max_time: self.max_time as int,
            raw: chunk_view(self.raw),
            count: chunk_view(self.count),
            sum: chunk_view(self.sum),
            min: chunk_view(self.min),
            max: chunk_view(self.max),
            counter: chunk_view(self.counter),
        }
    }
}

/// Encoded samples as an answer holds them: the kinds count from zero on.
pub open spec fn raw_chunk_of(data: EncodedModel) -> Result<StoreChunkModel, StoreErrorModel> {
    if 1 <= data.encoding <= 3 {
        Ok(
            StoreChunkModel {
                kind: data.encoding - 1,
                data: data.data,
                hash: xxh64(data.data) as int,
            },
        )
    } else {
        Err(StoreErrorModel::InvalidChunk(ChunkError::UnsupportedEncoding(data.encoding)))
    }
}

/// Makes encoded samples into what an answer holds.
pub fn raw_chunk(data: EncodedData) -> (result: Result<StoreChunk, StoreError>)
    ensures
        match result {
            Ok(chunk) => raw_chunk_of(data@) == Ok::<StoreChunkModel, StoreErrorModel>(chunk@),
            Err(error) => raw_chunk_of(data@) == Err::<StoreChunkModel, StoreErrorModel>(error@),
        },
{
    let encoding: u8 = data.encoding;
    if encoding < 1 || encoding > 3 {
        return Err(StoreError::InvalidChunk(ChunkError::UnsupportedEncoding(encoding)));
    }
    let hash: u64 = xxh64_hash(data.data.as_slice());
    Ok(StoreChunk { kind: encoding as i32 - 1, data: data.data, hash })
}

/// An aggregate of an answer. One that is asked for has to be there.
pub open spec fn aggregate_chunk_of(
    data: Option<EncodedModel>,
    wanted: bool,
    aggregate: Aggregate,
) -> Result<Option<StoreChunkModel>, StoreErrorModel> {
    if !wanted {
        Ok(None)
    } else {
        match data {
            None => Err(StoreErrorModel::MissingAggregate(aggregate)),
            Some(data) => match raw_chunk_of(data) {
                Ok(chunk) => Ok(Some(chunk)),
                Err(error) => Err(error),
            },
        }
    }
}

/// Makes an aggregate into what an answer holds, if it is asked for.
pub fn aggregate_chunk(data: Option<EncodedData>, wanted: bool, aggregate: Aggregate) -> (result:
    Result<Option<StoreChunk>, StoreError>)
    ensures
        match result {
            Ok(chunk) => aggregate_chunk_of(encoded_view(data), wanted, aggregate) == Ok::<
                Option<StoreChunkModel>,
                StoreErrorModel,
            >(chunk_view(chunk)),
            Err(error) => aggregate_chunk_of(encoded_view(data), wanted, aggregate) == Err::<
                Option<StoreChunkModel>,
                StoreErrorModel,
            >(error@),
        },
{
    if !wanted {
        return Ok(None);
    }
    match data {
        None => Err(StoreError::MissingAggregate(aggregate)),
        Some(data) => match raw_chunk(data) {
            Ok(chunk) => Ok(Some(chunk)),
            Err(error) => Err(error),
        },
    }
}

/// The chunk of an answer that holds raw samples.
pub open spec fn raw_answer(min_time: int, max_time: int, raw: StoreChunkModel) -> AggrChunkModel {
    AggrChunkModel {
        min_time,
        max_time,
        raw: Some(raw),
        count: None,
        sum: None,
        min: None,
        max: None,
        counter: None,
    }
}

/// The chunk of an answer, or nothing where it holds no aggregate that is asked for.
pub open spec fn chunk_answer(
    chunk: EncodedChunkModel,
    min_time: int,
    max_time: int,
    aggregates: AggregateSet,
) -> Result<Option<AggrChunkModel>, StoreErrorModel> {
    match chunk {
        EncodedChunkModel::Plain(data) => match raw_chunk_of(data) {
            Ok(raw) => Ok(Some(raw_answer(min_time, max_time, raw))),
            Err(error) => Err(error),
        },
        EncodedChunkModel::Aggregate { count, sum, min, max, counter } => {
            match aggregate_chunk_of(count, aggregates.count, Aggregate::Count) {
                Err(error) => Err(error),
                Ok(count) => match aggregate_chunk_of(sum, aggregates.sum, Aggregate::Sum) {
                    Err(error) => Err(error),
                    Ok(sum) => match aggregate_chunk_of(min, aggregates.min, Aggregate::Min) {
                        Err(error) => Err(error),
                        Ok(min) => match aggregate_chunk_of(max, aggregates.max, Aggregate::Max) {
                            Err(error) => Err(error),
                            Ok(max) => match aggregate_chunk_of(
                                counter,
                                aggregates.counter,
                                Aggregate::Counter,
                            ) {
                                Err(error) => Err(error),
                                Ok(counter) => if count is None && sum is None && min is None
                                    && max is None && counter is None {
                                    Ok(None)
                                } else {
                                    Ok(
                                        Some(
                                            AggrChunkModel {
                                                min_time,
                                                max_time,
                                                raw: None,
                                                count,
                                                sum,
                                                min,
                                                max,
                                                counter,
                                            },
                                        ),
                                    )
                                },
                            },
                        },
                    },
                },
            }
        },
    }
}

/// What the record of a chunk gives for an answer.
pub open spec fn record_answer(
    record: Seq<u8>,
    min_time: int,
    max_time: int,
    aggregates: AggregateSet,
) -> Result<Option<AggrChunkModel>, StoreErrorModel> {
    match encoded_chunk(record) {
        Err(error) => Err(StoreErrorModel::InvalidChunk(error)),
        Ok(chunk) => chunk_answer(chunk, min_time, max_time, aggregates),
    }
}

/// What a chunk of an answer holds that may be missing.
pub open spec fn answer_view(chunk: Option<AggrChunk>) -> Option<AggrChunkModel> {
    match chunk {
        Some(chunk) => Some(chunk@),
        None => None,
    }
}

/// Makes the record of a chunk into what an answer holds.
pub fn encode_chunk(
    record: &[u8],
    min_time: i64,
    max_time: i64,
    aggregates: AggregateSet,
) -> (result: Result<Option<AggrChunk>, StoreError>)
    ensures
        match result {
            Ok(chunk) => record_answer(record@, min_time as int, max_time as int, aggregates)
                == Ok::<Option<AggrChunkModel>, StoreErrorModel>(answer_view(chunk)),
            Err(error) => record_answer(record@, min_time as int, max_time as int, aggregates)
                == Err::<Option<AggrChunkModel>, StoreErrorModel>(error@),
        },
{
    match decode_encoded_chunk(record) {
        Err(error) => Err(StoreError::InvalidChunk(error)),
        Ok(EncodedChunk::Plain(data)) => {
            let raw = raw_chunk(data)?;
            let chunk = AggrChunk {
                min_time,
                max_time,
                raw: Some(raw),
                count: None,
                sum: None,
                min: None,
                max: None,
                counter: None,
            };
            Ok(Some(chunk))
        },
        Ok(EncodedChunk::Aggregate { count, sum, min, max, counter }) => {
            let count = aggregate_chunk(count, aggregates.count, Aggregate::Count)?;
            let sum = aggregate_chunk(sum, aggregates.sum, Aggregate::Sum)?;
            let min = aggregate_chunk(min, aggregates.min, Aggregate::Min)?;
            let max = aggregate_chunk(max, aggregates.max, Aggregate::Max)?;
            let counter = aggregate_chunk(counter, aggregates.counter, Aggregate::Counter)?;
            if count.is_none() && sum.is_none() && min.is_none() && max.is_none()
                && counter.is_none() {
                return Ok(None);
            }
            Ok(Some(AggrChunk { min_time, max_time, raw: None, count, sum, min, max, counter }))
        },
    }
}

/// A chunk of an answer holds no aggregate that was not asked for, and of a downsampled chunk all
/// that were.
pub proof fn law_answers_hold_what_was_asked_for(
    chunk: EncodedChunkModel,
    min_time: int,
    max_time: int,
    aggregates: AggregateSet,
)
    requires
        chunk_answer(chunk, min_time, max_time, aggregates) matches Ok(Some(_)),
    ensures
        chunk_answer(chunk, min_time, max_time, aggregates)->Ok_0 matches Some(answer) && {
            &&& answer.min_time == min_time
            &&& answer.max_time == max_time
            &&& chunk is Plain <==> answer.raw is Some
            &&& chunk is Aggregate ==> {
                &&& answer.count is Some == aggregates.count
                &&& answer.sum is Some == aggregates.sum
                &&& answer.min is Some == aggregates.min
                &&& answer.max is Some == aggregates.max
                &&& answer.counter is Some == aggregates.counter
            }
        },
{
}

/// Encoded samples of an answer are those of a chunk: the same bytes under the kind of their
/// encoding, with the hash of these bytes.
pub open spec fn carries(answer: Option<StoreChunkModel>, data: Option<EncodedModel>) -> bool {
    match (answer, data) {
        (Some(answer), Some(data)) => {
            &&& answer.data == data.data
            &&& answer.hash == xxh64(data.data)
            &&& answer.kind == 0 <==> data.encoding == 1
            &&& answer.kind == 1 <==> data.encoding == 2
            &&& answer.kind == 2 <==> data.encoding == 3
            &&& 0 <= answer.kind <= 2
        },
        (Some(_), None) => false,
        (None, _) => true,
    }
}

/// Each aggregate of an answer holds the bytes of the slot of the same name, and raw samples are
/// those of the chunk.
pub proof fn law_answers_hold_their_slots(
    chunk: EncodedChunkModel,
    min_time: int,
    max_time: int,
    aggregates: AggregateSet,
)
    requires
        chunk_answer(chunk, min_time, max_time, aggregates) matches Ok(Some(_)),
    ensures
        chunk_answer(chunk, min_time, max_time, aggregates)->Ok_0 matches Some(answer) && {
            &&& answer.min_time == min_time
            &&& answer.max_time == max_time
            &&& match chunk {
                EncodedChunkModel::Plain(data) => {
                    &&& answer.raw is Some
                    &&& carries(answer.raw, Some(data))
                    &&& answer.count is None
                    &&& answer.sum is None
                    &&& answer.min is None
                    &&& answer.max is None
                    &&& answer.counter is None
                },
                EncodedChunkModel::Aggregate { count, sum, min, max, counter } => {
                    &&& answer.raw is None
                    &&& carries(answer.count, count)
                    &&& carries(answer.sum, sum)
                    &&& carries(answer.min, min)
                    &&& carries(answer.max, max)
                    &&& carries(answer.counter, counter)
                },
            }
        },
{
}

/// The record of a chunk is answered unless it is damaged, an encoding is unknown or an aggregate
/// that was asked for is missing; of a downsampled chunk of which nothing was asked for, nothing
/// is answered.
pub proof fn law_sound_chunks_are_answered(
    chunk: EncodedChunkModel,
    min_time: int,
    max_time: int,
    aggregates: AggregateSet,
)
    ensures
        match (chunk, chunk_answer(chunk, min_time, max_time, aggregates)) {
            (EncodedChunkModel::Plain(data), Ok(answer)) => answer is Some && 1 <= data.encoding
                <= 3,
            (EncodedChunkModel::Plain(data), Err(error)) => !(1 <= data.encoding <= 3) && error
                == StoreErrorModel::InvalidChunk(ChunkError::UnsupportedEncoding(data.encoding)),
            (EncodedChunkModel::Aggregate { count, sum, min, max, counter }, Ok(answer)) => {
                &&& aggregates.count ==> count is Some
                &&& aggregates.sum ==> sum is Some
                &&& aggregates.min ==> min is Some
                &&& aggregates.max ==> max is Some
                &&& aggregates.counter ==> counter is Some
                &&& answer is None <==> !aggregates.count && !aggregates.sum && !aggregates.min
                    && !aggregates.max && !aggregates.counter
            },
            (EncodedChunkModel::Aggregate { count, sum, min, max, counter }, Err(error)) => {
                ||| error is InvalidChunk
                ||| error == StoreErrorModel::MissingAggregate(Aggregate::Count)
                    && aggregates.count && count is None
                ||| error == StoreErrorModel::MissingAggregate(Aggregate::Sum) && aggregates.sum
                    && sum is None
                ||| error == StoreErrorModel::MissingAggregate(Aggregate::Min) && aggregates.min
                    && min is None
                ||| error == StoreErrorModel::MissingAggregate(Aggregate::Max) && aggregates.max
                    && max is None
                ||| error == StoreErrorModel::MissingAggregate(Aggregate::Counter)
                    && aggregates.counter && counter is None
            },
        },
{
}

impl Aggregate {
    /// The name of an aggregate.
    pub open spec fn name(&self) -> Seq<char> {
        match self {
            Aggregate::Raw => "raw"@,
            Aggregate::Count => "count"@,
            Aggregate::Sum => "sum"@,
            Aggregate::Min => "min"@,
            Aggregate::Max => "max"@,
            Aggregate::Counter => "counter"@,
        }
    }

    fn title(&self) -> (name: &'static str)
        ensures
            name@ == self.name(),
    {
        match self {
            Aggregate::Raw => "raw",
            Aggregate::Count => "count",
            Aggregate::Sum => "sum",
            Aggregate::Min => "min",
            Aggregate::Max => "max",
            Aggregate::Counter => "counter",
        }
    }
}

/// How an error is answered.
#[derive(Clone, Copy, Debug, PartialEq, Eq, Structural)]
pub enum StatusCode {
    InvalidArgument,
    Internal,
}

impl StoreErrorModel {
    /// How the error is answered.
    pub open spec fn status(&self) -> StatusCode {
        match self {
            StoreErrorModel::UnknownMatcherType => StatusCode::InvalidArgument,
            StoreErrorModel::InvalidPattern(_) => StatusCode::InvalidArgument,
            StoreErrorModel::UnknownAggregate => StatusCode::InvalidArgument,
            StoreErrorModel::NegativeLimit => StatusCode::InvalidArgument,
            StoreErrorModel::UnreadableHints(_, _) => StatusCode::InvalidArgument,
            StoreErrorModel::InvalidLabels => StatusCode::Internal,
            StoreErrorModel::UnknownRepository(_) => StatusCode::Internal,
            StoreErrorModel::UnreadableChunk(_) => StatusCode::Internal,
            StoreErrorModel::InvalidChunk(_) => StatusCode::Internal,
            StoreErrorModel::MissingAggregate(_) => StatusCode::Internal,
        }
    }

    /// What the error says.
    pub open spec fn text(&self) -> Seq<char> {
        match self {
            StoreErrorModel::UnknownMatcherType => "unknown label matcher type"@,
            StoreErrorModel::InvalidPattern(message) => *message,
            StoreErrorModel::UnknownAggregate => "unknown aggregate type"@,
            StoreErrorModel::NegativeLimit => "limit must not be negative"@,
            StoreErrorModel::UnreadableHints(kind, reason) => "unmarshal "@ + *kind
                + " request hints: "@ + *reason,
            StoreErrorModel::InvalidLabels => "invalid labels in the chunk index"@,
            StoreErrorModel::UnknownRepository(uri) => "no storage repository for repository "@
                + debug_text(*uri),
            StoreErrorModel::UnreadableChunk(message) => *message,
            StoreErrorModel::InvalidChunk(error) => error.text(),
            StoreErrorModel::MissingAggregate(aggregate) => "aggregate "@ + aggregate.name()
                + " does not exist"@,
        }
    }
}

impl StoreError {
    /// How the error is answered.
    pub fn code(&self) -> (code: StatusCode)
        ensures
            code == self@.status(),
    {
        match self {
            StoreError::UnknownMatcherType => StatusCode::InvalidArgument,
            StoreError::InvalidPattern(_) => StatusCode::InvalidArgument,
            StoreError::UnknownAggregate => StatusCode::InvalidArgument,
            StoreError::NegativeLimit => StatusCode::InvalidArgument,
            StoreError::UnreadableHints(_, _) => StatusCode::InvalidArgument,
            StoreError::InvalidLabels => StatusCode::Internal,
            StoreError::UnknownRepository(_) => StatusCode::Internal,
            StoreError::UnreadableChunk(_) => StatusCode::Internal,
            StoreError::InvalidChunk(_) => StatusCode::Internal,
            StoreError::MissingAggregate(_) => StatusCode::Internal,
        }
    }

    /// What the error says.
    pub fn message(&self) -> (message: String)
        ensures
            message@ == self@.text(),
    {
        match self {
            StoreError::UnknownMatcherType => "unknown label matcher type".to_owned(),
            StoreError::InvalidPattern(message) => message.clone(),
            StoreError::UnknownAggregate => "unknown aggregate type".to_owned(),
            StoreError::NegativeLimit => "limit must not be negative".to_owned(),
            StoreError::UnreadableHints(kind, reason) => {
                let mut message = joined("unmarshal ", kind.as_str());
                message.append(" request hints: ");
                message.append(reason.as_str());
                message
            },
            StoreError::InvalidLabels => "invalid labels in the chunk index".to_owned(),
            StoreError::UnknownRepository(uri) => unknown_repository(
                debug_form(uri.as_str()).as_str(),
            ),
            StoreError::UnreadableChunk(message) => message.clone(),
            StoreError::InvalidChunk(error) => error.message(),
            StoreError::MissingAggregate(aggregate) => {
                let mut message = joined("aggregate ", aggregate.title());
                message.append(" does not exist");
                message
            },
        }
    }
}

/// Says that there is no storage for a repository, whose URI is given as it is shown.
pub fn unknown_repository(shown: &str) -> (message: String)
    ensures
        message@ == "no storage repository for repository "@ + shown@,
{
    joined("no storage repository for repository ", shown)
}

/// Whether two byte strings are the same.
fn same_bytes(a: &Vec<u8>, b: &Vec<u8>) -> (result: bool)
    ensures
        result == (a@ == b@),
{
    if a.len() != b.len() {
        return false;
    }
    let mut i: usize = 0;
    while i < a.len()
        invariant
            i <= a@.len() == b@.len(),
            forall|k: int| 0 <= k < i ==> a@[k] == b@[k],
        decreases a.len() - i,
    {
        if a[i] != b[i] {
            return false;
        }
        i = i + 1;
    }
    assert(a@ =~= b@);
    true
}

fn same_chunk(a: &Option<StoreChunk>, b: &Option<StoreChunk>) -> (result: bool)
    ensures
        result == (chunk_view(*a) == chunk_view(*b)),
{
    match (a, b) {
        (Some(a), Some(b)) => a.kind == b.kind && a.hash == b.hash && same_bytes(&a.data, &b.data),
        (None, None) => true,
        _ => false,
    }
}

fn same_answer(a: &AggrChunk, b: &AggrChunk) -> (result: bool)
    ensures
        result == (a@ == b@),
{
    a.min_time == b.min_time && a.max_time == b.max_time && same_chunk(&a.raw, &b.raw)
        && same_chunk(&a.count, &b.count) && same_chunk(&a.sum, &b.sum) && same_chunk(
        &a.min,
        &b.min,
    ) && same_chunk(&a.max, &b.max) && same_chunk(&a.counter, &b.counter)
}

/// What the chunks of a list hold.
pub open spec fn answer_models(chunks: Seq<AggrChunk>) -> Seq<AggrChunkModel> {
    chunks.map_values(|chunk: AggrChunk| chunk@)
}

fn holds_answer(chunks: &Vec<AggrChunk>, chunk: &AggrChunk) -> (found: bool)
    ensures
        found == answer_models(chunks@).contains(chunk@),
{
    let ghost models = answer_models(chunks@);
    let mut i: usize = 0;
    while i < chunks.len()
        invariant
            i <= chunks@.len(),
            models == answer_models(chunks@),
            forall|k: int| 0 <= k < i ==> #[trigger] models[k] != chunk@,
        decreases chunks.len() - i,
    {
        assert(models[i as int] == chunks@[i as int]@);
        if same_answer(&chunks[i], chunk) {
            return true;
        }
        i = i + 1;
    }
    false
}

/// A series of an answer.
pub struct StoreSeries {
    pub labels: Labels,
    pub chunks: Vec<AggrChunk>,
}

/// What a series of an answer holds.
#[verifier::ext_equal]
pub struct StoreSeriesModel {
    pub labels: Seq<(Seq<char>, Seq<char>)>,
    pub chunks: Seq<AggrChunkModel>,
}

impl View for StoreSeries {
    type V = StoreSeriesModel;

    open spec fn view(&self) -> StoreSeriesModel {
        StoreSeriesModel { labels: self.labels.pairs(), chunks: answer_models(self.chunks@) }
    }
}

/// What the series of a list hold.
pub open spec fn store_series_models(series: Seq<StoreSeries>) -> Seq<StoreSeriesModel> {
    series.map_values(|one: StoreSeries| one@)
}

/// The texts of a list.
pub open spec fn text_views(texts: Seq<String>) -> Seq<Seq<char>> {
    texts.map_values(|text: String| text@)
}

/// A part of an answer.
pub enum SeriesResponse {
    Series(StoreSeries),
    Batch(Vec<StoreSeries>),
    Warning(String),
    QueriedBlocks(Vec<String>),
}

/// What a part of an answer holds.
pub enum SeriesResponseModel {
    Series(StoreSeriesModel),
    Batch(Seq<StoreSeriesModel>),
    Warning(Seq<char>),
    QueriedBlocks(Seq<Seq<char>>),
}

impl View for SeriesResponse {
    type V = SeriesResponseModel;

    open spec fn view(&self) -> SeriesResponseModel {
        match self {
            SeriesResponse::Series(series) => SeriesResponseModel::Series(series@),
            SeriesResponse::Batch(series) => SeriesResponseModel::Batch(
                store_series_models(series@),
            ),
            SeriesResponse::Warning(text) => SeriesResponseModel::Warning(text@),
            SeriesResponse::QueriedBlocks(ids) => SeriesResponseModel::QueriedBlocks(
                text_views(ids@),
            ),
        }
    }
}

/// What the parts of an answer hold.
pub open spec fn response_models(responses: Seq<SeriesResponse>) -> Seq<SeriesResponseModel> {
    responses.map_values(|response: SeriesResponse| response@)
}

/// How an answer is put together: how many series it holds at most, whether chunks are left out,
/// whether an error ends it, and whether equal chunks of a series are held once.
#[derive(Clone, Copy, Debug, PartialEq, Eq, Structural)]
pub struct AnswerSettings {
    pub limit: u64,
    pub skip_chunks: bool,
    pub abort_on_error: bool,
    pub collapse: bool,
}

/// An answer while it is put together. Chunks are added to the series that is being built; the
/// series ends when its labels are given.
pub struct SeriesBuilder {
    pub settings: AnswerSettings,
    pub series: Vec<StoreSeries>,
    pub chunks: Vec<AggrChunk>,
    pub warnings: Vec<String>,
}

/// What an answer holds while it is put together.
#[verifier::ext_equal]
pub struct BuilderModel {
    pub series: Seq<StoreSeriesModel>,
    pub chunks: Seq<AggrChunkModel>,
    pub warnings: Seq<Seq<char>>,
}

/// What came of a chunk: a part of the answer, nothing, or an error.
pub open spec fn outcome_model(outcome: Result<Option<AggrChunk>, StoreError>) -> Result<
    Option<AggrChunkModel>,
    StoreErrorModel,
> {
    match outcome {
        Ok(chunk) => Ok(answer_view(chunk)),
        Err(error) => Err(error@),
    }
}

/// The chunks of a series with what came of them.
pub struct SeriesOutcome {
    pub labels: Seq<(Seq<char>, Seq<char>)>,
    pub chunks: Seq<Result<Option<AggrChunkModel>, StoreErrorModel>>,
}

impl BuilderModel {
    /// The answer before the first series.
    pub open spec fn empty() -> BuilderModel {
        BuilderModel { series: Seq::empty(), chunks: Seq::empty(), warnings: Seq::empty() }
    }

    /// The answer takes another series.
    pub open spec fn wants(self, settings: AnswerSettings) -> bool {
        self.series.len() < settings.limit
    }

    /// The answer after what came of a chunk was added to the series that is being built.
    pub open spec fn after_chunk(
        self,
        settings: AnswerSettings,
        outcome: Result<Option<AggrChunkModel>, StoreErrorModel>,
    ) -> BuilderModel {
        match outcome {
            Ok(None) => self,
            Ok(Some(chunk)) => if settings.collapse && self.chunks.contains(chunk) {
                self
            } else {
                BuilderModel { chunks: self.chunks.push(chunk), ..self }
            },
            Err(error) => if settings.abort_on_error {
                self
            } else {
                BuilderModel { warnings: self.warnings.push(error.text()), ..self }
            },
        }
    }

    /// The answer after the series that is being built has ended. It is part of the answer if it has
    /// chunks, or if none are asked for.
    pub open spec fn after_series(
        self,
        settings: AnswerSettings,
        labels: Seq<(Seq<char>, Seq<char>)>,
    ) -> BuilderModel {
        if settings.skip_chunks || self.chunks.len() > 0 {
            BuilderModel {
                series: self.series.push(StoreSeriesModel { labels, chunks: self.chunks }),
                chunks: Seq::empty(),
                warnings: self.warnings,
            }
        } else {
            self
        }
    }

    /// The answer after what came of some chunks was added.
    pub open spec fn after_chunks(
        self,
        settings: AnswerSettings,
        outcomes: Seq<Result<Option<AggrChunkModel>, StoreErrorModel>>,
    ) -> BuilderModel
        decreases outcomes.len(),
    {
        if outcomes.len() == 0 {
            self
        } else {
            self.after_chunks(settings, outcomes.drop_last()).after_chunk(settings, outcomes.last())
        }
    }

    /// The answer after some series were added, as long as it takes another one.
    pub open spec fn after_all(
        self,
        settings: AnswerSettings,
        outcomes: Seq<SeriesOutcome>,
    ) -> BuilderModel
        decreases outcomes.len(),
    {
        if outcomes.len() == 0 || !self.wants(settings) {
            self
        } else {
            self.after_chunks(settings, outcomes[0].chunks).after_series(
                settings,
                outcomes[0].labels,
            ).after_all(settings, outcomes.skip(1))
        }
    }
}

impl View for SeriesBuilder {
    type V = BuilderModel;

    open spec fn view(&self) -> BuilderModel {
        BuilderModel {
            series: store_series_models(self.series@),
            chunks: answer_models(self.chunks@),
            warnings: text_views(self.warnings@),
        }
    }
}

impl SeriesBuilder {
    /// The answer before the first series. Errors end it where partial answers are not wanted.
    /// Equal chunks of a series are held once where labels are left out, since then a series may
    /// come from several replicas.
    pub fn new(
        plan: &SeriesPlan,
        skip_chunks: bool,
        partial_response_disabled: bool,
        abort_strategy: bool,
        leaves_labels_out: bool,
    ) -> (builder: Self)
        ensures
            builder.settings == (AnswerSettings {
                limit: plan.limit,
                skip_chunks,
                abort_on_error: partial_response_disabled || abort_strategy,
                collapse: leaves_labels_out,
            }),
            builder@ == BuilderModel::empty(),
    {
        let settings = AnswerSettings {
            limit: plan.limit,
            skip_chunks,
            abort_on_error: partial_response_disabled || abort_strategy,
            collapse: leaves_labels_out,
        };
        let builder = SeriesBuilder {
            settings,
            series: Vec::new(),
            chunks: Vec::new(),
            warnings: Vec::new(),
        };
        assert(builder@ =~= BuilderModel::empty());
        builder
    }

    /// Whether the answer takes another series.
    pub fn wants_series(&self) -> (result: bool)
        ensures
            result == self@.wants(self.settings),
    {
        (self.series.len() as u64) < self.settings.limit
    }

    /// Adds what came of a chunk to the series that is being built.
    pub fn add_chunk(&mut self, outcome: Result<Option<AggrChunk>, StoreError>) -> (result: Result<
        (),
        StoreError,
    >)
        ensures
            final(self).settings == old(self).settings,
            final(self)@ == old(self)@.after_chunk(old(self).settings, outcome_model(outcome)),
            match outcome {
                Err(error) if old(self).settings.abort_on_error => result == Err::<(), StoreError>(
                    error,
                ),
                _ => result is Ok,
            },
    {
        let ghost before = self@;
        match outcome {
            Ok(None) => Ok(()),
            Ok(Some(chunk)) => {
                if self.settings.collapse && holds_answer(&self.chunks, &chunk) {
                    return Ok(());
                }
                let ghost model = chunk@;
                self.chunks.push(chunk);
                assert(self@.chunks =~= before.chunks.push(model));
                Ok(())
            },
            Err(error) => {
                if self.settings.abort_on_error {
                    return Err(error);
                }
                let message = error.message();
                let ghost text = message@;
                self.warnings.push(message);
                assert(self@.warnings =~= before.warnings.push(text));
                Ok(())
            },
        }
    }

    /// Ends the series that is being built. It is part of the answer if it has chunks, or if none
    /// are asked for.
    pub fn finish_series(&mut self, labels: Labels)
        ensures
            final(self).settings == old(self).settings,
            final(self)@ == old(self)@.after_series(old(self).settings, labels.pairs()),
    {
        let ghost before = self@;
        let mut chunks: Vec<AggrChunk> = Vec::new();
        std::mem::swap(&mut chunks, &mut self.chunks);
        if self.settings.skip_chunks || chunks.len() > 0 {
            let series = StoreSeries { labels, chunks };
            let ghost model = series@;
            self.series.push(series);
            assert(self@.series =~= before.series.push(model));
            assert(self@.chunks =~= Seq::<AggrChunkModel>::empty());
        } else {
            assert(self@.chunks =~= before.chunks);
        }
    }

    /// Hands the answer out: the series, one by one or in batches, then the warnings, and at last the
    /// ids of the blocks that were read.
    pub fn responses(self, response_batch_size: i64, queried: Vec<String>) -> (responses: Vec<
        SeriesResponse,
    >)
        ensures
            response_models(responses@) == answer_parts(
                self@,
                response_batch_size as int,
                text_views(queried@),
            ),
    {
        let mut responses = if response_batch_size > 1 {
            batch_series(self.series, response_batch_size as u64)
        } else {
            single_series(self.series)
        };
        let ghost before = response_models(responses@);
        let warnings = self.warnings;
        let ghost texts = text_views(warnings@);
        let mut i: usize = 0;
        assert(before + warned(texts.take(0)) =~= before);
        while i < warnings.len()
            invariant
                i <= warnings@.len(),
                texts == text_views(warnings@),
                response_models(responses@) == before + warned(texts.take(i as int)),
            decreases warnings.len() - i,
        {
            let ghost current = responses@;
            responses.push(SeriesResponse::Warning(warnings[i].clone()));
            proof {
                assert(response_models(responses@) =~= response_models(current).push(
                    SeriesResponseModel::Warning(texts[i as int]),
                ));
                assert(texts.take(i + 1) =~= texts.take(i as int).push(texts[i as int]));
                assert(warned(texts.take(i + 1)) =~= warned(texts.take(i as int)).push(
                    SeriesResponseModel::Warning(texts[i as int]),
                ));
            }
            i = i + 1;
        }
        assert(texts.take(warnings@.len() as int) =~= texts);
        let ghost current = response_models(responses@);
        let ghost ids = text_views(queried@);
        responses.push(SeriesResponse::QueriedBlocks(queried));
        assert(response_models(responses@) =~= current.push(SeriesResponseModel::QueriedBlocks(ids)));
        responses
    }
}

/// The parts of an answer: the series, then the warnings, and at last the blocks that were read.
pub open spec fn answer_parts(
    state: BuilderModel,
    size: int,
    queried: Seq<Seq<char>>,
) -> Seq<SeriesResponseModel> {
    (batched(state.series, size) + warned(state.warnings)).push(
        SeriesResponseModel::QueriedBlocks(queried),
    )
}

/// The parts of an answer for series, one by one.
pub open spec fn singles(series: Seq<StoreSeriesModel>) -> Seq<SeriesResponseModel> {
    series.map_values(|one: StoreSeriesModel| SeriesResponseModel::Series(one))
}

/// The parts of an answer for series in batches of a size; the last one may be smaller.
pub open spec fn batches(series: Seq<StoreSeriesModel>, size: int) -> Seq<SeriesResponseModel>
    decreases series.len(),
{
    if series.len() == 0 || size <= 0 {
        Seq::empty()
    } else if series.len() <= size {
        seq![SeriesResponseModel::Batch(series)]
    } else {
        seq![SeriesResponseModel::Batch(series.take(size))] + batches(series.skip(size), size)
    }
}

/// The parts of an answer for series, in batches if a size of more than one is asked for.
pub open spec fn batched(series: Seq<StoreSeriesModel>, size: int) -> Seq<SeriesResponseModel> {
    if size > 1 {
        batches(series, size)
    } else {
        singles(series)
    }
}

/// The parts of an answer for warnings.
pub open spec fn warned(warnings: Seq<Seq<char>>) -> Seq<SeriesResponseModel> {
    warnings.map_values(|text: Seq<char>| SeriesResponseModel::Warning(text))
}

fn single_series(series: Vec<StoreSeries>) -> (responses: Vec<SeriesResponse>)
    ensures
        response_models(responses@) == singles(store_series_models(series@)),
{
    let ghost models = store_series_models(series@);
    let mut rest = crate::sort::reversed(series);
    let mut responses: Vec<SeriesResponse> = Vec::new();
    assert(response_models(responses@) =~= singles(models.take(0)));
    while rest.len() > 0
        invariant
            rest@.len() + responses@.len() == models.len(),
            store_series_models(rest@) =~= models.skip(responses@.len() as int).reverse(),
            response_models(responses@) == singles(models.take(responses@.len() as int)),
        decreases rest.len(),
    {
        let ghost position = responses@.len() as int;
        let ghost left = rest@;
        let ghost current = responses@;
        if let Some(one) = rest.pop() {
            proof {
                assert(store_series_models(left).last() == one@);
                assert(models.skip(position).reverse().last() == models[position]);
                assert(models.skip(position).reverse().drop_last() =~= models.skip(
                    position + 1,
                ).reverse());
                assert(store_series_models(rest@) =~= store_series_models(left).drop_last());
                assert(models.take(position + 1) =~= models.take(position).push(models[position]));
            }
            responses.push(SeriesResponse::Series(one));
            assert(response_models(responses@) =~= response_models(current).push(
                SeriesResponseModel::Series(models[position]),
            ));
            assert(singles(models.take(position + 1)) =~= singles(models.take(position)).push(
                SeriesResponseModel::Series(models[position]),
            ));
        }
    }
    assert(models.take(models.len() as int) =~= models);
    responses
}

fn batch_series(series: Vec<StoreSeries>, size: u64) -> (responses: Vec<SeriesResponse>)
    requires
        size > 0,
    ensures
        response_models(responses@) == batches(store_series_models(series@), size as int),
{
    let ghost models = store_series_models(series@);
    let mut rest = crate::sort::reversed(series);
    let mut responses: Vec<SeriesResponse> = Vec::new();
    let mut current: Vec<StoreSeries> = Vec::new();
    proof {
        assert(response_models(responses@) =~= Seq::<SeriesResponseModel>::empty());
        assert(store_series_models(current@) + store_series_models(rest@).reverse() =~= models);
        assert(batches(models, size as int) =~= response_models(responses@) + batches(
            models,
            size as int,
        ));
    }
    while rest.len() > 0
        invariant
            size > 0,
            current@.len() < size,
            batches(models, size as int) == response_models(responses@) + batches(
                store_series_models(current@) + store_series_models(rest@).reverse(),
                size as int,
            ),
        decreases rest.len(),
    {
        let ghost left = rest@;
        let ghost before = current@;
        if let Some(one) = rest.pop() {
            let ghost model = one@;
            current.push(one);
            proof {
                assert(store_series_models(left) =~= store_series_models(rest@).push(model));
                assert(store_series_models(current@) =~= store_series_models(before).push(model));
                assert(store_series_models(before) + store_series_models(left).reverse()
                    =~= store_series_models(current@) + store_series_models(rest@).reverse());
            }
            if current.len() as u64 == size {
                let ghost batch = store_series_models(current@);
                let ghost remaining = store_series_models(rest@).reverse();
                let ghost said = response_models(responses@);
                let ghost previous = responses@;
                responses.push(SeriesResponse::Batch(current));
                current = Vec::new();
                proof {
                    let part = SeriesResponseModel::Batch(batch);
                    assert(response_models(responses@) =~= said.push(part));
                    assert((batch + remaining).take(size as int) =~= batch);
                    assert((batch + remaining).skip(size as int) =~= remaining);
                    assert(store_series_models(current@) + remaining =~= remaining);
                    if remaining.len() == 0 {
                        assert(batch + remaining =~= batch);
                        assert(batches(remaining, size as int)
                            =~= Seq::<SeriesResponseModel>::empty());
                    }
                    assert(batches(batch + remaining, size as int) =~= seq![part] + batches(
                        remaining,
                        size as int,
                    ));
                    assert(said + (seq![part] + batches(remaining, size as int)) =~= said.push(part)
                        + batches(remaining, size as int));
                }
            }
        }
    }
    let ghost batch = store_series_models(current@);
    assert(batch + store_series_models(rest@).reverse() =~= batch);
    let ghost said = response_models(responses@);
    if current.len() > 0 {
        responses.push(SeriesResponse::Batch(current));
        assert(response_models(responses@) =~= said.push(SeriesResponseModel::Batch(batch)));
        assert(response_models(responses@) =~= batches(models, size as int));
    } else {
        assert(response_models(responses@) =~= batches(models, size as int));
    }
    responses
}

/// The series of the parts of an answer, in order.
pub open spec fn response_series(responses: Seq<SeriesResponseModel>) -> Seq<StoreSeriesModel>
    decreases responses.len(),
{
    if responses.len() == 0 {
        Seq::empty()
    } else {
        let first = match responses[0] {
            SeriesResponseModel::Series(series) => seq![series],
            SeriesResponseModel::Batch(series) => series,
            SeriesResponseModel::Warning(_) => Seq::empty(),
            SeriesResponseModel::QueriedBlocks(_) => Seq::empty(),
        };
        first + response_series(responses.skip(1))
    }
}

/// A part of an answer is a batch that is not empty and not larger than a size.
pub open spec fn is_batch(response: SeriesResponseModel, size: int) -> bool {
    match response {
        SeriesResponseModel::Batch(series) => 0 < series.len() <= size,
        _ => false,
    }
}

/// Whatever the size of the batches, an answer holds the same series in the same order, and no
/// batch is empty or larger than its size.
pub proof fn law_batches_hold_all_series(series: Seq<StoreSeriesModel>, size: int)
    ensures
        response_series(batched(series, size)) == series,
        size > 1 ==> forall|i: int|
            0 <= i < batched(series, size).len() ==> is_batch(#[trigger] batched(series, size)[i], size),
{
    if size > 1 {
        lemma_batches_hold(series, size);
    } else {
        lemma_singles_hold(series);
    }
}

proof fn lemma_singles_hold(series: Seq<StoreSeriesModel>)
    ensures
        response_series(singles(series)) == series,
    decreases series.len(),
{
    if series.len() == 0 {
        assert(response_series(singles(series)) =~= series);
    } else {
        let rest = series.skip(1);
        lemma_singles_hold(rest);
        assert(singles(series).skip(1) =~= singles(rest));
        assert(seq![series[0]] + rest =~= series);
    }
}

proof fn lemma_batches_hold(series: Seq<StoreSeriesModel>, size: int)
    requires
        size > 1,
    ensures
        response_series(batches(series, size)) == series,
        forall|i: int|
            0 <= i < batches(series, size).len() ==> is_batch(#[trigger] batches(series, size)[i], size),
    decreases series.len(),
{
    let parts = batches(series, size);
    if series.len() == 0 {
        assert(response_series(parts) =~= series);
    } else if series.len() <= size {
        assert(parts.skip(1) =~= Seq::<SeriesResponseModel>::empty());
        assert(series + response_series(parts.skip(1)) =~= series);
    } else {
        let rest = series.skip(size);
        lemma_batches_hold(rest, size);
        assert(parts.skip(1) =~= batches(rest, size));
        assert(series.take(size) + rest =~= series);
        assert forall|i: int| 0 <= i < parts.len() implies is_batch(#[trigger] parts[i], size) by {
            if i > 0 {
                assert(parts[i] == batches(rest, size)[i - 1]);
            }
        }
    }
}

proof fn lemma_chunks_leave_series(
    state: BuilderModel,
    settings: AnswerSettings,
    outcomes: Seq<Result<Option<AggrChunkModel>, StoreErrorModel>>,
)
    ensures
        state.after_chunks(settings, outcomes).series == state.series,
    decreases outcomes.len(),
{
    if outcomes.len() > 0 {
        lemma_chunks_leave_series(state, settings, outcomes.drop_last());
    }
}

proof fn lemma_limit_does_not_matter_for_chunks(
    state: BuilderModel,
    first: AnswerSettings,
    second: AnswerSettings,
    outcomes: Seq<Result<Option<AggrChunkModel>, StoreErrorModel>>,
)
    requires
        second == (AnswerSettings { limit: second.limit, ..first }),
    ensures
        state.after_chunks(first, outcomes) == state.after_chunks(second, outcomes),
    decreases outcomes.len(),
{
    if outcomes.len() > 0 {
        lemma_limit_does_not_matter_for_chunks(state, first, second, outcomes.drop_last());
    }
}

proof fn lemma_answers_grow(
    state: BuilderModel,
    settings: AnswerSettings,
    outcomes: Seq<SeriesOutcome>,
)
    ensures
        state.series.is_prefix_of(state.after_all(settings, outcomes).series),
    decreases outcomes.len(),
{
    if outcomes.len() > 0 && state.wants(settings) {
        let chunks = outcomes[0].chunks;
        let next = state.after_chunks(settings, chunks).after_series(settings, outcomes[0].labels);
        lemma_chunks_leave_series(state, settings, chunks);
        lemma_answers_grow(next, settings, outcomes.skip(1));
        assert(state.series.is_prefix_of(next.series));
    }
}

proof fn lemma_limited_answer(
    state: BuilderModel,
    some: AnswerSettings,
    all: AnswerSettings,
    outcomes: Seq<SeriesOutcome>,
)
    requires
        all == (AnswerSettings { limit: all.limit, ..some }),
        state.series.len() <= some.limit <= all.limit,
        state.series.len() + outcomes.len() <= all.limit,
    ensures
        state.after_all(some, outcomes).series == first_series(
            state.after_all(all, outcomes).series,
            some.limit as int,
        ),
    decreases outcomes.len(),
{
    let limit = some.limit as int;
    if !state.wants(some) {
        lemma_answers_grow(state, all, outcomes);
        let grown = state.after_all(all, outcomes).series;
        assert(grown.take(limit) =~= state.series);
        assert(first_series(grown, limit) =~= state.series);
    } else if outcomes.len() == 0 {
        assert(first_series(state.series, limit) =~= state.series);
    } else {
        let chunks = outcomes[0].chunks;
        let next = state.after_chunks(some, chunks).after_series(some, outcomes[0].labels);
        lemma_limit_does_not_matter_for_chunks(state, some, all, chunks);
        lemma_chunks_leave_series(state, some, chunks);
        lemma_limited_answer(next, some, all, outcomes.skip(1));
    }
}

/// The first series of an answer, at most so many as a limit says.
pub open spec fn first_series(series: Seq<StoreSeriesModel>, limit: int) -> Seq<StoreSeriesModel> {
    if limit < series.len() {
        series.take(limit)
    } else {
        series
    }
}

/// A positive limit keeps the first series: an answer to a request with the limit holds the first
/// series of the answer to the same request without one, whatever came of the chunks. Without a
/// limit the answer holds all of them.
pub proof fn law_limit_keeps_first_series(
    settings: AnswerSettings,
    limit: i64,
    outcomes: Seq<SeriesOutcome>,
)
    requires
        limit > 0,
        settings.limit == series_limit(0)->Ok_0,
        outcomes.len() <= u64::MAX,
    ensures
        BuilderModel::empty().after_all(
            AnswerSettings { limit: series_limit(limit)->Ok_0, ..settings },
            outcomes,
        ).series == first_series(
            BuilderModel::empty().after_all(settings, outcomes).series,
            limit as int,
        ),
{
    let some = AnswerSettings { limit: series_limit(limit)->Ok_0, ..settings };
    lemma_limited_answer(BuilderModel::empty(), some, settings, outcomes);
}

/// The blocks that were read come last in an answer, once, and the series before them are those of
/// the answer.
pub proof fn law_queried_blocks_come_last(
    state: BuilderModel,
    size: int,
    queried: Seq<Seq<char>>,
)
    ensures
        answer_parts(state, size, queried).last() == SeriesResponseModel::QueriedBlocks(queried),
        forall|i: int|
            0 <= i < answer_parts(state, size, queried).len() - 1 ==> !(#[trigger] answer_parts(
                state,
                size,
                queried,
            )[i] is QueriedBlocks),
{
    let parts = answer_parts(state, size, queried);
    let series = batched(state.series, size);
    law_batches_hold_all_series(state.series, size);
    assert forall|i: int| 0 <= i < parts.len() - 1 implies !(#[trigger] parts[i]
        is QueriedBlocks) by {
        if i < series.len() {
            assert(parts[i] == series[i]);
            if size > 1 {
                assert(is_batch(series[i], size));
            }
        } else {
            assert(parts[i] == warned(state.warnings)[i - series.len()]);
        }
    }
}

/// What a chunk does to the series that is being built: one that holds something is there
/// afterwards, behind those that were there before; where equal chunks are held once, it is not added
/// a second time; an error ends the answer or leaves its text as a warning; nothing else changes.
pub proof fn law_chunks_are_added(
    state: BuilderModel,
    settings: AnswerSettings,
    outcome: Result<Option<AggrChunkModel>, StoreErrorModel>,
)
    ensures
        ({
            let after = state.after_chunk(settings, outcome);
            &&& after.series == state.series
            &&& state.chunks.is_prefix_of(after.chunks)
            &&& state.warnings.is_prefix_of(after.warnings)
            &&& match outcome {
                Ok(Some(chunk)) => {
                    &&& after.chunks.contains(chunk)
                    &&& after.warnings == state.warnings
                    &&& !settings.collapse ==> after.chunks.len() == state.chunks.len() + 1
                        && after.chunks.last() == chunk
                    &&& settings.collapse && state.chunks.contains(chunk) ==> after == state
                    &&& !state.chunks.contains(chunk) ==> after.chunks.len() == state.chunks.len()
                        + 1
                },
                Ok(None) => after == state,
                Err(error) => {
                    &&& after.chunks == state.chunks
                    &&& settings.abort_on_error ==> after == state
                    &&& !settings.abort_on_error ==> after.warnings.len() == state.warnings.len()
                        + 1 && after.warnings.last() == error.text()
                },
            }
        }),
{
    let after = state.after_chunk(settings, outcome);
    if let Ok(Some(chunk)) = outcome {
        if after.chunks.len() > state.chunks.len() {
            assert(after.chunks[state.chunks.len() as int] == chunk);
        }
    }
}

/// A series that ends is the last one of the answer, with its labels and all chunks that were added
/// for it, if it has any or if none are asked for; then the next one starts without chunks.
pub proof fn law_series_hold_their_chunks(
    state: BuilderModel,
    settings: AnswerSettings,
    labels: Seq<(Seq<char>, Seq<char>)>,
)
    ensures
        ({
            let after = state.after_series(settings, labels);
            &&& after.warnings == state.warnings
            &&& after.chunks.len() == 0
            &&& state.series.is_prefix_of(after.series)
            &&& if state.chunks.len() > 0 || settings.skip_chunks {
                &&& after.series.len() == state.series.len() + 1
                &&& after.series.last().labels == labels
                &&& after.series.last().chunks == state.chunks
            } else {
                after.series == state.series
            }
        }),
{
}

/// The parts of an answer stand in the order series, warnings, blocks: the warnings stand behind all
/// series, each as it was given, and the blocks that were read stand at the end.
pub proof fn law_warnings_stand_behind_the_series(
    state: BuilderModel,
    size: int,
    queried: Seq<Seq<char>>,
    i: int,
)
    requires
        0 <= i < state.warnings.len(),
    ensures
        ({
            let parts = answer_parts(state, size, queried);
            let count = parts.len() - 1 - state.warnings.len();
            &&& count >= 0
            &&& response_series(parts.take(count)) == state.series
            &&& parts[count + i] == SeriesResponseModel::Warning(state.warnings[i])
            &&& parts.last() == SeriesResponseModel::QueriedBlocks(queried)
        }),
{
    let parts = answer_parts(state, size, queried);
    let series = batched(state.series, size);
    assert(parts.take(series.len() as int) =~= series);
    law_batches_hold_all_series(state.series, size);
}

/// Without batches each series is a part of its own.
pub proof fn law_small_batches_are_single_series(series: Seq<StoreSeriesModel>, size: int, i: int)
    requires
        size <= 1,
        0 <= i < series.len(),
    ensures
        batched(series, size).len() == series.len(),
        batched(series, size)[i] == SeriesResponseModel::Series(series[i]),
{
}

/// A request that cannot be understood is answered as an invalid argument, a store that cannot be
/// read as an internal error.
pub proof fn law_errors_tell_requests_from_stores(error: StoreErrorModel)
    ensures
        error.status() == StatusCode::InvalidArgument <==> (error is UnknownMatcherType
            || error is InvalidPattern || error is UnknownAggregate || error is NegativeLimit
            || error is UnreadableHints),
        error.status() == StatusCode::Internal <==> (error is InvalidLabels
            || error is UnknownRepository || error is UnreadableChunk || error is InvalidChunk
            || error is MissingAggregate),
{
}

} // verus!
