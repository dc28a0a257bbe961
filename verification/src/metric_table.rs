//! The tables of metrics: filters on their rows, and the rows that chunks give.

use vstd::prelude::*;

use crate::bits::ChunkError;
#[allow(unused_imports)]
use crate::block_index::metric_columns;
use crate::chunk_reader::{decode_selected, AggregateKind, AggregateSelection, Sample};
#[allow(unused_imports)]
use crate::chunk_reader::{record_samples, sample_models, SampleModel};
#[allow(unused_imports)]
use crate::histogram::{BucketsModel, HistogramModel};
use crate::histogram::{HistogramBuckets, HistogramCount, HistogramSample};
#[allow(unused_imports)]
use crate::labels::{json_entries, label_value};
use crate::labels::{copy_labels, labels_from_json, value_or_empty, Labels};
use crate::pattern::{compile_failure, ignore_case, is_match};
#[allow(unused_imports)]
use crate::pattern::{case_insensitive, regex_failure, regex_matches};
use crate::sort::reversed;
#[allow(unused_imports)]
use crate::sorted_map::pairs_map;
use crate::table::{push_optional, push_required, Cell, Column, ColumnKind, HistogramCells};
#[allow(unused_imports)]
use crate::table::{
    cell_fits, column_models, list_view, optional, required, CellModel, ColumnModel,
    HistogramCellsModel,
};
#[allow(unused_imports)]
use crate::text::has_suffix;
use crate::text::{ends_with, same};

verus! {

/// An operator of a query.
#[derive(Clone, Copy, Debug, PartialEq, Eq, Structural)]
pub enum FilterOperator {
    Eq,
    NotEq,
    Gt,
    GtEq,
    Lt,
    LtEq,
    RegexMatch,
    RegexIMatch,
    RegexNotMatch,
    RegexNotIMatch,
    Other,
}

/// A constant of a query. Integers of all sizes but the largest unsigned one are held in 64 bits
/// with a sign; times are held in milliseconds.
pub enum Scalar {
    Integer(i64),
    Unsigned(u64),
    Timestamp(i64),
    Text(String),
    Other,
}

/// What a constant of a query is.
pub enum ScalarModel {
    Integer(i64),
    Unsigned(u64),
    Timestamp(i64),
    Text(Seq<char>),
    Other,
}

impl View for Scalar {
    type V = ScalarModel;

    open spec fn view(&self) -> ScalarModel {
        match self {
            Scalar::Integer(value) => ScalarModel::Integer(*value),
            Scalar::Unsigned(value) => ScalarModel::Unsigned(*value),
            Scalar::Timestamp(value) => ScalarModel::Timestamp(*value),
            Scalar::Text(value) => ScalarModel::Text(value@),
            Scalar::Other => ScalarModel::Other,
        }
    }
}

/// An operand of a filter.
pub enum FilterExpr {
    Column(String),
    Literal(Scalar),
    Cast(Box<FilterExpr>),
    Function(String, Vec<FilterExpr>),
    Other,
}

/// The name of the column that an operand is, casts aside.
pub open spec fn column_of(expr: FilterExpr) -> Option<Seq<char>>
    decreases expr,
{
    match expr {
        FilterExpr::Column(name) => Some(name@),
        FilterExpr::Cast(inner) => column_of(*inner),
        _ => None,
    }
}

/// The number that a constant stands for.
pub open spec fn integer_of(scalar: ScalarModel) -> Option<i64> {
    match scalar {
        ScalarModel::Integer(value) => Some(value),
        ScalarModel::Unsigned(value) => if value <= i64::MAX {
            Some(value as i64)
        } else {
            None
        },
        ScalarModel::Timestamp(value) => Some(value),
        _ => None,
    }
}

/// The text that a constant is.
pub open spec fn text_of(scalar: ScalarModel) -> Option<Seq<char>> {
    match scalar {
        ScalarModel::Text(value) => Some(value),
        _ => None,
    }
}

/// The constant that an operand is, casts aside. A call that makes a time of a number of
/// milliseconds is a constant too.
pub open spec fn scalar_of(expr: FilterExpr) -> Option<ScalarModel>
    decreases expr,
{
    match expr {
        FilterExpr::Literal(scalar) => Some(scalar@),
        FilterExpr::Cast(inner) => scalar_of(*inner),
        FilterExpr::Function(name, arguments) => if name@ == "to_timestamp_millis"@
            && arguments@.len() == 1 {
            match scalar_of(arguments@[0]) {
                Some(scalar) => match integer_of(scalar) {
                    Some(value) => Some(ScalarModel::Timestamp(value)),
                    None => None,
                },
                None => None,
            }
        } else {
            None
        },
        _ => None,
    }
}

/// The name of the column that an operand is, casts aside.
pub fn column_name(expr: &FilterExpr) -> (name: Option<String>)
    ensures
        match name {
            Some(name) => column_of(*expr) == Some(name@),
            None => column_of(*expr) is None,
        },
    decreases expr,
{
    match expr {
        FilterExpr::Column(name) => Some(name.clone()),
        FilterExpr::Cast(inner) => column_name(inner),
        _ => None,
    }
}

/// The number that a constant stands for.
pub fn scalar_i64(scalar: &Scalar) -> (value: Option<i64>)
    ensures
        value == integer_of(scalar@),
{
    match scalar {
        Scalar::Integer(value) => Some(*value),
        Scalar::Unsigned(value) => if *value <= i64::MAX as u64 {
            Some(*value as i64)
        } else {
            None
        },
        Scalar::Timestamp(value) => Some(*value),
        _ => None,
    }
}

/// The text that a constant is.
pub fn scalar_string(scalar: &Scalar) -> (text: Option<String>)
    ensures
        match text {
            Some(text) => text_of(scalar@) == Some(text@),
            None => text_of(scalar@) is None,
        },
{
    match scalar {
        Scalar::Text(value) => Some(value.clone()),
        _ => None,
    }
}

fn copy_scalar(scalar: &Scalar) -> (copy: Scalar)
    ensures
        copy@ == scalar@,
{
    match scalar {
        Scalar::Integer(value) => Scalar::Integer(*value),
        Scalar::Unsigned(value) => Scalar::Unsigned(*value),
        Scalar::Timestamp(value) => Scalar::Timestamp(*value),
        Scalar::Text(value) => Scalar::Text(value.clone()),
        Scalar::Other => Scalar::Other,
    }
}

/// The constant that an operand is, casts aside.
pub fn scalar_value(expr: &FilterExpr) -> (scalar: Option<Scalar>)
    ensures
        match scalar {
            Some(scalar) => scalar_of(*expr) == Some(scalar@),
            None => scalar_of(*expr) is None,
        },
    decreases expr,
{
    match expr {
        FilterExpr::Literal(scalar) => Some(copy_scalar(scalar)),
        FilterExpr::Cast(inner) => scalar_value(inner),
        FilterExpr::Function(name, arguments) => {
            if !same(name.as_str(), "to_timestamp_millis") || arguments.len() != 1 {
                return None;
            }
            match scalar_value(&arguments[0]) {
                Some(scalar) => match scalar_i64(&scalar) {
                    Some(value) => Some(Scalar::Timestamp(value)),
                    None => None,
                },
                None => None,
            }
        },
        _ => None,
    }
}

/// The operator that says the same with its operands the other way round.
pub open spec fn reversed_operator(operator: FilterOperator) -> Option<FilterOperator> {
    match operator {
        FilterOperator::Eq => Some(FilterOperator::Eq),
        FilterOperator::NotEq => Some(FilterOperator::NotEq),
        FilterOperator::Gt => Some(FilterOperator::Lt),
        FilterOperator::GtEq => Some(FilterOperator::LtEq),
        FilterOperator::Lt => Some(FilterOperator::Gt),
        FilterOperator::LtEq => Some(FilterOperator::GtEq),
        _ => None,
    }
}

/// The operator that says the same with its operands the other way round.
pub fn reverse_operator(operator: FilterOperator) -> (result: Option<FilterOperator>)
    ensures
        result == reversed_operator(operator),
{
    match operator {
        FilterOperator::Eq => Some(FilterOperator::Eq),
        FilterOperator::NotEq => Some(FilterOperator::NotEq),
        FilterOperator::Gt => Some(FilterOperator::Lt),
        FilterOperator::GtEq => Some(FilterOperator::LtEq),
        FilterOperator::Lt => Some(FilterOperator::Gt),
        FilterOperator::LtEq => Some(FilterOperator::GtEq),
        _ => None,
    }
}

/// An operator holds of two numbers.
pub open spec fn numbers_hold(left: int, operator: FilterOperator, right: int) -> bool {
    match operator {
        FilterOperator::Eq => left == right,
        FilterOperator::NotEq => left != right,
        FilterOperator::Gt => left > right,
        FilterOperator::GtEq => left >= right,
        FilterOperator::Lt => left < right,
        FilterOperator::LtEq => left <= right,
        _ => false,
    }
}

/// Whether an operator holds of two numbers.
pub fn compare_i64(left: i64, operator: FilterOperator, right: i64) -> (result: bool)
    ensures
        result == numbers_hold(left as int, operator, right as int),
{
    match operator {
        FilterOperator::Eq => left == right,
        FilterOperator::NotEq => left != right,
        FilterOperator::Gt => left > right,
        FilterOperator::GtEq => left >= right,
        FilterOperator::Lt => left < right,
        FilterOperator::LtEq => left <= right,
        _ => false,
    }
}

/// An operator holds of two texts, which can be equal or not.
pub open spec fn texts_hold(left: Seq<char>, operator: FilterOperator, right: Seq<char>) -> bool {
    match operator {
        FilterOperator::Eq => left == right,
        FilterOperator::NotEq => left != right,
        _ => false,
    }
}

/// Whether an operator holds of two texts.
pub fn compare_str(left: &str, operator: FilterOperator, right: &str) -> (result: bool)
    ensures
        result == texts_hold(left@, operator, right@),
{
    match operator {
        FilterOperator::Eq => same(left, right),
        FilterOperator::NotEq => !same(left, right),
        _ => false,
    }
}

/// Reversing an operator and its operands says the same, and reversing it twice gives it back.
pub proof fn law_reversed_operator_says_the_same(left: int, operator: FilterOperator, right: int)
    ensures
        reversed_operator(operator) matches Some(reversed) ==> numbers_hold(left, operator, right)
            == numbers_hold(right, reversed, left) && reversed_operator(reversed) == Some(operator),
        reversed_operator(operator) is None ==> !numbers_hold(left, operator, right),
{
}

/// A condition on the rows of a metric.
#[allow(inconsistent_fields)]
pub enum MetricFilter {
    Timestamp { operator: FilterOperator, value: i64 },
    Resolution { operator: FilterOperator, value: i64 },
    Label { name: String, operator: FilterOperator, value: String },
    LabelRegex { name: String, pattern: String, negated: bool },
    Aggregate { value: AggregateKind },
}

/// What a condition on the rows of a metric says.
#[allow(inconsistent_fields)]
pub enum FilterModel {
    Timestamp { operator: FilterOperator, value: i64 },
    Resolution { operator: FilterOperator, value: i64 },
    Label { name: Seq<char>, operator: FilterOperator, value: Seq<char> },
    LabelRegex { name: Seq<char>, pattern: Seq<char>, negated: bool },
    Aggregate { value: AggregateKind },
}

impl View for MetricFilter {
    type V = FilterModel;

    open spec fn view(&self) -> FilterModel {
        match self {
            MetricFilter::Timestamp { operator, value } => FilterModel::Timestamp {
                operator: *operator,
                value: *value,
            },
            MetricFilter::Resolution { operator, value } => FilterModel::Resolution {
                operator: *operator,
                value: *value,
            },
            MetricFilter::Label { name, operator, value } => FilterModel::Label {
                name: name@,
                operator: *operator,
                value: value@,
            },
            MetricFilter::LabelRegex { name, pattern, negated } => FilterModel::LabelRegex {
                name: name@,
                pattern: pattern@,
                negated: *negated,
            },
            MetricFilter::Aggregate { value } => FilterModel::Aggregate { value: *value },
        }
    }
}

/// The aggregate that a text names.
pub open spec fn aggregate_named(text: Seq<char>) -> Option<AggregateKind> {
    if text == "raw"@ {
        Some(AggregateKind::Raw)
    } else if text == "count"@ {
        Some(AggregateKind::Count)
    } else if text == "sum"@ {
        Some(AggregateKind::Sum)
    } else if text == "counter"@ {
        Some(AggregateKind::Counter)
    } else {
        None
    }
}

fn aggregate_of(text: &str) -> (kind: Option<AggregateKind>)
    ensures
        kind == aggregate_named(text@),
{
    if same(text, "raw") {
        Some(AggregateKind::Raw)
    } else if same(text, "count") {
        Some(AggregateKind::Count)
    } else if same(text, "sum") {
        Some(AggregateKind::Sum)
    } else if same(text, "counter") {
        Some(AggregateKind::Counter)
    } else {
        None
    }
}

/// The condition on a label that an operator and a text make.
pub open spec fn label_filter(
    name: Seq<char>,
    operator: FilterOperator,
    value: Seq<char>,
) -> Option<FilterModel> {
    match operator {
        FilterOperator::Eq => Some(FilterModel::Label { name, operator, value }),
        FilterOperator::NotEq => Some(FilterModel::Label { name, operator, value }),
        FilterOperator::RegexMatch => regex_filter(name, value, false),
        FilterOperator::RegexNotMatch => regex_filter(name, value, true),
        FilterOperator::RegexIMatch => regex_filter(name, case_insensitive(value), false),
        FilterOperator::RegexNotIMatch => regex_filter(name, case_insensitive(value), true),
        _ => None,
    }
}

/// The condition that a label matches a pattern, if the pattern compiles.
pub open spec fn regex_filter(name: Seq<char>, pattern: Seq<char>, negated: bool) -> Option<
    FilterModel,
> {
    if regex_failure(pattern) is None {
        Some(FilterModel::LabelRegex { name, pattern, negated })
    } else {
        None
    }
}

/// The condition that a column, an operator and a constant make, if rows can be chosen by it.
pub open spec fn column_filter(
    column: Seq<char>,
    operator: FilterOperator,
    value: ScalarModel,
) -> Option<FilterModel> {
    if column == "timestamp"@ {
        match integer_of(value) {
            Some(value) => Some(FilterModel::Timestamp { operator, value }),
            None => None,
        }
    } else if column == "downsample_resolution"@ {
        match integer_of(value) {
            Some(value) => Some(FilterModel::Resolution { operator, value }),
            None => None,
        }
    } else if column == "value"@ || column == "histogram"@ {
        None
    } else if column == "aggregate_kind"@ {
        match text_of(value) {
            Some(text) => if operator == FilterOperator::Eq {
                match aggregate_named(text) {
                    Some(value) => Some(FilterModel::Aggregate { value }),
                    None => None,
                }
            } else {
                None
            },
            None => None,
        }
    } else {
        match text_of(value) {
            Some(text) => label_filter(column, operator, text),
            None => None,
        }
    }
}

/// The condition that a comparison makes, if rows can be chosen by it. The column may stand on
/// either side.
pub open spec fn filter_of(left: FilterExpr, operator: FilterOperator, right: FilterExpr) -> Option<
    FilterModel,
> {
    match (column_of(left), scalar_of(right)) {
        (Some(column), Some(value)) => column_filter(column, operator, value),
        _ => match (column_of(right), scalar_of(left)) {
            (Some(column), Some(value)) => match reversed_operator(operator) {
                Some(operator) => column_filter(column, operator, value),
                None => None,
            },
            _ => None,
        },
    }
}

fn make_regex_filter(name: String, pattern: String, negated: bool) -> (filter: Option<MetricFilter>)
    ensures
        match filter {
            Some(filter) => regex_filter(name@, pattern@, negated) == Some(filter@),
            None => regex_filter(name@, pattern@, negated) is None,
        },
{
    match compile_failure(pattern.as_str()) {
        None => Some(MetricFilter::LabelRegex { name, pattern, negated }),
        Some(_) => None,
    }
}

fn make_label_filter(name: String, operator: FilterOperator, value: String) -> (filter: Option<
    MetricFilter,
>)
    ensures
        match filter {
            Some(filter) => label_filter(name@, operator, value@) == Some(filter@),
            None => label_filter(name@, operator, value@) is None,
        },
{
    match operator {
        FilterOperator::Eq => Some(MetricFilter::Label { name, operator, value }),
        FilterOperator::NotEq => Some(MetricFilter::Label { name, operator, value }),
        FilterOperator::RegexMatch => make_regex_filter(name, value, false),
        FilterOperator::RegexNotMatch => make_regex_filter(name, value, true),
        FilterOperator::RegexIMatch => make_regex_filter(name, ignore_case(value.as_str()), false),
        FilterOperator::RegexNotIMatch => make_regex_filter(
            name,
            ignore_case(value.as_str()),
            true,
        ),
        _ => None,
    }
}

fn make_filter(column: String, operator: FilterOperator, value: &Scalar) -> (filter: Option<
    MetricFilter,
>)
    ensures
        match filter {
            Some(filter) => column_filter(column@, operator, value@) == Some(filter@),
            None => column_filter(column@, operator, value@) is None,
        },
{
    if same(column.as_str(), "timestamp") {
        match scalar_i64(value) {
            Some(value) => Some(MetricFilter::Timestamp { operator, value }),
            None => None,
        }
    } else if same(column.as_str(), "downsample_resolution") {
        match scalar_i64(value) {
            Some(value) => Some(MetricFilter::Resolution { operator, value }),
            None => None,
        }
    } else if same(column.as_str(), "value") || same(column.as_str(), "histogram") {
        None
    } else if same(column.as_str(), "aggregate_kind") {
        match scalar_string(value) {
            Some(text) => if operator == FilterOperator::Eq {
                match aggregate_of(text.as_str()) {
                    Some(value) => Some(MetricFilter::Aggregate { value }),
                    None => None,
                }
            } else {
                None
            },
            None => None,
        }
    } else {
        match scalar_string(value) {
            Some(text) => make_label_filter(column, operator, text),
            None => None,
        }
    }
}

/// Reads the condition that a comparison makes, if rows can be chosen by it.
pub fn parse_filter(left: &FilterExpr, operator: FilterOperator, right: &FilterExpr) -> (filter:
    Option<MetricFilter>)
    ensures
        match filter {
            Some(filter) => filter_of(*left, operator, *right) == Some(filter@),
            None => filter_of(*left, operator, *right) is None,
        },
{
    let column = column_name(left);
    let value = scalar_value(right);
    if let (Some(column), Some(value)) = (column, value) {
        return make_filter(column, operator, &value);
    }
    let column = column_name(right);
    let value = scalar_value(left);
    if let (Some(column), Some(value)) = (column, value) {
        return match reverse_operator(operator) {
            Some(operator) => make_filter(column, operator, &value),
            None => None,
        };
    }
    None
}

/// What the index says of a chunk.
pub struct ChunkDescriptor<'a> {
    pub mint: i64,
    pub maxt: i64,
    pub downsample_resolution: i64,
    pub labels: &'a Labels,
}

impl FilterModel {
    /// A chunk may hold samples that satisfy the condition, going by its range of times, its
    /// resolution and its labels.
    pub open spec fn may_hold(
        &self,
        mint: int,
        maxt: int,
        resolution: int,
        labels: Map<Seq<char>, Seq<char>>,
    ) -> bool {
        match self {
            FilterModel::Timestamp { operator, value } => match operator {
                FilterOperator::Eq => mint <= *value && maxt >= *value,
                FilterOperator::Gt => maxt > *value,
                FilterOperator::GtEq => maxt >= *value,
                FilterOperator::Lt => mint < *value,
                FilterOperator::LtEq => mint <= *value,
                _ => false,
            },
            FilterModel::Resolution { operator, value } => numbers_hold(
                resolution,
                *operator,
                *value as int,
            ),
            FilterModel::Aggregate { .. } => true,
            FilterModel::Label { name, operator, value } => texts_hold(
                label_value(labels, *name),
                *operator,
                *value,
            ),
            FilterModel::LabelRegex { name, pattern, negated } => regex_matches(
                *pattern,
                label_value(labels, *name),
            ) != negated,
        }
    }

    /// A sample satisfies the condition.
    pub open spec fn holds(
        &self,
        timestamp: int,
        aggregate: AggregateKind,
        resolution: int,
        labels: Map<Seq<char>, Seq<char>>,
    ) -> bool {
        match self {
            FilterModel::Timestamp { operator, value } => numbers_hold(
                timestamp,
                *operator,
                *value as int,
            ),
            FilterModel::Resolution { operator, value } => numbers_hold(
                resolution,
                *operator,
                *value as int,
            ),
            FilterModel::Aggregate { value } => aggregate == *value,
            FilterModel::Label { name, operator, value } => texts_hold(
                label_value(labels, *name),
                *operator,
                *value,
            ),
            FilterModel::LabelRegex { name, pattern, negated } => regex_matches(
                *pattern,
                label_value(labels, *name),
            ) != negated,
        }
    }
}

impl MetricFilter {
    /// Whether a chunk may hold samples that satisfy the condition.
    pub fn matches_descriptor(&self, descriptor: &ChunkDescriptor<'_>) -> (result: bool)
        ensures
            result == self@.may_hold(
                descriptor.mint as int,
                descriptor.maxt as int,
                descriptor.downsample_resolution as int,
                descriptor.labels@,
            ),
    {
        match self {
            MetricFilter::Timestamp { operator, value } => match operator {
                FilterOperator::Eq => descriptor.mint <= *value && descriptor.maxt >= *value,
                FilterOperator::Gt => descriptor.maxt > *value,
                FilterOperator::GtEq => descriptor.maxt >= *value,
                FilterOperator::Lt => descriptor.mint < *value,
                FilterOperator::LtEq => descriptor.mint <= *value,
                _ => false,
            },
            MetricFilter::Resolution { operator, value } => compare_i64(
                descriptor.downsample_resolution,
                *operator,
                *value,
            ),
            MetricFilter::Aggregate { .. } => true,
            MetricFilter::Label { name, operator, value } => compare_str(
                value_or_empty(descriptor.labels, name.as_str()),
                *operator,
                value.as_str(),
            ),
            MetricFilter::LabelRegex { name, pattern, negated } => is_match(
                pattern.as_str(),
                value_or_empty(descriptor.labels, name.as_str()),
            ) != *negated,
        }
    }

    /// Whether a sample satisfies the condition.
    pub fn matches_sample(&self, sample: &Sample, downsample_resolution: i64, labels: &Labels) -> (
        result: bool)
        ensures
            result == self@.holds(
                sample.timestamp as int,
                sample.aggregate,
                downsample_resolution as int,
                labels@,
            ),
    {
        match self {
            MetricFilter::Timestamp { operator, value } => compare_i64(
                sample.timestamp,
                *operator,
                *value,
            ),
            MetricFilter::Resolution { operator, value } => compare_i64(
                downsample_resolution,
                *operator,
                *value,
            ),
            MetricFilter::Aggregate { value } => sample.aggregate == *value,
            MetricFilter::Label { name, operator, value } => compare_str(
                value_or_empty(labels, name.as_str()),
                *operator,
                value.as_str(),
            ),
            MetricFilter::LabelRegex { name, pattern, negated } => is_match(
                pattern.as_str(),
                value_or_empty(labels, name.as_str()),
            ) != *negated,
        }
    }
}

/// Leaving chunks out by what the index says of them loses no sample: a chunk that holds a sample
/// that satisfies a condition is read. This does not hold of the condition that a time is not a
/// given one, which leaves all chunks out.
pub proof fn law_pruning_loses_no_sample(
    filter: FilterModel,
    timestamp: int,
    aggregate: AggregateKind,
    mint: int,
    maxt: int,
    resolution: int,
    labels: Map<Seq<char>, Seq<char>>,
)
    requires
        mint <= timestamp <= maxt,
        filter.holds(timestamp, aggregate, resolution, labels),
        filter matches FilterModel::Timestamp { operator, .. } ==> operator
            != FilterOperator::NotEq,
    ensures
        filter.may_hold(mint, maxt, resolution, labels),
{
}

/// A condition on a label means the comparison that it was made from: the two texts are equal or
/// not, or the pattern matches the text or not. A label that a series does not have is an empty
/// text.
pub proof fn law_label_conditions_mean_their_comparison(
    left: FilterExpr,
    operator: FilterOperator,
    right: FilterExpr,
    timestamp: int,
    aggregate: AggregateKind,
    resolution: int,
    labels: Map<Seq<char>, Seq<char>>,
)
    requires
        column_of(left) matches Some(column) && column != "timestamp"@ && column
            != "downsample_resolution"@ && column != "value"@ && column != "histogram"@ && column
            != "aggregate_kind"@,
        scalar_of(right) matches Some(ScalarModel::Text(_)),
    ensures
        ({
            let name = column_of(left)->Some_0;
            let text = scalar_of(right)->Some_0->Text_0;
            let value = if labels.contains_key(name) {
                labels[name]
            } else {
                Seq::empty()
            };
            let filter = filter_of(left, operator, right);
            let holds = filter->Some_0.holds(timestamp, aggregate, resolution, labels);
            match operator {
                FilterOperator::Eq => filter is Some && holds == (value == text),
                FilterOperator::NotEq => filter is Some && holds == (value != text),
                FilterOperator::RegexMatch => filter is Some == (regex_failure(text) is None) && (
                filter is Some ==> holds == regex_matches(text, value)),
                FilterOperator::RegexNotMatch => filter is Some == (regex_failure(text) is None)
                    && (filter is Some ==> holds == !regex_matches(text, value)),
                FilterOperator::RegexIMatch => filter is Some == (regex_failure("(?i:"@ + text + ")"@)
                    is None) && (filter is Some ==> holds == regex_matches("(?i:"@ + text + ")"@, value)),
                FilterOperator::RegexNotIMatch => filter is Some == (regex_failure("(?i:"@ + text + ")"@)
                    is None) && (filter is Some ==> holds == !regex_matches("(?i:"@ + text + ")"@, value)),
                _ => filter is None,
            }
        }),
{
}

/// A condition and its negation: of every sample exactly one of them holds.
pub proof fn law_conditions_have_negations(
    left: FilterExpr,
    right: FilterExpr,
    timestamp: int,
    aggregate: AggregateKind,
    resolution: int,
    labels: Map<Seq<char>, Seq<char>>,
)
    ensures
        ({
            let says = |operator: FilterOperator|
                filter_of(left, operator, right)->Some_0.holds(
                    timestamp,
                    aggregate,
                    resolution,
                    labels,
                );
            let made = |operator: FilterOperator| filter_of(left, operator, right) is Some;
            &&& made(FilterOperator::Eq) && made(FilterOperator::NotEq) ==> says(
                FilterOperator::Eq,
            ) != says(FilterOperator::NotEq)
            &&& made(FilterOperator::RegexMatch) && column_is_label(left) ==> made(
                FilterOperator::RegexNotMatch,
            ) && says(FilterOperator::RegexMatch) != says(FilterOperator::RegexNotMatch)
            &&& made(FilterOperator::RegexIMatch) && column_is_label(left) ==> made(
                FilterOperator::RegexNotIMatch,
            ) && says(FilterOperator::RegexIMatch) != says(FilterOperator::RegexNotIMatch)
            &&& made(FilterOperator::Gt) && made(FilterOperator::LtEq) && !column_is_label(left)
                && !column_is_label(right) ==> says(FilterOperator::Gt) != says(
                FilterOperator::LtEq,
            )
            &&& made(FilterOperator::Lt) && made(FilterOperator::GtEq) && !column_is_label(left)
                && !column_is_label(right) ==> says(FilterOperator::Lt) != says(
                FilterOperator::GtEq,
            )
        }),
{
}

/// An operand is a column that holds a label.
pub open spec fn column_is_label(expr: FilterExpr) -> bool {
    column_of(expr) matches Some(column) && column != "timestamp"@ && column
        != "downsample_resolution"@ && column != "value"@ && column != "histogram"@ && column
        != "aggregate_kind"@
}

proof fn lemma_constants_are_no_columns(expr: FilterExpr)
    ensures
        scalar_of(expr) is Some ==> column_of(expr) is None,
    decreases expr,
{
    if let FilterExpr::Cast(inner) = expr {
        lemma_constants_are_no_columns(*inner);
    }
}

/// A condition on the time or on the resolution compares that number with the constant, on
/// whichever side the column stands; one on the aggregate holds of the aggregate that it names.
pub proof fn law_number_conditions_mean_their_comparison(
    left: FilterExpr,
    operator: FilterOperator,
    right: FilterExpr,
    timestamp: int,
    aggregate: AggregateKind,
    resolution: int,
    labels: Map<Seq<char>, Seq<char>>,
)
    ensures
        ({
            let filter = filter_of(left, operator, right);
            let holds = filter->Some_0.holds(timestamp, aggregate, resolution, labels);
            &&& column_of(left) == Some("timestamp"@) && (scalar_of(right) matches Some(scalar)
                && integer_of(scalar) is Some) ==> filter is Some && holds == numbers_hold(
                timestamp,
                operator,
                integer_of(scalar_of(right)->Some_0)->Some_0 as int,
            )
            &&& column_of(left) == Some("downsample_resolution"@) && (scalar_of(right) matches Some(
                scalar,
            ) && integer_of(scalar) is Some) ==> filter is Some && holds == numbers_hold(
                resolution,
                operator,
                integer_of(scalar_of(right)->Some_0)->Some_0 as int,
            )
            &&& column_of(right) == Some("timestamp"@) && (scalar_of(left) matches Some(scalar)
                && integer_of(scalar) is Some) && (operator == FilterOperator::Eq || operator
                == FilterOperator::NotEq || operator == FilterOperator::Gt || operator
                == FilterOperator::GtEq || operator == FilterOperator::Lt || operator
                == FilterOperator::LtEq) ==> filter is Some && holds == numbers_hold(
                integer_of(scalar_of(left)->Some_0)->Some_0 as int,
                operator,
                timestamp,
            )
        }),
{
    reveal_strlit("timestamp");
    reveal_strlit("downsample_resolution");
    assert("timestamp"@.len() != "downsample_resolution"@.len());
    lemma_constants_are_no_columns(left);
    lemma_constants_are_no_columns(right);
}

/// A comparison of numbers is what its operator says.
pub proof fn law_operators_compare_numbers(left: int, right: int)
    ensures
        numbers_hold(left, FilterOperator::Eq, right) <==> left == right,
        numbers_hold(left, FilterOperator::NotEq, right) <==> left != right,
        numbers_hold(left, FilterOperator::Gt, right) <==> left > right,
        numbers_hold(left, FilterOperator::GtEq, right) <==> left >= right,
        numbers_hold(left, FilterOperator::Lt, right) <==> left < right,
        numbers_hold(left, FilterOperator::LtEq, right) <==> left <= right,
{
}

/// A condition on the aggregate holds of the samples of the aggregate that it names, and of no
/// others.
pub proof fn law_aggregate_conditions_name_their_aggregate(
    left: FilterExpr,
    right: FilterExpr,
    timestamp: int,
    aggregate: AggregateKind,
    resolution: int,
    labels: Map<Seq<char>, Seq<char>>,
)
    requires
        column_of(left) == Some("aggregate_kind"@),
        scalar_of(right) matches Some(ScalarModel::Text(_)),
    ensures
        ({
            let text = scalar_of(right)->Some_0->Text_0;
            let filter = filter_of(left, FilterOperator::Eq, right);
            let holds = filter->Some_0.holds(timestamp, aggregate, resolution, labels);
            &&& filter is Some <==> text == "raw"@ || text == "count"@ || text == "sum"@ || text
                == "counter"@
            &&& filter is Some ==> holds == (text == match aggregate {
                AggregateKind::Raw => "raw"@,
                AggregateKind::Count => "count"@,
                AggregateKind::Sum => "sum"@,
                AggregateKind::Counter => "counter"@,
            })
        }),
{
    reveal_strlit("raw");
    reveal_strlit("count");
    reveal_strlit("sum");
    reveal_strlit("counter");
    reveal_strlit("aggregate_kind");
    reveal_strlit("timestamp");
    reveal_strlit("downsample_resolution");
    reveal_strlit("value");
    reveal_strlit("histogram");
    assert("aggregate_kind"@.len() == 14);
    assert("timestamp"@.len() == 9);
    assert("downsample_resolution"@.len() == 21);
    assert("value"@.len() == 5);
    assert("histogram"@.len() == 9);
    assert("raw"@[0] != "sum"@[0]);
    assert("raw"@.len() == 3 && "sum"@.len() == 3 && "count"@.len() == 5 && "counter"@.len() == 7);
}

/// The metric counts something that only grows.
pub open spec fn is_counter(name: Seq<char>) -> bool {
    has_suffix(name, "_total"@)
}

/// Whether a metric counts something that only grows, going by its name.
pub fn is_counter_metric(name: &str) -> (result: bool)
    ensures
        result == is_counter(name@),
{
    ends_with(name, "_total")
}

/// What the conditions of a list say.
pub open spec fn filter_models(filters: Seq<MetricFilter>) -> Seq<FilterModel> {
    filters.map_values(|filter: MetricFilter| filter@)
}

/// The aggregate to read for a condition on the aggregate. Raw samples need no choice.
pub open spec fn selection_of(kind: AggregateKind) -> Option<AggregateSelection> {
    match kind {
        AggregateKind::Raw => None,
        AggregateKind::Count => Some(AggregateSelection::Count),
        AggregateKind::Sum => Some(AggregateSelection::Sum),
        AggregateKind::Counter => Some(AggregateSelection::Counter),
    }
}

/// The aggregate that the first condition which names one chooses.
pub open spec fn selection_in(filters: Seq<FilterModel>) -> Option<AggregateSelection>
    decreases filters.len(),
{
    if filters.len() == 0 {
        None
    } else {
        match filters[0] {
            FilterModel::Aggregate { value } => match selection_of(value) {
                Some(selection) => Some(selection),
                None => selection_in(filters.skip(1)),
            },
            _ => selection_in(filters.skip(1)),
        }
    }
}

/// The aggregate that conditions choose.
pub fn selected_aggregate(filters: &Vec<MetricFilter>) -> (selection: Option<AggregateSelection>)
    ensures
        selection == selection_in(filter_models(filters@)),
{
    let ghost models = filter_models(filters@);
    let mut i: usize = 0;
    assert(models.skip(0) =~= models);
    while i < filters.len()
        invariant
            i <= filters@.len(),
            models == filter_models(filters@),
            selection_in(models) == selection_in(models.skip(i as int)),
        decreases filters.len() - i,
    {
        assert(models.skip(i as int)[0] == filters@[i as int]@);
        assert(models.skip(i as int).skip(1) =~= models.skip(i + 1));
        if let MetricFilter::Aggregate { value } = &filters[i] {
            match value {
                AggregateKind::Count => {
                    return Some(AggregateSelection::Count);
                },
                AggregateKind::Sum => {
                    return Some(AggregateSelection::Sum);
                },
                AggregateKind::Counter => {
                    return Some(AggregateSelection::Counter);
                },
                AggregateKind::Raw => {},
            }
        }
        i = i + 1;
    }
    None
}

/// A chunk may hold samples that satisfy all conditions.
pub open spec fn all_may_hold(
    filters: Seq<FilterModel>,
    mint: int,
    maxt: int,
    resolution: int,
    labels: Map<Seq<char>, Seq<char>>,
) -> bool {
    forall|i: int|
        0 <= i < filters.len() ==> (#[trigger] filters[i]).may_hold(mint, maxt, resolution, labels)
}

/// A sample satisfies all conditions.
pub open spec fn all_filters_hold(
    filters: Seq<FilterModel>,
    timestamp: int,
    aggregate: AggregateKind,
    resolution: int,
    labels: Map<Seq<char>, Seq<char>>,
) -> bool {
    forall|i: int|
        0 <= i < filters.len() ==> (#[trigger] filters[i]).holds(
            timestamp,
            aggregate,
            resolution,
            labels,
        )
}

fn all_match_descriptor(filters: &Vec<MetricFilter>, descriptor: &ChunkDescriptor<'_>) -> (result:
    bool)
    ensures
        result == all_may_hold(
            filter_models(filters@),
            descriptor.mint as int,
            descriptor.maxt as int,
            descriptor.downsample_resolution as int,
            descriptor.labels@,
        ),
{
    let ghost models = filter_models(filters@);
    let mut i: usize = 0;
    while i < filters.len()
        invariant
            i <= filters@.len(),
            models == filter_models(filters@),
            forall|k: int|
                0 <= k < i ==> (#[trigger] models[k]).may_hold(
                    descriptor.mint as int,
                    descriptor.maxt as int,
                    descriptor.downsample_resolution as int,
                    descriptor.labels@,
                ),
        decreases filters.len() - i,
    {
        assert(models[i as int] == filters@[i as int]@);
        if !filters[i].matches_descriptor(descriptor) {
            return false;
        }
        i = i + 1;
    }
    true
}

fn all_match_sample(
    filters: &Vec<MetricFilter>,
    sample: &Sample,
    downsample_resolution: i64,
    labels: &Labels,
) -> (result: bool)
    ensures
        result == all_filters_hold(
            filter_models(filters@),
            sample.timestamp as int,
            sample.aggregate,
            downsample_resolution as int,
            labels@,
        ),
{
    let ghost models = filter_models(filters@);
    let mut i: usize = 0;
    while i < filters.len()
        invariant
            i <= filters@.len(),
            models == filter_models(filters@),
            forall|k: int|
                0 <= k < i ==> (#[trigger] models[k]).holds(
                    sample.timestamp as int,
                    sample.aggregate,
                    downsample_resolution as int,
                    labels@,
                ),
        decreases filters.len() - i,
    {
        assert(models[i as int] == filters@[i as int]@);
        if !filters[i].matches_sample(sample, downsample_resolution, labels) {
            return false;
        }
        i = i + 1;
    }
    true
}

/// Why the rows of a metric cannot be read.
#[derive(Clone, Copy, Debug, PartialEq, Eq, Structural)]
pub enum MetricError {
    UnknownRepository,
    InvalidLabels,
    InvalidChunk(ChunkError),
}

/// A row of the chunk index as a scan of a metric sees it.
pub struct IndexedChunk<'a> {
    pub metric_name: &'a str,
    pub labels_json: &'a str,
    pub mint: i64,
    pub maxt: i64,
    pub downsample_resolution: i64,
    pub repository_known: bool,
}

/// The labels of a chunk that is to be read, or nothing for one that is left out.
pub open spec fn scanned(
    chunk: IndexedChunk<'_>,
    metric_name: Seq<char>,
    filters: Seq<FilterModel>,
) -> Result<Option<Seq<(Seq<char>, Seq<char>)>>, MetricError> {
    if chunk.metric_name@ != metric_name {
        Ok(None)
    } else if !chunk.repository_known {
        Err(MetricError::UnknownRepository)
    } else {
        match json_entries(chunk.labels_json@) {
            None => Err(MetricError::InvalidLabels),
            Some(pairs) => if all_may_hold(
                filters,
                chunk.mint as int,
                chunk.maxt as int,
                chunk.downsample_resolution as int,
                pairs_map(pairs),
            ) {
                Ok(Some(pairs))
            } else {
                Ok(None)
            },
        }
    }
}

/// The labels of a chunk that is to be read for a metric, or nothing for one that is left out.
pub fn scan_chunk(chunk: &IndexedChunk<'_>, metric_name: &str, filters: &Vec<MetricFilter>) -> (
    result: Result<Option<Labels>, MetricError>)
    ensures
        match result {
            Ok(Some(labels)) => scanned(*chunk, metric_name@, filter_models(filters@)) == Ok::<
                Option<Seq<(Seq<char>, Seq<char>)>>,
                MetricError,
            >(Some(labels.pairs())),
            Ok(None) => scanned(*chunk, metric_name@, filter_models(filters@)) == Ok::<
                Option<Seq<(Seq<char>, Seq<char>)>>,
                MetricError,
            >(None),
            Err(error) => scanned(*chunk, metric_name@, filter_models(filters@)) == Err::<
                Option<Seq<(Seq<char>, Seq<char>)>>,
                MetricError,
            >(error),
        },
{
    if !same(chunk.metric_name, metric_name) {
        return Ok(None);
    }
    if !chunk.repository_known {
        return Err(MetricError::UnknownRepository);
    }
    let labels = match labels_from_json(chunk.labels_json) {
        Some(labels) => labels,
        None => {
            return Err(MetricError::InvalidLabels);
        },
    };
    let matches: bool = {
        let descriptor = ChunkDescriptor {
            mint: chunk.mint,
            maxt: chunk.maxt,
            downsample_resolution: chunk.downsample_resolution,
            labels: &labels,
        };
        all_match_descriptor(filters, &descriptor)
    };
    if matches {
        Ok(Some(labels))
    } else {
        Ok(None)
    }
}

/// A row of the table of a metric. A value is a bit pattern.
pub struct MetricRow {
    pub timestamp: i64,
    pub value: Option<u64>,
    pub histogram: Option<HistogramSample>,
    pub downsample_resolution: i64,
    pub aggregate: AggregateKind,
    pub labels: Labels,
}

/// What a row of the table of a metric holds.
pub struct MetricRowModel {
    pub timestamp: i64,
    pub value: Option<u64>,
    pub histogram: Option<HistogramModel>,
    pub downsample_resolution: i64,
    pub aggregate: AggregateKind,
    pub labels: Seq<(Seq<char>, Seq<char>)>,
}

impl View for MetricRow {
    type V = MetricRowModel;

    open spec fn view(&self) -> MetricRowModel {
        MetricRowModel {
            timestamp: self.timestamp,
            value: self.value,
            histogram: match self.histogram {
                Some(histogram) => Some(histogram@),
                None => None,
            },
            downsample_resolution: self.downsample_resolution,
            aggregate: self.aggregate,
            labels: self.labels.pairs(),
        }
    }
}

/// What the rows of a list hold.
pub open spec fn row_models(rows: Seq<MetricRow>) -> Seq<MetricRowModel> {
    rows.map_values(|row: MetricRow| row@)
}

/// The row of a sample. A sample with a histogram has no value.
pub open spec fn sample_row(
    sample: SampleModel,
    resolution: i64,
    labels: Seq<(Seq<char>, Seq<char>)>,
) -> MetricRowModel {
    MetricRowModel {
        timestamp: sample.timestamp,
        value: if sample.histogram is None {
            Some(sample.value)
        } else {
            None
        },
        histogram: sample.histogram,
        downsample_resolution: resolution,
        aggregate: sample.aggregate,
        labels,
    }
}

/// The rows of the samples that satisfy all conditions.
pub open spec fn sample_rows(
    samples: Seq<SampleModel>,
    filters: Seq<FilterModel>,
    resolution: i64,
    labels: Seq<(Seq<char>, Seq<char>)>,
) -> Seq<MetricRowModel>
    decreases samples.len(),
{
    if samples.len() == 0 {
        Seq::empty()
    } else {
        let before = sample_rows(samples.drop_last(), filters, resolution, labels);
        let sample = samples.last();
        if all_filters_hold(
            filters,
            sample.timestamp as int,
            sample.aggregate,
            resolution as int,
            pairs_map(labels),
        ) {
            before.push(sample_row(sample, resolution, labels))
        } else {
            before
        }
    }
}

/// The rows of the samples that satisfy all conditions.
pub fn rows_from_samples(
    samples: Vec<Sample>,
    filters: &Vec<MetricFilter>,
    downsample_resolution: i64,
    labels: &Labels,
) -> (rows: Vec<MetricRow>)
    ensures
        row_models(rows@) == sample_rows(
            sample_models(samples@),
            filter_models(filters@),
            downsample_resolution,
            labels.pairs(),
        ),
{
    let ghost all = samples@;
    let ghost models = sample_models(all);
    let mut rest = reversed(samples);
    let mut rows: Vec<MetricRow> = Vec::new();
    let ghost mut done: int = 0;
    assert(row_models(rows@) =~= Seq::<MetricRowModel>::empty());
    while rest.len() > 0
        invariant
            0 <= done <= all.len(),
            models == sample_models(all),
            rest@ =~= all.skip(done).reverse(),
            row_models(rows@) == sample_rows(
                models.take(done),
                filter_models(filters@),
                downsample_resolution,
                labels.pairs(),
            ),
        decreases rest.len(),
    {
        let ghost left = rest@;
        let ghost before = rows@;
        if let Some(sample) = rest.pop() {
            proof {
                assert(left.last() == all[done]);
                assert(models.take(done + 1).drop_last() =~= models.take(done));
                assert(models.take(done + 1).last() == sample@);
                done = done + 1;
            }
            if all_match_sample(filters, &sample, downsample_resolution, labels) {
                let value: Option<u64> = match &sample.histogram {
                    None => Some(sample.value),
                    Some(_) => None,
                };
                let row = MetricRow {
                    timestamp: sample.timestamp,
                    value,
                    histogram: sample.histogram,
                    downsample_resolution,
                    aggregate: sample.aggregate,
                    labels: copy_labels(labels),
                };
                let ghost model = row@;
                rows.push(row);
                assert(row_models(rows@) =~= row_models(before).push(model));
            }
        }
    }
    assert(models.take(done) =~= models);
    rows
}

/// The rows that the record of a chunk gives.
pub open spec fn record_rows(
    record: Seq<u8>,
    counter_metric: bool,
    filters: Seq<FilterModel>,
    resolution: i64,
    labels: Seq<(Seq<char>, Seq<char>)>,
) -> Result<Seq<MetricRowModel>, MetricError> {
    match record_samples(record, counter_metric, selection_in(filters)) {
        Err(error) => Err(MetricError::InvalidChunk(error)),
        Ok(samples) => Ok(sample_rows(samples, filters, resolution, labels)),
    }
}

/// The rows that the record of a chunk gives.
pub fn rows_from_record(
    record: &[u8],
    counter_metric: bool,
    filters: &Vec<MetricFilter>,
    downsample_resolution: i64,
    labels: &Labels,
) -> (result: Result<Vec<MetricRow>, MetricError>)
    ensures
        match result {
            Ok(rows) => record_rows(
                record@,
                counter_metric,
                filter_models(filters@),
                downsample_resolution,
                labels.pairs(),
            ) == Ok::<Seq<MetricRowModel>, MetricError>(row_models(rows@)),
            Err(error) => record_rows(
                record@,
                counter_metric,
                filter_models(filters@),
                downsample_resolution,
                labels.pairs(),
            ) == Err::<Seq<MetricRowModel>, MetricError>(error),
        },
{
    match decode_selected(record, counter_metric, selected_aggregate(filters)) {
        Err(error) => Err(MetricError::InvalidChunk(error)),
        Ok(samples) => Ok(rows_from_samples(samples, filters, downsample_resolution, labels)),
    }
}

/// Each row of a metric satisfies all conditions, and has a value or a histogram, but not both.
pub proof fn law_rows_satisfy_filters(
    samples: Seq<SampleModel>,
    filters: Seq<FilterModel>,
    resolution: i64,
    labels: Seq<(Seq<char>, Seq<char>)>,
    i: int,
)
    requires
        0 <= i < sample_rows(samples, filters, resolution, labels).len(),
    ensures
        ({
            let row = sample_rows(samples, filters, resolution, labels)[i];
            &&& all_filters_hold(
                filters,
                row.timestamp as int,
                row.aggregate,
                row.downsample_resolution as int,
                pairs_map(row.labels),
            )
            &&& row.value is Some <==> row.histogram is None
        }),
    decreases samples.len(),
{
    let before = sample_rows(samples.drop_last(), filters, resolution, labels);
    if i < before.len() {
        law_rows_satisfy_filters(samples.drop_last(), filters, resolution, labels, i);
    }
}

/// The fields of the histograms in a table.
pub open spec fn histogram_table() -> Seq<ColumnModel> {
    seq![
        required("kind"@, ColumnKind::Text),
        required("schema"@, ColumnKind::SmallInteger),
        optional("count_int"@, ColumnKind::Unsigned),
        optional("count_float"@, ColumnKind::Float),
        required("sum"@, ColumnKind::Float),
        required("zero_threshold"@, ColumnKind::Float),
        optional("zero_count_int"@, ColumnKind::Unsigned),
        optional("zero_count_float"@, ColumnKind::Float),
        required("reset_hint"@, ColumnKind::Byte),
        required("positive_spans"@, ColumnKind::SpanList),
        required("negative_spans"@, ColumnKind::SpanList),
        optional("positive_buckets_int"@, ColumnKind::IntegerList),
        optional("negative_buckets_int"@, ColumnKind::IntegerList),
        optional("positive_buckets_float"@, ColumnKind::FloatList),
        optional("negative_buckets_float"@, ColumnKind::FloatList),
        required("custom_values"@, ColumnKind::FloatList),
    ]
}

/// The fields of the histograms in a table.
pub fn histogram_columns() -> (columns: Vec<Column>)
    ensures
        column_models(columns@) == histogram_table(),
{
    let mut columns: Vec<Column> = Vec::new();
    push_required(&mut columns, "kind", ColumnKind::Text);
    push_required(&mut columns, "schema", ColumnKind::SmallInteger);
    push_optional(&mut columns, "count_int", ColumnKind::Unsigned);
    push_optional(&mut columns, "count_float", ColumnKind::Float);
    push_required(&mut columns, "sum", ColumnKind::Float);
    push_required(&mut columns, "zero_threshold", ColumnKind::Float);
    push_optional(&mut columns, "zero_count_int", ColumnKind::Unsigned);
    push_optional(&mut columns, "zero_count_float", ColumnKind::Float);
    push_required(&mut columns, "reset_hint", ColumnKind::Byte);
    push_required(&mut columns, "positive_spans", ColumnKind::SpanList);
    push_required(&mut columns, "negative_spans", ColumnKind::SpanList);
    push_optional(&mut columns, "positive_buckets_int", ColumnKind::IntegerList);
    push_optional(&mut columns, "negative_buckets_int", ColumnKind::IntegerList);
    push_optional(&mut columns, "positive_buckets_float", ColumnKind::FloatList);
    push_optional(&mut columns, "negative_buckets_float", ColumnKind::FloatList);
    push_required(&mut columns, "custom_values", ColumnKind::FloatList);
    assert(column_models(columns@) =~= histogram_table());
    columns
}

/// A count in the field for integers.
pub open spec fn integer_count(count: HistogramCount) -> Option<u64> {
    match count {
        HistogramCount::Integer(value) => Some(value),
        HistogramCount::Float(_) => None,
    }
}

/// A count in the field for floats.
pub open spec fn float_count(count: HistogramCount) -> Option<u64> {
    match count {
        HistogramCount::Integer(_) => None,
        HistogramCount::Float(bits) => Some(bits),
    }
}

/// Contents of buckets in the field for integers.
pub open spec fn integer_buckets(buckets: BucketsModel) -> Option<Seq<i64>> {
    match buckets {
        BucketsModel::Integer(values) => Some(values),
        BucketsModel::Float(_) => None,
    }
}

/// Contents of buckets in the field for floats.
pub open spec fn float_buckets(buckets: BucketsModel) -> Option<Seq<u64>> {
    match buckets {
        BucketsModel::Integer(_) => None,
        BucketsModel::Float(values) => Some(values),
    }
}

/// The fields of a histogram.
pub open spec fn histogram_fields(histogram: HistogramModel) -> HistogramCellsModel {
    HistogramCellsModel {
        kind: if histogram.count is Integer {
            "histogram"@
        } else {
            "float_histogram"@
        },
        schema: histogram.schema,
        count_int: integer_count(histogram.count),
        count_float: float_count(histogram.count),
        sum: histogram.sum,
        zero_threshold: histogram.zero_threshold,
        zero_count_int: integer_count(histogram.zero_count),
        zero_count_float: float_count(histogram.zero_count),
        reset_hint: histogram.reset_hint,
        positive_spans: histogram.positive_spans,
        negative_spans: histogram.negative_spans,
        positive_buckets_int: integer_buckets(histogram.positive_buckets),
        negative_buckets_int: integer_buckets(histogram.negative_buckets),
        positive_buckets_float: float_buckets(histogram.positive_buckets),
        negative_buckets_float: float_buckets(histogram.negative_buckets),
        custom_values: histogram.custom_values,
    }
}

fn split_count(count: HistogramCount) -> (fields: (Option<u64>, Option<u64>))
    ensures
        fields.0 == integer_count(count),
        fields.1 == float_count(count),
{
    match count {
        HistogramCount::Integer(value) => (Some(value), None),
        HistogramCount::Float(bits) => (None, Some(bits)),
    }
}

fn split_buckets(buckets: &HistogramBuckets) -> (fields: (Option<Vec<i64>>, Option<Vec<u64>>))
    ensures
        list_view(fields.0) == integer_buckets(buckets@),
        list_view(fields.1) == float_buckets(buckets@),
{
    match buckets {
        HistogramBuckets::Integer(values) => (
            Some(vstd::slice::slice_to_vec(values.as_slice())),
            None,
        ),
        HistogramBuckets::Float(values) => (
            None,
            Some(vstd::slice::slice_to_vec(values.as_slice())),
        ),
    }
}

/// Puts a histogram into the fields of a table.
pub fn histogram_cells(histogram: &HistogramSample) -> (cells: HistogramCells)
    ensures
        cells@ == histogram_fields(histogram@),
{
    let kind = match histogram.count {
        HistogramCount::Integer(_) => "histogram",
        HistogramCount::Float(_) => "float_histogram",
    };
    let (count_int, count_float) = split_count(histogram.count);
    let (zero_count_int, zero_count_float) = split_count(histogram.zero_count);
    let (positive_buckets_int, positive_buckets_float) = split_buckets(
        &histogram.positive_buckets,
    );
    let (negative_buckets_int, negative_buckets_float) = split_buckets(
        &histogram.negative_buckets,
    );
    HistogramCells {
        kind,
        schema: histogram.schema,
        count_int,
        count_float,
        sum: histogram.sum,
        zero_threshold: histogram.zero_threshold,
        zero_count_int,
        zero_count_float,
        reset_hint: histogram.reset_hint,
        positive_spans: vstd::slice::slice_to_vec(histogram.positive_spans.as_slice()),
        negative_spans: vstd::slice::slice_to_vec(histogram.negative_spans.as_slice()),
        positive_buckets_int,
        negative_buckets_int,
        positive_buckets_float,
        negative_buckets_float,
        custom_values: vstd::slice::slice_to_vec(histogram.custom_values.as_slice()),
    }
}

/// The value of a column in a row of a metric, or nothing for a column that no metric has.
pub open spec fn row_cell(column: ColumnModel, row: MetricRowModel) -> Option<CellModel> {
    if column.name == "timestamp"@ && column.kind == ColumnKind::Timestamp {
        Some(CellModel::Timestamp(row.timestamp))
    } else if column.name == "value"@ && column.kind == ColumnKind::Float {
        match row.value {
            Some(bits) => Some(CellModel::Float(bits)),
            None => Some(CellModel::Null),
        }
    } else if column.name == "histogram"@ && column.kind == ColumnKind::Histogram {
        match row.histogram {
            Some(histogram) => Some(CellModel::Histogram(histogram_fields(histogram))),
            None => Some(CellModel::Null),
        }
    } else if column.name == "downsample_resolution"@ && column.kind == ColumnKind::Integer {
        Some(CellModel::Integer(row.downsample_resolution))
    } else if column.name == "aggregate_kind"@ && column.kind == ColumnKind::Text {
        Some(CellModel::Text(row.aggregate.name()))
    } else if column.kind == ColumnKind::Text {
        Some(CellModel::Text(label_value(pairs_map(row.labels), column.name)))
    } else {
        None
    }
}

/// The value of a column in a row of a metric, or nothing for a column that no metric has.
pub fn metric_cell(column: &Column, row: &MetricRow) -> (cell: Option<Cell>)
    ensures
        match cell {
            Some(cell) => row_cell(column@, row@) == Some(cell@),
            None => row_cell(column@, row@) is None,
        },
{
    let name = column.name.as_str();
    if same(name, "timestamp") && column.kind == ColumnKind::Timestamp {
        Some(Cell::Timestamp(row.timestamp))
    } else if same(name, "value") && column.kind == ColumnKind::Float {
        match row.value {
            Some(bits) => Some(Cell::Float(bits)),
            None => Some(Cell::Null),
        }
    } else if same(name, "histogram") && column.kind == ColumnKind::Histogram {
        match &row.histogram {
            Some(histogram) => Some(Cell::Histogram(histogram_cells(histogram))),
            None => Some(Cell::Null),
        }
    } else if same(name, "downsample_resolution") && column.kind == ColumnKind::Integer {
        Some(Cell::Integer(row.downsample_resolution))
    } else if same(name, "aggregate_kind") && column.kind == ColumnKind::Text {
        Some(Cell::Text(row.aggregate.as_str().to_owned()))
    } else if column.kind == ColumnKind::Text {
        Some(Cell::Text(value_or_empty(&row.labels, name).to_owned()))
    } else {
        None
    }
}

/// Every row has a value for each column of its metric's table, and the value is what the column
/// asks for.
pub proof fn law_rows_fit_their_table(
    labels: Seq<Seq<char>>,
    row: MetricRowModel,
    i: int,
)
    requires
        0 <= i < metric_columns(labels).len(),
    ensures
        row_cell(metric_columns(labels)[i], row) is Some,
        cell_fits(row_cell(metric_columns(labels)[i], row)->0, metric_columns(labels)[i]),
{
    reveal_strlit("timestamp");
    reveal_strlit("value");
    reveal_strlit("histogram");
    reveal_strlit("downsample_resolution");
    reveal_strlit("aggregate_kind");
    if i >= 5 {
        assert(metric_columns(labels)[i] == required(labels[i - 5], ColumnKind::Text));
    }
}

/// The columns at some positions.
pub open spec fn projected(columns: Seq<ColumnModel>, projection: Seq<usize>) -> Seq<ColumnModel> {
    projection.map_values(|position: usize| columns[position as int])
}

/// The columns at some positions, or nothing where a position is not one of a column.
pub fn project_columns(columns: &Vec<Column>, projection: &Vec<usize>) -> (result: Option<
    Vec<Column>,
>)
    ensures
        match result {
            Some(chosen) => column_models(chosen@) == projected(
                column_models(columns@),
                projection@,
            ) && forall|i: int|
                0 <= i < projection@.len() ==> #[trigger] projection@[i] < columns@.len(),
            None => exists|i: int|
                0 <= i < projection@.len() && #[trigger] projection@[i] >= columns@.len(),
        },
{
    let ghost models = column_models(columns@);
    let mut chosen: Vec<Column> = Vec::new();
    let mut i: usize = 0;
    assert(column_models(chosen@) =~= projected(models, projection@.take(0)));
    while i < projection.len()
        invariant
            i <= projection@.len(),
            models == column_models(columns@),
            column_models(chosen@) == projected(models, projection@.take(i as int)),
            forall|k: int| 0 <= k < i ==> #[trigger] projection@[k] < columns@.len(),
        decreases projection.len() - i,
    {
        let position: usize = projection[i];
        if position >= columns.len() {
            return None;
        }
        let column = &columns[position];
        let ghost before = chosen@;
        chosen.push(
            Column { name: column.name.clone(), kind: column.kind, nullable: column.nullable },
        );
        assert(column_models(chosen@) =~= column_models(before).push(models[position as int]));
        assert(projection@.take(i + 1) =~= projection@.take(i as int).push(position));
        assert(projected(models, projection@.take(i + 1)) =~= projected(
            models,
            projection@.take(i as int),
        ).push(models[position as int]));
        i = i + 1;
    }
    assert(projection@.take(projection@.len() as int) =~= projection@);
    Some(chosen)
}

/// No chunk is read in vain for its times, its resolution or its labels: where a condition lets a
/// chunk be read, a time of the chunk satisfies it.
pub proof fn law_pruning_leaves_out_what_cannot_match(
    filter: FilterModel,
    mint: int,
    maxt: int,
    resolution: int,
    aggregate: AggregateKind,
    labels: Map<Seq<char>, Seq<char>>,
)
    requires
        mint <= maxt,
        filter.may_hold(mint, maxt, resolution, labels),
        !(filter is Aggregate),
    ensures
        exists|time: int|
            mint <= time <= maxt && #[trigger] filter.holds(time, aggregate, resolution, labels),
{
    let time = match filter {
        FilterModel::Timestamp { operator, value } => match operator {
            FilterOperator::Eq => value as int,
            FilterOperator::Gt => maxt,
            FilterOperator::GtEq => maxt,
            _ => mint,
        },
        _ => mint,
    };
    assert(filter.holds(time, aggregate, resolution, labels));
}

/// A row is that of a sample: its time, its aggregate, its value or its histogram, with the
/// resolution and the labels of its chunk.
pub open spec fn is_row_of_sample(
    row: MetricRowModel,
    sample: SampleModel,
    resolution: i64,
    labels: Seq<(Seq<char>, Seq<char>)>,
) -> bool {
    &&& row.timestamp == sample.timestamp
    &&& row.aggregate == sample.aggregate
    &&& row.histogram == sample.histogram
    &&& row.value == (if sample.histogram is Some {
        None
    } else {
        Some(sample.value)
    })
    &&& row.downsample_resolution == resolution
    &&& row.labels == labels
}

/// The samples that satisfy all conditions give one row each, in their order, and no others do.
pub proof fn law_rows_are_those_of_matching_samples(
    samples: Seq<SampleModel>,
    filters: Seq<FilterModel>,
    resolution: i64,
    labels: Seq<(Seq<char>, Seq<char>)>,
)
    ensures
        ({
            let matching = samples.filter(
                |sample: SampleModel|
                    all_filters_hold(
                        filters,
                        sample.timestamp as int,
                        sample.aggregate,
                        resolution as int,
                        pairs_map(labels),
                    ),
            );
            let rows = sample_rows(samples, filters, resolution, labels);
            &&& rows.len() == matching.len()
            &&& forall|i: int|
                0 <= i < rows.len() ==> is_row_of_sample(
                    #[trigger] rows[i],
                    matching[i],
                    resolution,
                    labels,
                )
        }),
    decreases samples.len(),
{
    reveal(Seq::filter);
    let condition = |sample: SampleModel|
        all_filters_hold(
            filters,
            sample.timestamp as int,
            sample.aggregate,
            resolution as int,
            pairs_map(labels),
        );
    if samples.len() > 0 {
        let rest = samples.drop_last();
        law_rows_are_those_of_matching_samples(rest, filters, resolution, labels);
        let rows = sample_rows(samples, filters, resolution, labels);
        let before = sample_rows(rest, filters, resolution, labels);
        let matching = samples.filter(condition);
        let fewer = rest.filter(condition);
        assert forall|i: int| 0 <= i < rows.len() implies is_row_of_sample(
            #[trigger] rows[i],
            matching[i],
            resolution,
            labels,
        ) by {
            if i < before.len() {
                assert(rows[i] == before[i]);
                assert(matching[i] == fewer[i]);
            }
        }
    }
}

/// Conditions hold together exactly if each of them does.
pub proof fn law_all_filters_have_to_hold(
    filters: Seq<FilterModel>,
    filter: FilterModel,
    timestamp: int,
    aggregate: AggregateKind,
    resolution: int,
    labels: Map<Seq<char>, Seq<char>>,
)
    ensures
        all_filters_hold(Seq::empty(), timestamp, aggregate, resolution, labels),
        all_filters_hold(filters.push(filter), timestamp, aggregate, resolution, labels)
            <==> all_filters_hold(filters, timestamp, aggregate, resolution, labels)
            && filter.holds(timestamp, aggregate, resolution, labels),
{
    let more = filters.push(filter);
    if all_filters_hold(more, timestamp, aggregate, resolution, labels) {
        assert forall|i: int| 0 <= i < filters.len() implies (#[trigger] filters[i]).holds(
            timestamp,
            aggregate,
            resolution,
            labels,
        ) by {
            assert(more[i] == filters[i]);
        }
        assert(more[filters.len() as int].holds(timestamp, aggregate, resolution, labels));
    }
}

/// The aggregate that is read is the first one that a condition names; raw samples are not chosen
/// that way, and other conditions choose none.
pub proof fn law_first_named_aggregate_is_read(filter: FilterModel, rest: Seq<FilterModel>)
    ensures
        selection_in(Seq::empty()) is None,
        selection_in(seq![filter] + rest) == match filter {
            FilterModel::Aggregate { value: AggregateKind::Count } => Some(
                AggregateSelection::Count,
            ),
            FilterModel::Aggregate { value: AggregateKind::Sum } => Some(AggregateSelection::Sum),
            FilterModel::Aggregate { value: AggregateKind::Counter } => Some(
                AggregateSelection::Counter,
            ),
            _ => selection_in(rest),
        },
{
    assert((seq![filter] + rest).skip(1) =~= rest);
}

/// A chunk is read for a metric exactly if it is one of the metric, its repository is known, its
/// labels can be read and it may hold what the conditions ask for; then it has the labels that the
/// index says.
pub proof fn law_scanned_chunks_are_those_of_the_metric(
    chunk: IndexedChunk<'_>,
    metric_name: Seq<char>,
    filters: Seq<FilterModel>,
)
    ensures
        match scanned(chunk, metric_name, filters) {
            Ok(Some(pairs)) => {
                &&& chunk.metric_name@ == metric_name
                &&& chunk.repository_known
                &&& json_entries(chunk.labels_json@) == Some(pairs)
                &&& forall|i: int|
                    0 <= i < filters.len() ==> (#[trigger] filters[i]).may_hold(
                        chunk.mint as int,
                        chunk.maxt as int,
                        chunk.downsample_resolution as int,
                        pairs_map(pairs),
                    )
            },
            Ok(None) => chunk.metric_name@ != metric_name || (json_entries(
                chunk.labels_json@,
            ) matches Some(pairs) && exists|i: int|
                0 <= i < filters.len() && !(#[trigger] filters[i]).may_hold(
                    chunk.mint as int,
                    chunk.maxt as int,
                    chunk.downsample_resolution as int,
                    pairs_map(pairs),
                )),
            Err(error) => chunk.metric_name@ == metric_name && (error
                == MetricError::UnknownRepository && !chunk.repository_known || error
                == MetricError::InvalidLabels && chunk.repository_known && json_entries(
                chunk.labels_json@,
            ) is None),
        },
{
}

/// The fields of a histogram hold what the histogram holds: counts and buckets of integers in the
/// fields for integers, those of floats in the fields for floats, and nothing in the others.
pub proof fn law_histogram_fields_hold_the_histogram(histogram: HistogramModel)
    ensures
        ({
            let fields = histogram_fields(histogram);
            &&& fields.schema == histogram.schema
            &&& fields.sum == histogram.sum
            &&& fields.zero_threshold == histogram.zero_threshold
            &&& fields.reset_hint == histogram.reset_hint
            &&& fields.positive_spans == histogram.positive_spans
            &&& fields.negative_spans == histogram.negative_spans
            &&& fields.custom_values == histogram.custom_values
            &&& match histogram.count {
                HistogramCount::Integer(count) => fields.kind == "histogram"@ && fields.count_int
                    == Some(count) && fields.count_float is None,
                HistogramCount::Float(count) => fields.kind == "float_histogram"@
                    && fields.count_float == Some(count) && fields.count_int is None,
            }
            &&& match histogram.zero_count {
                HistogramCount::Integer(count) => fields.zero_count_int == Some(count)
                    && fields.zero_count_float is None,
                HistogramCount::Float(count) => fields.zero_count_float == Some(count)
                    && fields.zero_count_int is None,
            }
            &&& match histogram.positive_buckets {
                BucketsModel::Integer(values) => fields.positive_buckets_int == Some(values)
                    && fields.positive_buckets_float is None,
                BucketsModel::Float(values) => fields.positive_buckets_float == Some(values)
                    && fields.positive_buckets_int is None,
            }
            &&& match histogram.negative_buckets {
                BucketsModel::Integer(values) => fields.negative_buckets_int == Some(values)
                    && fields.negative_buckets_float is None,
                BucketsModel::Float(values) => fields.negative_buckets_float == Some(values)
                    && fields.negative_buckets_int is None,
            }
        }),
{
}

/// The cells of a row in the table of its metric: the time, the value, the histogram, the resolution
/// and the name of the aggregate stand under these names, and each label under its own.
pub proof fn law_cells_stand_in_their_columns(
    labels: Seq<Seq<char>>,
    row: MetricRowModel,
    i: int,
)
    requires
        0 <= i < labels.len(),
        labels[i] != "aggregate_kind"@,
    ensures
        ({
            let columns = metric_columns(labels);
            &&& columns.len() == labels.len() + 5
            &&& columns[0].name == "timestamp"@
            &&& row_cell(columns[0], row) == Some(CellModel::Timestamp(row.timestamp))
            &&& columns[1].name == "value"@
            &&& row_cell(columns[1], row) == Some(
                match row.value {
                    Some(value) => CellModel::Float(value),
                    None => CellModel::Null,
                },
            )
            &&& columns[2].name == "histogram"@
            &&& row_cell(columns[2], row) == Some(
                match row.histogram {
                    Some(histogram) => CellModel::Histogram(histogram_fields(histogram)),
                    None => CellModel::Null,
                },
            )
            &&& columns[3].name == "downsample_resolution"@
            &&& row_cell(columns[3], row) == Some(CellModel::Integer(row.downsample_resolution))
            &&& columns[4].name == "aggregate_kind"@
            &&& row_cell(columns[4], row) == Some(
                CellModel::Text(
                    match row.aggregate {
                        AggregateKind::Raw => "raw"@,
                        AggregateKind::Count => "count"@,
                        AggregateKind::Sum => "sum"@,
                        AggregateKind::Counter => "counter"@,
                    },
                ),
            )
            &&& columns[5 + i].name == labels[i]
            &&& row_cell(columns[5 + i], row) == Some(
                CellModel::Text(
                    if pairs_map(row.labels).contains_key(labels[i]) {
                        pairs_map(row.labels)[labels[i]]
                    } else {
                        Seq::empty()
                    },
                ),
            )
        }),
{
    reveal_strlit("timestamp");
    reveal_strlit("value");
    reveal_strlit("histogram");
    reveal_strlit("downsample_resolution");
    reveal_strlit("aggregate_kind");
    assert("timestamp"@[0] != "histogram"@[0]);
    assert(metric_columns(labels)[5 + i] == required(labels[i], ColumnKind::Text));
}

/// The columns that are chosen are those at the positions that are asked for, in their order.
pub proof fn law_chosen_columns_are_those_asked_for(
    columns: Seq<ColumnModel>,
    projection: Seq<usize>,
    i: int,
)
    requires
        0 <= i < projection.len(),
    ensures
        projected(columns, projection).len() == projection.len(),
        projected(columns, projection)[i] == columns[projection[i] as int],
{
}

/// The metrics whose names end in `_total` are counters.
pub proof fn law_totals_are_counters(name: Seq<char>)
    ensures
        is_counter(name + "_total"@),
        is_counter(name) ==> name.len() >= 6 && name.skip(name.len() - 6) == "_total"@,
{
    reveal_strlit("_total");
    let total = name + "_total"@;
    assert(total.skip(total.len() - 6) =~= "_total"@);
}

/// The name of an aggregate names it, and nothing else names it.
pub proof fn law_aggregates_are_known_by_their_names(kind: AggregateKind, text: Seq<char>)
    ensures
        aggregate_named(kind.name()) == Some(kind),
        aggregate_named(text) == Some(kind) ==> text == kind.name(),
{
    reveal_strlit("raw");
    reveal_strlit("count");
    reveal_strlit("sum");
    reveal_strlit("counter");
    assert("raw"@.len() == 3 && "count"@.len() == 5 && "sum"@.len() == 3 && "counter"@.len() == 7);
    assert("raw"@[0] != "sum"@[0]);
}

/// Texts can be asked for being the same or not, and no other operator holds of them.
pub proof fn law_operators_compare_texts(
    left: Seq<char>,
    right: Seq<char>,
    operator: FilterOperator,
)
    ensures
        texts_hold(left, FilterOperator::Eq, right) <==> left == right,
        texts_hold(left, FilterOperator::NotEq, right) <==> left != right,
        operator != FilterOperator::Eq && operator != FilterOperator::NotEq ==> !texts_hold(
            left,
            operator,
            right,
        ),
{
}

} // verus!
