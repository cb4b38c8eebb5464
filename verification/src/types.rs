//! Plain data shared by the indexes: points, bounds, ranges, conditions and
//! the estimates handed to the query planner.

use vstd::prelude::*;

verus! {

/// Identifier of a point inside a segment.
pub type PointOffsetType = u32;

/// Result of comparing two values by their encoded form.
#[derive(Clone, Copy, Debug, PartialEq, Eq, Structural)]
pub enum KeyOrdering {
    Less,
    Equal,
    Greater,
}

/// One end of an interval.
#[derive(Clone, Copy, Debug)]
pub enum Bound<T> {
    Included(T),
    Excluded(T),
    Unbounded,
}

/// A value together with the point that carries it.
#[derive(Clone, Copy, Debug)]
pub struct Point<T> {
    pub val: T,
    pub idx: PointOffsetType,
}

impl<T> Point<T> {
    pub fn new(val: T, idx: PointOffsetType) -> (p: Self)
        ensures
            p.val == val,
            p.idx == idx,
    {
        Point { val, idx }
    }
}

/// A range condition. `gte` takes precedence over `gt` and `lte` over `lt`.
#[derive(Clone, Copy, Debug)]
pub struct Range<T> {
    pub lt: Option<T>,
    pub gt: Option<T>,
    pub gte: Option<T>,
    pub lte: Option<T>,
}

/// 64-bit IEEE-754 payload value, held by its bit pattern.
#[derive(Clone, Copy, Debug, PartialEq, Eq, Structural)]
pub struct FloatPayloadType {
    pub bits: u64,
}

impl FloatPayloadType {
    pub fn from_bits(bits: u64) -> (v: Self)
        ensures
            v.bits == bits,
    {
        FloatPayloadType { bits }
    }

    pub fn to_bits(&self) -> (bits: u64)
        ensures
            bits == self.bits,
    {
        self.bits
    }

    /// Whether the bit pattern is a NaN: all exponent bits set and a
    /// non-zero mantissa.
    pub open spec fn spec_is_nan(&self) -> bool {
        self.bits % 0x8000_0000_0000_0000 > 0x7ff0_0000_0000_0000
    }

    #[verifier::when_used_as_spec(spec_is_nan)]
    pub fn is_nan(&self) -> (b: bool)
        ensures
            b == self.spec_is_nan(),
    {
        self.bits % 0x8000_0000_0000_0000 > 0x7ff0_0000_0000_0000
    }
}

/// Signed 64-bit payload value.
pub type IntPayloadType = i64;

/// A UUID payload value as a 128-bit integer.
pub type UuidIntType = u128;

/// A UUID payload value, held as the 128-bit integer its bytes spell.
#[derive(Clone, Copy, Debug, PartialEq, Eq, Structural)]
pub struct UuidPayloadType {
    pub value: u128,
}

impl UuidPayloadType {
    pub fn from_u128(value: u128) -> (v: Self)
        ensures
            v.value == value,
    {
        UuidPayloadType { value }
    }

    pub fn as_u128(&self) -> (value: u128)
        ensures
            value == self.value,
    {
        self.value
    }
}

/// A date-time payload value, held as microseconds since the Unix epoch.
#[derive(Clone, Copy, Debug, PartialEq, Eq, Structural)]
pub struct DateTimePayloadType {
    pub micros: i64,
}

impl DateTimePayloadType {
    pub fn from_timestamp_micros(micros: i64) -> (v: Self)
        ensures
            v.micros == micros,
    {
        DateTimePayloadType { micros }
    }

    /// Microseconds since the Unix epoch.
    pub fn timestamp(&self) -> (micros: i64)
        ensures
            micros == self.micros,
    {
        self.micros
    }
}

/// Why an operation on an index was refused.
#[derive(Debug)]
pub enum OperationError {
    /// The index cannot serve the request in its present form.
    ServiceError { description: String },
    /// Stored bytes do not have the layout the index writes.
    Corruption { description: String },
}

impl OperationError {
    pub fn service_error(description: &str) -> (e: Self)
        ensures
            e == (OperationError::ServiceError { description: e->ServiceError_description }),
            e->ServiceError_description@ == description@,
    {
        OperationError::ServiceError { description: description.to_owned() }
    }

    pub fn corruption(description: &str) -> (e: Self)
        ensures
            e == (OperationError::Corruption { description: e->Corruption_description }),
            e->Corruption_description@ == description@,
    {
        OperationError::Corruption { description: description.to_owned() }
    }

    /// The message of the error.
    pub fn description(&self) -> (d: &String)
        ensures
            d@ == match *self {
                OperationError::ServiceError { description } => description@,
                OperationError::Corruption { description } => description@,
            },
    {
        match self {
            OperationError::ServiceError { description } => description,
            OperationError::Corruption { description } => description,
        }
    }
}

pub type OperationResult<T> = Result<T, OperationError>;

/// A value to match a payload field against.
#[derive(Debug)]
pub enum ValueVariants {
    String(String),
    Integer(IntPayloadType),
    Bool(bool),
}

impl ValueVariants {
    pub fn duplicate(&self) -> (copy: Self)
        ensures
            copy == *self,
    {
        match self {
            ValueVariants::String(s) => ValueVariants::String(s.clone()),
            ValueVariants::Integer(i) => ValueVariants::Integer(*i),
            ValueVariants::Bool(b) => ValueVariants::Bool(*b),
        }
    }
}

/// Match of a field against one value.
#[derive(Debug)]
pub struct MatchValue {
    pub value: ValueVariants,
}

/// How a condition matches a field.
#[derive(Debug)]
pub enum Match {
    /// The field equals a value.
    Value(MatchValue),
    /// The field contains a text.
    Text { text: String },
}

impl Match {
    pub fn duplicate(&self) -> (copy: Self)
        ensures
            copy == *self,
    {
        match self {
            Match::Value(m) => Match::Value(MatchValue { value: m.value.duplicate() }),
            Match::Text { text } => Match::Text { text: text.clone() },
        }
    }
}

/// A range over the values of an index, or over date-times that the index
/// holds by their timestamps.
#[derive(Clone, Copy, Debug)]
pub enum RangeInterface<T> {
    Numeric(Range<T>),
    DateTime(Range<DateTimePayloadType>),
}

/// A condition on one payload field.
#[derive(Debug)]
pub struct FieldCondition<T> {
    pub key: String,
    pub matcher: Option<Match>,
    pub range: Option<RangeInterface<T>>,
}

impl<T: Copy> FieldCondition<T> {
    /// A condition that asks for the values of `key` to lie in `range`.
    pub fn new_range(key: String, range: Range<T>) -> (c: Self)
        ensures
            c.key == key,
            c.matcher.is_none(),
            c.range == Some(RangeInterface::Numeric(range)),
    {
        FieldCondition { key, matcher: None, range: Some(RangeInterface::Numeric(range)) }
    }

    pub fn duplicate(&self) -> (copy: Self)
        ensures
            copy == *self,
    {
        let matcher = match &self.matcher {
            Some(m) => Some(m.duplicate()),
            None => None,
        };
        let range = match &self.range {
            Some(r) => Some(*r),
            None => None,
        };
        FieldCondition { key: self.key.clone(), matcher, range }
    }
}

/// A condition that an estimate rests on.
#[derive(Debug)]
pub enum PrimaryCondition<T> {
    Condition(Box<FieldCondition<T>>),
}

/// How many points a filter is expected to select.
#[derive(Debug)]
pub struct CardinalityEstimation<T> {
    pub primary_clauses: Vec<PrimaryCondition<T>>,
    pub min: usize,
    pub exp: usize,
    pub max: usize,
}

impl<T> CardinalityEstimation<T> {
    /// An estimate that is known exactly.
    pub fn exact(count: usize) -> (e: Self)
        ensures
            e.primary_clauses@ == Seq::<PrimaryCondition<T>>::empty(),
            e.min == count,
            e.exp == count,
            e.max == count,
    {
        CardinalityEstimation { primary_clauses: Vec::new(), min: count, exp: count, max: count }
    }

    /// The estimate, resting on one more condition.
    pub fn with_primary_clause(self, clause: PrimaryCondition<T>) -> (e: Self)
        ensures
            e.primary_clauses@ == self.primary_clauses@.push(clause),
            e.min == self.min,
            e.exp == self.exp,
            e.max == self.max,
    {
        let mut clauses = self.primary_clauses;
        clauses.push(clause);
        CardinalityEstimation {
            primary_clauses: clauses,
            min: self.min,
            exp: self.exp,
            max: self.max,
        }
    }
}

/// One block of a partition of the value domain.
#[derive(Debug)]
pub struct PayloadBlockCondition<T> {
    pub condition: FieldCondition<T>,
    pub cardinality: usize,
}

/// Whether an index accepts new values.
#[derive(Clone, Copy, Debug, PartialEq, Eq, Structural)]
pub enum IndexMutability {
    Mutable,
    Immutable,
}

/// Where an index keeps its data.
#[derive(Clone, Copy, Debug, PartialEq, Eq, Structural)]
pub enum StorageType {
    Gridstore,
    Mmap { is_on_disk: bool },
}

/// What an index reports about itself.
#[derive(Debug)]
pub struct PayloadIndexTelemetry {
    pub field_name: Option<String>,
    pub index_type: &'static str,
    pub points_values_count: usize,
    pub points_count: usize,
    pub histogram_bucket_size: Option<usize>,
}

} // verus!
