use vstd::prelude::*;
use crate::group::InstantValue;
use crate::labels::Label;

verus! {

/// A series over a range of time: its labels and its samples as
/// (timestamp, value bits) pairs.
#[derive(Clone, Debug)]
pub struct RangeValue {
    pub labels: Vec<Label>,
    pub samples: Vec<(i64, u64)>,
}

/// What an expression evaluates to. A float is held as the bits of an
/// IEEE-754 double.
#[derive(Clone, Debug)]
pub enum Value {
    Vector(Vec<InstantValue>),
    Float(u64),
    Matrix(Vec<RangeValue>),
    Absent,
}

/// Why an aggregation refused its input; each kind carries the operator's
/// name.
#[derive(Clone, Debug)]
pub enum AggregationError {
    /// The input is neither a vector nor absent.
    InputType(String),
    /// The parameter of the operator has the wrong type.
    ParameterType(String),
}

/// `r` is the input-type error that names `name`.
pub open spec fn is_input_type_error<T>(r: Result<T, AggregationError>, name: Seq<char>) -> bool {
    match r {
        Err(AggregationError::InputType(s)) => s@ == name,
        _ => false,
    }
}

/// `r` is the parameter-type error that names `name`.
pub open spec fn is_parameter_type_error<T>(r: Result<T, AggregationError>, name: Seq<char>) -> bool {
    match r {
        Err(AggregationError::ParameterType(s)) => s@ == name,
        _ => false,
    }
}

} // verus!
