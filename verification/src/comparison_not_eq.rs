//! The SQL comparison `<>`.

use vstd::prelude::*;

verus! {

/// The comparisons between two values.
#[derive(Clone, Copy, Debug, PartialEq, Eq, Structural)]
pub enum DataValueComparisonOperator {
    Eq,
    Lt,
    LtEq,
    Gt,
    GtEq,
    NotEq,
}

/// A comparison function under the name it is shown by.
#[derive(Debug, PartialEq, Eq)]
pub struct ComparisonFunction {
    pub op: DataValueComparisonOperator,
}

/// The factory of the comparison `<>`.
pub struct ComparisonNotEqFunction;

impl ComparisonNotEqFunction {
    /// The comparison function for `<>`, whatever name it is shown by.
    pub fn try_create_func(_display_name: &str) -> (r: ComparisonFunction)
        ensures
            r.op == DataValueComparisonOperator::NotEq,
    {
        ComparisonFunction { op: DataValueComparisonOperator::NotEq }
    }
}

} // verus!
