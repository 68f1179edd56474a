//! The engine's error taxonomy.

use vstd::prelude::*;
use vstd::string::StringExecFns;

use crate::cell::Coord;

verus! {

/// Every way an operation on a sheet can fail.
///
/// `CellNotFound` is returned by read-only lookups of a coordinate with no
/// stored entry; writes always create. `InvalidFormula` carries the offending
/// substring of the formula source. `CircularDependency` is raised both by the
/// static reachability check at commit time and by the runtime visitation
/// check during evaluation. `NonNumericOperand` carries the coordinate whose
/// cell was referenced where a number was required. `DivisionByZero` is kept
/// distinct from general operand errors so callers can special-case it.
/// `NumericOverflow` reports an arithmetic result outside the `i64` range,
/// and `RecursionLimitExceeded` a dependency chain deeper than the engine's
/// ceiling.
#[derive(Debug, Clone)]
pub enum SpreadsheetError {
    CellNotFound,
    CircularDependency,
    InvalidFormula(String),
    NonNumericOperand(Coord),
    DivisionByZero,
    NumericOverflow,
    RecursionLimitExceeded,
}

impl SpreadsheetError {
    /// The message each error renders to.
    pub open spec fn describe_spec(&self) -> Seq<char> {
        match self {
            SpreadsheetError::CellNotFound => "Cell not found"@,
            SpreadsheetError::CircularDependency => "Circular dependency detected"@,
            SpreadsheetError::InvalidFormula(e) => "Invalid formula: "@ + e@,
            SpreadsheetError::NonNumericOperand(_) => "Non-numeric operand"@,
            SpreadsheetError::DivisionByZero => "Division by zero"@,
            SpreadsheetError::NumericOverflow => "Numeric overflow"@,
            SpreadsheetError::RecursionLimitExceeded => "Recursion limit exceeded"@,
        }
    }

    /// A human-readable description, in place of a `Display` impl; an
    /// invalid-formula error appends the offending substring it carries.
    pub fn describe(&self) -> (r: String)
        ensures
            r@ == self.describe_spec(),
    {
        match self {
            SpreadsheetError::CellNotFound => "Cell not found".to_owned(),
            SpreadsheetError::CircularDependency => "Circular dependency detected".to_owned(),
            SpreadsheetError::InvalidFormula(e) => {
                let mut s = "Invalid formula: ".to_owned();
                s.append(e.as_str());
                s
            },
            SpreadsheetError::NonNumericOperand(_) => "Non-numeric operand".to_owned(),
            SpreadsheetError::DivisionByZero => "Division by zero".to_owned(),
            SpreadsheetError::NumericOverflow => "Numeric overflow".to_owned(),
            SpreadsheetError::RecursionLimitExceeded => "Recursion limit exceeded".to_owned(),
        }
    }
}

} // verus!
