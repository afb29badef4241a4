use vstd::prelude::*;

verus! {

/// The recoverable failures of categorical columns.
#[derive(Clone, Copy, Debug, PartialEq, Eq, Structural)]
pub enum PolarsError {
    /// A cast to an enum whose reverse mapping is a global one.
    EnumWithGlobalMapping,
    /// A cast to an enum that carries no categories.
    EnumWithoutCategories,
    /// A global conversion was asked for while the string cache is disabled.
    StringCacheMismatch,
    /// A strict cast met a category that is not a number of the target type.
    ConversionFailed,
    /// A checked access at `index` on a column of `len` rows.
    OutOfBounds { index: usize, len: usize },
}

impl PolarsError {
    /// A human readable description of the failure.
    pub fn message(&self) -> (r: &'static str) {
        match self {
            PolarsError::EnumWithGlobalMapping => "cannot cast to enum with global mapping",
            PolarsError::EnumWithoutCategories => "cannot cast to enum without categories present",
            PolarsError::StringCacheMismatch => "cannot compare categoricals coming from different sources; enable the string cache",
            PolarsError::ConversionFailed => "conversion from categories to numbers failed",
            PolarsError::OutOfBounds { .. } => "index out of bounds",
        }
    }
}

} // verus!
