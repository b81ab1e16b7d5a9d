use vstd::prelude::*;

use crate::text::IntErrorCause;

verus! {

/// A numeric column of the index.
#[derive(Clone, Copy, Debug, PartialEq, Eq, Structural)]
pub enum FaiField {
    Length,
    Offset,
    LineBases,
    LineWidth,
}

/// What can go wrong in parsing the index or in a query.
#[derive(Clone, Copy, Debug, PartialEq, Eq, Structural)]
pub enum FaiError {
    /// An index line does not hold exactly five tab-separated columns.
    Format,
    /// A numeric column is not a valid number.
    Parse { field: FaiField, cause: IntErrorCause },
    /// An unknown sequence id, or an interval beyond the sequence or the file.
    Range,
    /// A query interval whose start lies after its stop.
    InvalidRange,
    /// Bytes that are not valid UTF-8 where text is required.
    Conversion,
}

} // verus!
