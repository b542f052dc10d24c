//! Error types for plan construction and transform execution.

use vstd::prelude::*;
use vstd::string::*;

use crate::text::{decimal, numeral, phrase};

verus! {

/// Error returned when additive-transform execution inputs are invalid.
///
/// Errors are reported before any destination or scratch is changed. Element
/// methods report lengths in field elements; byte-row methods report lengths in
/// bytes.
#[derive(Clone, Copy, Debug, PartialEq, Eq)]
#[non_exhaustive]
pub enum TransformError {
    /// A transform buffer has the wrong length.
    BufferLength {
        /// Length required by the operation.
        expected: usize,
        /// Length supplied by the caller.
        got: usize,
    },
    /// The caller-provided workspace is too short.
    ScratchTooSmall {
        /// Minimum workspace length.
        required: usize,
        /// Workspace length supplied by the caller.
        available: usize,
    },
    /// A row length is zero or not a whole number of field elements.
    InvalidRowLength {
        /// The offending row length, in bytes.
        row_len: usize,
        /// Width of one field element, in bytes.
        element_bytes: usize,
    },
    /// A derived buffer or workspace length cannot be represented by `usize`.
    GeometryOverflow,
    /// Selected indices are out of range, nonascending, or duplicated.
    InvalidSelection,
    /// An output range is reversed or extends beyond the domain.
    InvalidRange {
        /// Requested inclusive start.
        start: usize,
        /// Requested exclusive end.
        end: usize,
        /// Number of rows in the operation's domain.
        size: usize,
    },
    /// The active coefficient prefix is outside the operation's valid bounds.
    InvalidActivePrefix {
        /// Requested active prefix length.
        active: usize,
        /// Number of rows in the plan.
        size: usize,
    },
    /// The operation requires a larger transform plan.
    UnsupportedPlanSize {
        /// Number of rows in the supplied plan.
        size: usize,
        /// Smallest supported plan size.
        minimum: usize,
    },
}

/// Error returned when a transform plan cannot be constructed.
#[derive(Clone, Copy, Debug, PartialEq, Eq)]
#[non_exhaustive]
pub enum PlanError {
    /// Transform size was zero or not a power of two.
    InvalidSize {
        /// The offending size.
        size: usize,
    },
    /// The base-two logarithm of the size exceeds the domain cap for the field:
    /// the smaller of the field's extension degree and the table-size cap.
    DomainTooLarge {
        /// The requested base-two logarithm.
        log_size: usize,
        /// The cap that was exceeded.
        cap: usize,
    },
    /// Too few basis elements were supplied.
    BasisTooShort {
        /// Elements required.
        needed: usize,
        /// Elements supplied.
        got: usize,
    },
    /// The basis prefix is linearly dependent over GF(2).
    DependentBasis,
    /// The Cantor chain does not run the full length of this field: the step at
    /// `dimension` has no root, or the resulting elements are not a basis.
    NoCantorBasis {
        /// The step at which the chain broke.
        dimension: usize,
    },
}

/// Error returned by multiplicative-transform plan construction and execution.
#[derive(Clone, Copy, Debug, PartialEq, Eq)]
#[non_exhaustive]
pub enum NttError {
    /// Transform size was zero or not a power of two.
    InvalidSize {
        /// The offending size.
        size: usize,
    },
    /// The field has no primitive root of unity of that order, or the size
    /// exceeds the table-size cap.
    UnsupportedSize {
        /// The requested size.
        size: usize,
        /// Number of elements in the field.
        field_order: u128,
    },
    /// A size, offset, or byte length did not fit.
    GeometryOverflow,
    /// A table or scratch allocation failed.
    AllocationFailed,
    /// The row buffer length does not match the plan.
    BufferLength {
        /// Length the plan requires, in bytes.
        expected: usize,
        /// Length the caller supplied, in bytes.
        actual: usize,
    },
    /// A row length is zero or not a whole number of field elements.
    InvalidRowLength {
        /// The offending row length, in bytes.
        row_len: usize,
        /// Width of one field element, in bytes.
        element_bytes: usize,
    },
    /// The supplied scratch was built for a field of a different element width.
    ScratchFieldMismatch {
        /// Element width the scratch was built for, in bytes.
        scratch_element_bytes: usize,
        /// Element width of this plan's field, in bytes.
        field_element_bytes: usize,
    },
    /// The supplied scratch row is shorter than the requested row length.
    ScratchTooSmall {
        /// Row bytes required.
        required: usize,
        /// Row bytes the scratch was built for.
        available: usize,
    },
    /// The supplied scratch batch is shorter than the required byte length.
    ScratchBatchTooSmall {
        /// Batch bytes required.
        required: usize,
        /// Batch bytes available.
        available: usize,
    },
    /// The supplied scratch transpose buffer is shorter than required.
    ScratchTransposeTooSmall {
        /// Transpose bytes required.
        required: usize,
        /// Transpose bytes available.
        available: usize,
    },
}

impl TransformError {
    /// The text of the message of an error.
    pub open spec fn text(self) -> Seq<char> {
        match self {
            TransformError::BufferLength { expected, got } => {
                "wrong transform length: expected "@ + decimal(expected as nat) + ", got "@
                    + decimal(got as nat)
            },
            TransformError::ScratchTooSmall { required, available } => {
                "scratch too small: need "@ + decimal(required as nat) + ", have "@ + decimal(
                    available as nat,
                )
            },
            TransformError::InvalidRowLength { row_len, element_bytes } => {
                "row length "@ + decimal(row_len as nat) + " is zero or not a whole number of "@
                    + decimal(element_bytes as nat) + "-byte elements"@
            },
            TransformError::GeometryOverflow => "transform geometry overflowed"@,
            TransformError::InvalidSelection => {
                "selected rows must be in range, sorted, and unique"@
            },
            TransformError::InvalidRange { start, end, size } => {
                "range "@ + decimal(start as nat) + ".."@ + decimal(end as nat)
                    + " is invalid for "@ + decimal(size as nat) + " rows"@
            },
            TransformError::InvalidActivePrefix { active, size } => {
                "active prefix "@ + decimal(active as nat) + " is invalid for "@ + decimal(
                    size as nat,
                ) + " rows"@
            },
            TransformError::UnsupportedPlanSize { size, minimum } => {
                "plan size "@ + decimal(size as nat) + " is unsupported: need at least "@ + decimal(
                    minimum as nat,
                )
            },
        }
    }

    /// The message of an error.
    pub fn message(&self) -> (r: String)
        ensures
            r@ == self.text(),
    {
        proof {
            reveal_strlit("");
        }
        match *self {
            TransformError::BufferLength { expected, got } => {
                pair(
                    "wrong transform length: expected ",
                    expected as u128,
                    ", got ",
                    got as u128,
                    "",
                )
            },
            TransformError::ScratchTooSmall { required, available } => {
                pair(
                    "scratch too small: need ",
                    required as u128,
                    ", have ",
                    available as u128,
                    "",
                )
            },
            TransformError::InvalidRowLength { row_len, element_bytes } => {
                pair(
                    "row length ",
                    row_len as u128,
                    " is zero or not a whole number of ",
                    element_bytes as u128,
                    "-byte elements",
                )
            },
            TransformError::GeometryOverflow => String::from_str("transform geometry overflowed"),
            TransformError::InvalidSelection => {
                String::from_str("selected rows must be in range, sorted, and unique")
            },
            TransformError::InvalidRange { start, end, size } => {
                let head = pair("range ", start as u128, "..", end as u128, " is invalid for ");
                let number = numeral(size as u128);
                head.concat(number.as_str()).concat(" rows")
            },
            TransformError::InvalidActivePrefix { active, size } => {
                pair(
                    "active prefix ",
                    active as u128,
                    " is invalid for ",
                    size as u128,
                    " rows",
                )
            },
            TransformError::UnsupportedPlanSize { size, minimum } => {
                pair(
                    "plan size ",
                    size as u128,
                    " is unsupported: need at least ",
                    minimum as u128,
                    "",
                )
            },
        }
    }
}

impl PlanError {
    /// The text of the message of an error.
    pub open spec fn text(self) -> Seq<char> {
        match self {
            PlanError::InvalidSize { size } => {
                "invalid transform size "@ + decimal(size as nat) + ": not a power of two"@
            },
            PlanError::DomainTooLarge { log_size, cap } => {
                "transform log size "@ + decimal(log_size as nat) + " exceeds domain cap "@
                    + decimal(cap as nat)
            },
            PlanError::BasisTooShort { needed, got } => {
                "basis too short: need "@ + decimal(needed as nat) + " elements, got "@ + decimal(
                    got as nat,
                )
            },
            PlanError::DependentBasis => "basis elements are linearly dependent over GF(2)"@,
            PlanError::NoCantorBasis { dimension } => {
                "no Cantor basis for this field: chain broke at v_"@ + decimal(dimension as nat)
            },
        }
    }

    /// The message of an error.
    pub fn message(&self) -> (r: String)
        ensures
            r@ == self.text(),
    {
        proof {
            reveal_strlit("");
        }
        match *self {
            PlanError::InvalidSize { size } => {
                phrase("invalid transform size ", size as u128, ": not a power of two")
            },
            PlanError::DomainTooLarge { log_size, cap } => {
                pair(
                    "transform log size ",
                    log_size as u128,
                    " exceeds domain cap ",
                    cap as u128,
                    "",
                )
            },
            PlanError::BasisTooShort { needed, got } => {
                pair(
                    "basis too short: need ",
                    needed as u128,
                    " elements, got ",
                    got as u128,
                    "",
                )
            },
            PlanError::DependentBasis => {
                String::from_str("basis elements are linearly dependent over GF(2)")
            },
            PlanError::NoCantorBasis { dimension } => {
                phrase(
                    "no Cantor basis for this field: chain broke at v_",
                    dimension as u128,
                    "",
                )
            },
        }
    }
}

impl NttError {
    /// The text of the message of an error.
    pub open spec fn text(self) -> Seq<char> {
        match self {
            NttError::InvalidSize { size } => {
                "invalid transform size "@ + decimal(size as nat) + ": not a power of two"@
            },
            NttError::UnsupportedSize { size, field_order } => {
                "transform size "@ + decimal(size as nat)
                    + " is unsupported: it exceeds the table-size cap, or the field of order "@
                    + decimal(field_order as nat)
                    + " has no primitive root of unity of that order"@
            },
            NttError::GeometryOverflow => "transform geometry overflowed"@,
            NttError::AllocationFailed => "transform table allocation failed"@,
            NttError::BufferLength { expected, actual } => {
                "wrong row buffer length: expected "@ + decimal(expected as nat) + " bytes, got "@
                    + decimal(actual as nat)
            },
            NttError::InvalidRowLength { row_len, element_bytes } => {
                "row length "@ + decimal(row_len as nat) + " is zero or not a whole number of "@
                    + decimal(element_bytes as nat) + "-byte elements"@
            },
            NttError::ScratchFieldMismatch { scratch_element_bytes, field_element_bytes } => {
                "scratch was built for "@ + decimal(scratch_element_bytes as nat)
                    + "-byte elements, but this plan transforms "@ + decimal(
                    field_element_bytes as nat,
                ) + "-byte elements"@
            },
            NttError::ScratchTooSmall { required, available } => {
                "scratch too small: need "@ + decimal(required as nat) + " row bytes, have "@
                    + decimal(available as nat)
            },
            NttError::ScratchBatchTooSmall { required, available } => {
                "scratch batch too small: need "@ + decimal(required as nat) + " bytes, have "@
                    + decimal(available as nat)
            },
            NttError::ScratchTransposeTooSmall { required, available } => {
                "scratch transpose too small: need "@ + decimal(required as nat)
                    + " bytes, have "@ + decimal(available as nat)
            },
        }
    }

    /// The message of an error.
    pub fn message(&self) -> (r: String)
        ensures
            r@ == self.text(),
    {
        proof {
            reveal_strlit("");
        }
        match *self {
            NttError::InvalidSize { size } => {
                phrase("invalid transform size ", size as u128, ": not a power of two")
            },
            NttError::UnsupportedSize { size, field_order } => {
                pair(
                    "transform size ",
                    size as u128,
                    " is unsupported: it exceeds the table-size cap, or the field of order ",
                    field_order,
                    " has no primitive root of unity of that order",
                )
            },
            NttError::GeometryOverflow => String::from_str("transform geometry overflowed"),
            NttError::AllocationFailed => String::from_str("transform table allocation failed"),
            NttError::BufferLength { expected, actual } => {
                pair(
                    "wrong row buffer length: expected ",
                    expected as u128,
                    " bytes, got ",
                    actual as u128,
                    "",
                )
            },
            NttError::InvalidRowLength { row_len, element_bytes } => {
                pair(
                    "row length ",
                    row_len as u128,
                    " is zero or not a whole number of ",
                    element_bytes as u128,
                    "-byte elements",
                )
            },
            NttError::ScratchFieldMismatch { scratch_element_bytes, field_element_bytes } => {
                pair(
                    "scratch was built for ",
                    scratch_element_bytes as u128,
                    "-byte elements, but this plan transforms ",
                    field_element_bytes as u128,
                    "-byte elements",
                )
            },
            NttError::ScratchTooSmall { required, available } => {
                pair(
                    "scratch too small: need ",
                    required as u128,
                    " row bytes, have ",
                    available as u128,
                    "",
                )
            },
            NttError::ScratchBatchTooSmall { required, available } => {
                pair(
                    "scratch batch too small: need ",
                    required as u128,
                    " bytes, have ",
                    available as u128,
                    "",
                )
            },
            NttError::ScratchTransposeTooSmall { required, available } => {
                pair(
                    "scratch transpose too small: need ",
                    required as u128,
                    " bytes, have ",
                    available as u128,
                    "",
                )
            },
        }
    }
}

/// Three texts with two numbers between them.
fn pair(first: &str, n: u128, middle: &str, m: u128, last: &str) -> (r: String)
    ensures
        r@ == first@ + decimal(n as nat) + middle@ + decimal(m as nat) + last@,
{
    let head = phrase(first, n, middle);
    let number = numeral(m);
    head.concat(number.as_str()).concat(last)
}

/// The text of every `TransformError`, whatever its numbers: they stand in it in decimal.
pub proof fn law_transform_error_texts(
    expected: usize,
    got: usize,
    required: usize,
    available: usize,
    row_len: usize,
    element_bytes: usize,
    start: usize,
    end: usize,
    size: usize,
    active: usize,
    minimum: usize,
)
    ensures
        (TransformError::BufferLength { expected, got }).text() == "wrong transform length: expected "@
            + decimal(expected as nat) + ", got "@ + decimal(got as nat),
        (TransformError::ScratchTooSmall { required, available }).text() == "scratch too small: need "@
            + decimal(required as nat) + ", have "@ + decimal(available as nat),
        (TransformError::InvalidRowLength { row_len, element_bytes }).text() == "row length "@
            + decimal(row_len as nat) + " is zero or not a whole number of "@
            + decimal(element_bytes as nat) + "-byte elements"@,
        (TransformError::GeometryOverflow).text() == "transform geometry overflowed"@,
        (TransformError::InvalidSelection).text() == "selected rows must be in range, sorted, and unique"@,
        (TransformError::InvalidRange { start, end, size }).text() == "range "@
            + decimal(start as nat) + ".."@ + decimal(end as nat) + " is invalid for "@
            + decimal(size as nat) + " rows"@,
        (TransformError::InvalidActivePrefix { active, size }).text() == "active prefix "@
            + decimal(active as nat) + " is invalid for "@ + decimal(size as nat) + " rows"@,
        (TransformError::UnsupportedPlanSize { size, minimum }).text() == "plan size "@
            + decimal(size as nat) + " is unsupported: need at least "@
            + decimal(minimum as nat),
{
}

/// The text of every `PlanError`, whatever its numbers: they stand in it in decimal.
pub proof fn law_plan_error_texts(
    size: usize,
    log_size: usize,
    cap: usize,
    needed: usize,
    got: usize,
    dimension: usize,
)
    ensures
        (PlanError::InvalidSize { size }).text() == "invalid transform size "@
            + decimal(size as nat) + ": not a power of two"@,
        (PlanError::DomainTooLarge { log_size, cap }).text() == "transform log size "@
            + decimal(log_size as nat) + " exceeds domain cap "@ + decimal(cap as nat),
        (PlanError::BasisTooShort { needed, got }).text() == "basis too short: need "@
            + decimal(needed as nat) + " elements, got "@ + decimal(got as nat),
        (PlanError::DependentBasis).text() == "basis elements are linearly dependent over GF(2)"@,
        (PlanError::NoCantorBasis { dimension }).text() == "no Cantor basis for this field: chain broke at v_"@
            + decimal(dimension as nat),
{
}

/// The text of every `NttError`, whatever its numbers: they stand in it in decimal.
pub proof fn law_ntt_error_texts(
    size: usize,
    field_order: u128,
    expected: usize,
    actual: usize,
    row_len: usize,
    element_bytes: usize,
    scratch_element_bytes: usize,
    field_element_bytes: usize,
    required: usize,
    available: usize,
)
    ensures
        (NttError::InvalidSize { size }).text() == "invalid transform size "@
            + decimal(size as nat) + ": not a power of two"@,
        (NttError::UnsupportedSize { size, field_order }).text() == "transform size "@
            + decimal(size as nat)
            + " is unsupported: it exceeds the table-size cap, or the field of order "@
            + decimal(field_order as nat) + " has no primitive root of unity of that order"@,
        (NttError::GeometryOverflow).text() == "transform geometry overflowed"@,
        (NttError::AllocationFailed).text() == "transform table allocation failed"@,
        (NttError::BufferLength { expected, actual }).text() == "wrong row buffer length: expected "@
            + decimal(expected as nat) + " bytes, got "@ + decimal(actual as nat),
        (NttError::InvalidRowLength { row_len, element_bytes }).text() == "row length "@
            + decimal(row_len as nat) + " is zero or not a whole number of "@
            + decimal(element_bytes as nat) + "-byte elements"@,
        (NttError::ScratchFieldMismatch { scratch_element_bytes, field_element_bytes }).text() == "scratch was built for "@
            + decimal(scratch_element_bytes as nat)
            + "-byte elements, but this plan transforms "@ + decimal(field_element_bytes as nat)
            + "-byte elements"@,
        (NttError::ScratchTooSmall { required, available }).text() == "scratch too small: need "@
            + decimal(required as nat) + " row bytes, have "@ + decimal(available as nat),
        (NttError::ScratchBatchTooSmall { required, available }).text() == "scratch batch too small: need "@
            + decimal(required as nat) + " bytes, have "@ + decimal(available as nat),
        (NttError::ScratchTransposeTooSmall { required, available }).text() == "scratch transpose too small: need "@
            + decimal(required as nat) + " bytes, have "@ + decimal(available as nat),
{
}

} // verus!
