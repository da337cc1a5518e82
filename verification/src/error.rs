//! The errors that the library reports.

use vstd::prelude::*;

verus! {

/// What a field of a record was expected to hold.
#[derive(Clone, Copy, Debug, PartialEq, Eq, Structural)]
pub enum FieldKind {
    /// A calendar date, `YYYY-MM-DD`.
    Date,
    /// A decimal number (a price).
    Decimal,
    /// A non-negative integer (a volume).
    Integer,
}

/// A month number outside 1 to 12.
#[derive(Clone, Copy, Debug, PartialEq, Eq, Structural)]
pub struct MonthOutOfRange {
    /// The number that was given for the month.
    pub month: u32,
}

/// A piece of text that does not read as the kind of value expected of it.
#[derive(Clone, Debug, PartialEq, Eq)]
pub struct ParseError {
    /// The offending text.
    pub field: String,
    /// What the text should have been.
    pub kind: FieldKind,
}

/// Why a line of a price file was rejected.
#[derive(Clone, Debug, PartialEq, Eq)]
pub enum RecordError {
    /// The line does not have exactly seven fields; carries the line.
    MalformedLine(String),
    /// A field of the line does not read as its kind.
    ParseError(ParseError),
}

/// What a `RecordError` says, with texts as sequences of characters.
pub enum Rejection {
    /// The line, which does not have exactly seven fields.
    MalformedLine(Seq<char>),
    /// The field that does not read as its kind, and the kind.
    ParseError(Seq<char>, FieldKind),
}

impl View for ParseError {
    type V = (Seq<char>, FieldKind);

    open spec fn view(&self) -> (Seq<char>, FieldKind) {
        (self.field@, self.kind)
    }
}

impl View for RecordError {
    type V = Rejection;

    open spec fn view(&self) -> Rejection {
        match self {
            RecordError::MalformedLine(line) => Rejection::MalformedLine(line@),
            RecordError::ParseError(e) => Rejection::ParseError(e.field@, e.kind),
        }
    }
}

/// Why a range query gave no aggregate.
#[derive(Clone, Copy, Debug, PartialEq, Eq, Structural)]
pub enum QueryError {
    /// The start of the range is not before its end.
    InvalidRange,
    /// No stored date lies within the range.
    EmptyRangeResult,
    /// The volumes within the range add up to more than 64 bits hold.
    VolumeOverflow,
}

} // verus!
