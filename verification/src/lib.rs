//! Daily equity price records.
//!
//! * [`calendar`]: dates of the proleptic Gregorian calendar, their order,
//!   their steps and their text.
//! * [`series`]: price bars in hundredths, and the series that files one bar
//!   under each date and aggregates ranges of dates.
//! * [`record`]: the text format of price files, one record per line.
//! * [`document`]: the entries of the document that a series is kept in.
//! * [`pipeline`]: what the migration of a directory of price files decides;
//!   the reading and writing of files is the caller's.
//! * [`text`]: the characters, fields and decimal numbers that the formats
//!   are made of.
//! * [`error`]: what is reported when something is refused.
//!
//! Every function is verified against its contract. Prices enter as
//! integers: turning decimal text into hundredths takes floating point,
//! which is the caller's.

pub mod calendar;
pub mod document;
pub mod error;
pub mod pipeline;
pub mod record;
pub mod series;
pub mod text;
