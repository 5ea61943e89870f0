//! Turns timestamped position records into a single-track KML document.
//!
//! The work goes in three steps, one module each:
//!
//! - [`timestamp`] normalises the text of a timestamp to whole epoch seconds,
//!   trying an integer, a floating-point number, an RFC 3339 date and time
//!   and a date and time without offset, in that order;
//! - [`aggregate`] keeps one observation per second, the one closest to the
//!   second and among equally close ones the first, and reads the kept
//!   coordinates off in ascending order of their seconds;
//! - [`document`] writes that track as one styled path between the
//!   document's containers.
//!
//! [`record`] holds the rows that go in and the coordinates made of them.
//! Reading the rows from a file and writing the document to one is left to
//! the caller, and so is floating-point parsing: the reading of a timestamp
//! as a floating-point number is handed in beside its text.

pub mod aggregate;
pub mod document;
pub mod record;
pub mod timestamp;
