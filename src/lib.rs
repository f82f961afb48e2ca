//! Exact time arithmetic behind the solar-position pipeline: a millisecond
//! Unix timestamp is decoded into a proleptic-Gregorian civil date and turned
//! into a Julian Day held as a whole day number and nanoseconds of the day.
pub mod civil;
pub mod julian;
