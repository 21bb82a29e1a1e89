//! Conversion between human-readable durations and milliseconds.
//!
//! `ms` reads a duration such as `1d`, `2.5 hrs` or `-100` and gives the
//! milliseconds it stands for; `ms_into_time` gives them as a `Duration`.
//! `get_duration_by_postfix` writes milliseconds as a count of a chosen unit,
//! `get_max_possible_duration` and `get_max_possible_duration_long` choose the
//! unit themselves.
//!
//! All arithmetic is done on integers and is exact: a number is multiplied by
//! its unit first and rounded once, to the nearest whole, a half away from
//! zero. What each function returns is stated in its contract and proved.

pub mod bytes;
pub mod duration;
pub mod error;
pub mod format;
pub mod number;
pub mod postfix;
pub mod round_trip;
pub mod unit;

pub use duration::{ms, ms_into_time};
pub use error::Error;
pub use format::{
    get_duration_by_postfix, get_max_possible_duration, get_max_possible_duration_long,
};
pub use number::{parse, Number};
pub use postfix::{get_byte_postfix, get_modification};
pub use unit::{Unit, DAY, HOUR, MINUTE, SECOND, WEEK, YEAR};
