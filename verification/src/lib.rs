//! Summary statistics of tracked-organism recordings.
//!
//! A recording is a sequence of six-channel measurement records. Every
//! channel value is an IEEE-754 binary64 number, held throughout this crate
//! as its 64-bit pattern (see [`bits`]): ordering, finiteness, windowing,
//! median filtering and extrema are decided on the patterns, while the
//! arithmetic of means and standard errors is left to the caller, who is told
//! exactly which samples to reduce and hands the outcome back.

pub mod bits;
pub mod coord;
pub mod parsing;
pub mod scores;
pub mod speed;
pub mod stats;
pub mod titles;

pub use crate::coord::{the_coord, the_x, the_y, track, Coord, Extent};
pub use crate::parsing::{
    get_data_lines, get_raw_lines, numeral, record, token_end, DataLine, Literal, ParseError,
    RawLine, Token,
};
pub use crate::scores::{the_everything, Estimates, Scores, COLUMNS};
pub use crate::speed::{median5, the_speed_in, Speed, Window};
pub use crate::stats::{r6, r6_moments, r6_scale, the_area, the_midline, Moments, Sampled};
pub use crate::titles::{plain, Cell, Entitled};
