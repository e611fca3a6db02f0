//! Star ratings in exact fixed-point arithmetic.
//!
//! A list of scores is read from text, each score is checked against the
//! rating scale, the accepted scores are averaged, and the average is shown as
//! a row of stars. Every number is held as a whole count of billionths of a
//! point, so each step is exact and each function states precisely what it
//! returns.

pub mod average;
pub mod input;
pub mod number;
pub mod rating;
pub mod report;
pub mod stars;
pub mod text;
