//! # BenfordLens — Benford's Law analysis toolkit
//!
//! The verified core of a Benford's Law analyser: digit positions and their
//! categories, the counting of observed digits, the validation shared by the
//! goodness-of-fit tests, the text handling of the data loaders, the report
//! headers, the chart bars and the command dispatch.

pub mod analysis;
pub mod cli;
pub mod data;
pub mod digit;
pub mod distribution;
pub mod report;
pub mod statistics;
pub mod text;
pub mod visualize;
