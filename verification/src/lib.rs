//! Statistics over a fixed-schema table of numeric records.
//!
//! Values are exact decimals held in fixed point (millionths), so that
//! ordering, medians and median-split labels can be stated and proved
//! precisely. Modules: `value` for the scalar type and its text parser,
//! `record` for the schema and field access, `stats` for median and
//! dichotomization.

pub mod errors;
pub mod parse;
pub mod record;
pub mod stats;
pub mod value;
