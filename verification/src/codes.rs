//! Registries of standard codes, one module for each standard.
//!
//! The modules share one shape. A registry is built once from a table of
//! records and is immutable afterwards. `lookup` finds a record by its code,
//! or `lookup_by_alpha` and `lookup_by_numeric` where a standard has both an
//! alphabetic and a numeric identifier; `all_codes`, or `all_alpha_codes` and
//! `all_numeric_codes`, list the codes that are known.

pub mod codeset;
pub mod country;
pub mod currency;
pub mod language;
pub mod region;
pub mod script;
