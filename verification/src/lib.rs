//! Registries of standard codes and identifiers: character sets, languages,
//! countries, regions, currencies and scripts.
//!
//! Every registry is an immutable table that is built once from a dataset and
//! then answers lookups by one or more key schemes. The registries are under
//! [`codes`]. They rest on the tables of [`store`], on the relation between a
//! table and the index derived from it that [`index`] defines, on the reading
//! of numbers in [`decimal`], and on the JSON decoder that [`json`] declares.

pub mod codes;
pub mod decimal;
pub mod index;
pub mod json;
pub mod store;
