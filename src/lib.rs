//! Rainbow-table precomputation: a dense numbering of every password over an
//! alphabet and a length range, digest/reduction chains built from it, a
//! size-bounded table of chains, and the search that inverts a digest.

pub mod radix;
pub mod keyspace;
mod text;
pub mod digest;
pub mod reduce;
pub mod chain;
pub mod table;
pub mod crack;
pub mod parameter;
pub mod generate;
pub mod config;
