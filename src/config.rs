//! The settings of a generation run.
use vstd::prelude::*;

verus! {

/// The settings of a generation run.
pub struct Config {
    pub min_password_length: usize,
    pub max_password_size: usize,
    pub max_file_size: usize,
    pub hash_count_per_buffer: usize,
    pub thread_count: usize,
}

} // verus!
