//! Configuration values and the rule by which an override replaces one.

use crate::numbers::{parse_usize, parsed_usize};
use vstd::prelude::*;

verus! {

/// Storage settings.
#[derive(Clone, Copy, Debug, PartialEq, Eq)]
pub struct StorageConfig {
    /// Whether the graph file is compressed when it is written.
    pub compress: bool,
}

/// Navigation and search settings.
#[derive(Clone, Copy, Debug, PartialEq, Eq)]
pub struct NavigationConfig {
    /// The largest number of search results returned.
    pub search_result_limit: usize,
}

/// The default number of entities per batch.
pub const DEFAULT_BATCH_SIZE: usize = 50;

/// The default token budget per batch.
pub const DEFAULT_MAX_BATCH_TOKENS: usize = 8000;

/// The default number of entities per hierarchy chunk.
pub const DEFAULT_HIERARCHY_CHUNK_SIZE: usize = 50;

/// The default depth of the file-path hierarchy.
pub const DEFAULT_MAX_HIERARCHY_DEPTH: usize = 3;

/// The default limit on search results.
pub const DEFAULT_SEARCH_RESULT_LIMIT: usize = 10;

impl Default for StorageConfig {
    fn default() -> (c: Self)
        ensures
            !c.compress,
    {
        StorageConfig { compress: false }
    }
}

impl Default for NavigationConfig {
    fn default() -> (c: Self)
        ensures
            c.search_result_limit == DEFAULT_SEARCH_RESULT_LIMIT,
    {
        NavigationConfig { search_result_limit: DEFAULT_SEARCH_RESULT_LIMIT }
    }
}

/// The value of a setting after an override: the number that the override
/// reads as, if there is an override and it reads as one; the value as it was
/// otherwise.
pub open spec fn overridden(current: usize, value: Option<Seq<char>>) -> usize {
    match value {
        Some(text) => match parsed_usize(text) {
            Some(n) => n,
            None => current,
        },
        None => current,
    }
}

/// Replaces `target` by the number that `value` holds. A missing value, or
/// one that is not a number, changes nothing.
pub fn env_override(target: &mut usize, value: Option<&str>)
    ensures
        *final(target) == overridden(
            *old(target),
            match value {
                Some(s) => Some(s@),
                None => None,
            },
        ),
{
    match value {
        Some(text) => match parse_usize(text) {
            Some(n) => {
                *target = n;
            },
            None => {},
        },
        None => {},
    }
}

} // verus!
