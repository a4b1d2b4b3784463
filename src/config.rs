//! Settings of the store derived from the machine: compaction threads and
//! the open-files limit.

use vstd::prelude::*;

verus! {

/// The open-files limit that the store aims for.
pub const DEFAULT_NOFILE_LIMIT: u64 = 16384;

/// The number of background compaction threads: the configured number, or a
/// quarter of the logical CPUs.
pub fn compaction_threads(configured: Option<usize>, logical_cores: usize) -> (r: usize)
    ensures
        r == match configured {
            Some(n) => n,
            None => logical_cores / 4,
        },
{
    match configured {
        Some(n) => n,
        None => logical_cores / 4,
    }
}

/// The open-files limit to set, given the current soft and hard limits:
/// the target (the default, but no more than the hard limit) when the soft
/// limit is below it, else none.
pub fn nofile_limit_to_set(soft: u64, hard: u64) -> (r: Option<u64>)
    ensures
        r == if soft < (if hard < DEFAULT_NOFILE_LIMIT { hard } else { DEFAULT_NOFILE_LIMIT }) {
            Some(if hard < DEFAULT_NOFILE_LIMIT { hard } else { DEFAULT_NOFILE_LIMIT })
        } else {
            None::<u64>
        },
{
    let target = if hard < DEFAULT_NOFILE_LIMIT { hard } else { DEFAULT_NOFILE_LIMIT };
    if soft >= target {
        None
    } else {
        Some(target)
    }
}

/// The limit of open files for the store, when it fits an `i32`.
pub fn max_open_files(limit: u64) -> (r: Option<i32>)
    ensures
        r == if limit <= i32::MAX as u64 { Some(limit as i32) } else { None::<i32> },
{
    if limit <= 0x7fff_ffff {
        Some(limit as i32)
    } else {
        None
    }
}

} // verus!
