//! Select parts of text lines by ranges of bytes, characters, or
//! delimiter-separated fields, in the manner of the classic `cut` tool.
//!
//! A range expression such as `"3-7,9,12-"` is parsed into inclusive
//! 1-based `(start, end)` pairs, optionally sorted and coalesced, and then
//! applied to each line under one of three addressing schemes.

pub mod config;
pub mod context;
pub mod encode;
pub mod extract;
pub mod merge;
pub mod ranges;
pub mod split;

use vstd::prelude::*;

verus! {

/// Version of the range-cutting library.
pub fn version() -> (r: &'static str)
    ensures
        r@ == "0.1.0"@,
{
    "0.1.0"
}

/// Parse a range expression and, unless `no_merge` is set, sort and
/// coalesce the resulting pairs.
pub fn prepare_ranged_pairs(no_merge: bool, ranged_pairs_str: &str) -> (r: Result<
    Vec<(usize, usize)>,
    crate::ranges::RangeError,
>)
    ensures
        match r {
            Ok(v) => crate::ranges::parse_ranges(ranged_pairs_str@) matches Some(parsed) && v@
                == if no_merge {
                parsed
            } else {
                crate::merge::merged_ranges(parsed)
            },
            Err(e) => crate::ranges::parse_ranges(ranged_pairs_str@) is None && e
                == crate::ranges::RangeError::InvalidRangeToken,
        },
{
    let unsorted_ranged_pairs = match crate::ranges::extract_ranged_pairs(ranged_pairs_str) {
        Ok(v) => v,
        Err(e) => {
            return Err(e);
        },
    };
    if no_merge {
        Ok(unsorted_ranged_pairs)
    } else {
        Ok(crate::merge::merge_ranged_pairs(unsorted_ranged_pairs))
    }
}

} // verus!
