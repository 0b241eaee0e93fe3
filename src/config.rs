//! Checks on the numeric settings of the codec, as given on a command line.

use vstd::prelude::*;

use crate::icgr::MAX_BLOCK_WIDTH;
use crate::text::{chars_of, parse_unsigned_at_most, unsigned_at_most};

verus! {

/// The largest overlap accepted between adjacent blocks.
pub const MAX_OVERLAP: u8 = 20;

/// The smallest block width: a block must hold its overlap and one more symbol.
pub const MIN_BLOCK_WIDTH: usize = 2;

/// Reads a block width: a number from `MIN_BLOCK_WIDTH` to `MAX_BLOCK_WIDTH`.
pub fn validate_block_width(val: &str) -> (r: Result<usize, String>)
    ensures
        match unsigned_at_most(val@, usize::MAX as nat) {
            Some(v) => if v < MIN_BLOCK_WIDTH {
                r matches Err(e) && e@ == "block_width must be at least 2"@
            } else if v <= MAX_BLOCK_WIDTH {
                r == Ok::<usize, String>(v as usize)
            } else {
                r matches Err(e) && e@ == "block_widht must be less or equal to 100"@
            },
            None => r matches Err(e) && e@ == "block_width must be a number"@,
        },
{
    let cs = chars_of(val);
    match parse_unsigned_at_most(cs.as_slice(), usize::MAX as u128) {
        Some(v) => {
            if v < MIN_BLOCK_WIDTH as u128 {
                Err(String::from_str("block_width must be at least 2"))
            } else if v <= MAX_BLOCK_WIDTH as u128 {
                Ok(v as usize)
            } else {
                Err(String::from_str("block_widht must be less or equal to 100"))
            }
        },
        None => Err(String::from_str("block_width must be a number")),
    }
}

/// Reads an overlap: a number from 1 to `MAX_OVERLAP`.
pub fn validate_overlap(val: &str) -> (r: Result<u8, String>)
    ensures
        match unsigned_at_most(val@, 255) {
            Some(v) => if 1 <= v <= MAX_OVERLAP {
                r == Ok::<u8, String>(v as u8)
            } else {
                r matches Err(e) && e@ == "overlap must be between 1 and 20"@
            },
            None => r matches Err(e) && e@ == "overlap must be a number"@,
        },
{
    let cs = chars_of(val);
    match parse_unsigned_at_most(cs.as_slice(), 255) {
        Some(v) => {
            if 1 <= v && v <= MAX_OVERLAP as u128 {
                Ok(v as u8)
            } else {
                Err(String::from_str("overlap must be between 1 and 20"))
            }
        },
        None => Err(String::from_str("overlap must be a number")),
    }
}

} // verus!
