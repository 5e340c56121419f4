//! Allocator logging.
//!
//! Only the level filter lives here: rendering and the actual write to a log
//! sink are I/O and stay outside the verified core.

use vstd::prelude::*;
use crate::config::MIN_LOG_LEVEL;

verus! {

/// Check if this log level is enabled.
pub fn level(lv: u8) -> (r: bool)
    ensures
        r == (lv >= MIN_LOG_LEVEL),
{
    lv >= MIN_LOG_LEVEL
}

} // verus!
