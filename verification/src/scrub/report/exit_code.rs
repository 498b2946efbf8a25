//! Exit codes of a run, as the shell sees them.

use vstd::prelude::*;

verus! {

/// Nothing found, or nothing above INFO.
pub const CLEAN: u8 = 0;

/// At least one WARN, no CRITICAL.
pub const WARN: u8 = 1;

/// At least one CRITICAL.
pub const CRITICAL: u8 = 2;

/// The scrub could not run at all. Never appears inside a report.
pub const COULD_NOT_RUN: u8 = 3;

} // verus!
