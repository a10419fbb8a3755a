//! Limits and defaults of the interactive front end.

use vstd::prelude::*;

verus! {

/// How long the front end waits for more input before it recalculates, in
/// milliseconds.
pub const DEBOUNCE_MS: u32 = 300;

/// The lap count that the front end starts with.
pub const DEFAULT_LAP_COUNT: usize = 25;

/// The player count that the front end starts with.
pub const DEFAULT_PLAYER_COUNT: usize = 32;

/// The target that the front end starts with, in milliseconds.
pub const DEFAULT_TARGET_MS: u32 = 2_800_000;

/// The time budget by default, in milliseconds.
pub const DEFAULT_TIMEOUT_MS: u64 = 5_000;

/// The tolerance by default, in thousandths of a percent.
pub const DEFAULT_TOLERANCE_MILLIPERCENT: u32 = 500;

/// The most players that the front end takes.
pub const MAX_PLAYER_COUNT: usize = 250;

/// The highest position of the target slider; its positions are `0` to this.
pub const SLIDER_MAX_INDEX: usize = 99;

} // verus!
