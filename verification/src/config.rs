//! Compile-time limits of the engine.

use vstd::prelude::*;

verus! {

/// The maximum number of LEDs within one LED strip.
pub const WS2812B_LED_MAX: usize = 70;

/// The number of hardware output channels (PIO state machines), one per
/// addressable LED strip.
pub const WS2812B_STATEMACHINES: usize = 4;

/// The capacity of the line buffer: the maximum number of accepted bytes in
/// a single command line, the terminating newline excluded.
pub const TRANSACTION_MAX: usize = 4096;

} // verus!
