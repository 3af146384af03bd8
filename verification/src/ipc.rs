//! Messages between the two cores.
//!
//! core0 owns the radio and the network stack; core1 computes the blink patterns
//! of the LED. They exchange nothing but these values.

use vstd::prelude::*;

use crate::shared::Status;

verus! {

/// Commands from core1 to core0.
#[derive(Clone, Copy, Debug, PartialEq, Eq, Structural)]
pub enum Cmd {
    /// Drive the onboard LED on or off.
    SetLed(bool),
}

/// Events from core0 to core1.
#[derive(Clone, Copy, Debug, PartialEq, Eq, Structural)]
pub enum Evt {
    /// The network status changed.
    Status(Status),
}

/// Maximum length of a message to blink in Morse, in bytes.
pub const MSG_MAX: usize = 64;

} // verus!
