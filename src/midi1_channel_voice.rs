//! Channel voice messages of the first protocol version, in one word.
pub mod control_change;
pub mod key_pressure;

use vstd::prelude::*;

verus! {

/// The message type of these messages in word storage.
pub const TYPE_CODE: u8 = 0x2;

} // verus!
