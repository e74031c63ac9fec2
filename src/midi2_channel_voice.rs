//! Channel voice messages of the second protocol version, in two words.
pub mod key_pressure;
pub mod per_note_pitch_bend;

use vstd::prelude::*;

verus! {

/// The message type of these messages in word storage.
pub const TYPE_CODE: u8 = 0x4;

} // verus!
