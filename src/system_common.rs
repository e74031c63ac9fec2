//! System common messages: one word, a status byte in octet 1.
pub mod song_position_pointer;

use crate::bit_ops::{octet32, BitOps};
use crate::error::{Error, InvalidReason};
use crate::helpers::header_of;
use vstd::prelude::*;

verus! {

/// The message type of these messages in word storage.
pub const TYPE_CODE: u8 = 0x1;

/// `Ok` when the first word carries the system common type and `status`.
pub fn validate_packet(p: &[u32], status: u8) -> (r: Result<(), Error>)
    ensures
        p@.len() == 0 ==> r == Err::<(), Error>(Error::BufferOverflow),
        p@.len() >= 1 ==> (r is Ok <==> (header_of(p@).message_type == TYPE_CODE && octet32(
            p@[0],
            1,
        ) == status)),
        p@.len() >= 1 && r is Err ==> r == Err::<(), Error>(
            Error::InvalidData(InvalidReason::IncorrectStatus),
        ),
{
    if p.len() == 0 {
        Err(Error::BufferOverflow)
    } else if p[0].nibble(0) != TYPE_CODE || p[0].octet(1) != status {
        Err(Error::InvalidData(InvalidReason::IncorrectStatus))
    } else {
        Ok(())
    }
}

/// `Ok` when the buffer holds a word.
pub fn validate_buffer_size(buffer: &[u32]) -> (r: Result<(), Error>)
    ensures
        r is Ok <==> buffer@.len() >= 1,
        r is Err ==> r == Err::<(), Error>(Error::BufferOverflow),
{
    if buffer.len() == 0 {
        Err(Error::BufferOverflow)
    } else {
        Ok(())
    }
}

/// Sets the status byte (octet 1 of the first word).
pub fn write_op_code_to_packet(buffer: &mut [u32], op_code: u8)
    requires
        old(buffer)@.len() >= 1,
    ensures
        final(buffer)@.len() == old(buffer)@.len(),
        forall|i: int| 1 <= i < old(buffer)@.len() ==> final(buffer)@[i] == old(buffer)@[i],
        octet32(final(buffer)@[0], 1) == op_code,
        forall|j: int|
            0 <= j < 4 && j != 1 ==> #[trigger] octet32(final(buffer)@[0], j) == octet32(
                old(buffer)@[0],
                j,
            ),
{
    let mut w = buffer[0];
    let ghost w0 = w;
    w.set_octet(1, op_code);
    buffer[0] = w;
    assert forall|j: int| 0 <= j < 4 && j != 1 implies #[trigger] octet32(w, j) == octet32(w0, j) by {
        assert(w.spec_octet(j) == w0.spec_octet(j));
    }
}

} // verus!
