//! Polyphonic key pressure with a 32-bit pressure value.
use crate::bit_ops::lemma_zero_fields;
use crate::error::{Error, InvalidReason};
use crate::helpers::{
    channel_from_packet, clear_buffer, group_from_packet, header_of, note_from_packet, same_tail,
    validate_buffer_size, validate_packet, write_channel_to_packet, write_group_to_packet,
    write_note_to_packet, write_op_code_to_packet, write_type_to_packet, Header,
};
use crate::midi2_channel_voice::TYPE_CODE;
use vstd::prelude::*;

verus! {

pub const OP_CODE: u8 = 0b1010;

#[derive(Debug, PartialEq, Eq)]
pub struct KeyPressureMessage<'a>(&'a [u32]);

impl<'a> View for KeyPressureMessage<'a> {
    type V = Seq<u32>;

    closed spec fn view(&self) -> Seq<u32> {
        self.0@
    }
}

/// The header of a fresh message: type and op-code, every other field zero.
pub open spec fn fresh_header() -> Header {
    Header { message_type: TYPE_CODE, group: 0, op_code: OP_CODE, channel: 0, octet2: 0, octet3: 0 }
}

impl<'a> KeyPressureMessage<'a> {
    pub fn builder(buffer: &'a mut [u32]) -> (r: KeyPressureBuilder<'a>)
        ensures
            r.wf(),
            old(buffer)@.len() < 2 ==> r.state() == Err::<Seq<u32>, Error>(Error::BufferOverflow),
            old(buffer)@.len() >= 2 ==> r.state() is Ok && r.state()->Ok_0.len() == old(buffer)@.len()
                && header_of(r.state()->Ok_0) == fresh_header() && forall|i: int|
                1 <= i < old(buffer)@.len() ==> r.state()->Ok_0[i] == 0,
    {
        KeyPressureBuilder::new(buffer)
    }

    pub fn group(&self) -> (r: u8)
        requires
            self@.len() >= 2,
        ensures
            r == header_of(self@).group,
    {
        group_from_packet(self.0)
    }

    pub fn channel(&self) -> (r: u8)
        requires
            self@.len() >= 2,
        ensures
            r == header_of(self@).channel,
    {
        channel_from_packet(self.0)
    }

    pub fn note(&self) -> (r: u8)
        requires
            self@.len() >= 2,
        ensures
            r == header_of(self@).octet2 % 128,
    {
        note_from_packet(self.0)
    }

    pub fn key_pressure_data(&self) -> (r: u32)
        requires
            self@.len() >= 2,
        ensures
            r == self@[1],
    {
        self.0[1]
    }

    pub fn data(&self) -> (r: &[u32])
        ensures
            r@ == self@,
    {
        self.0
    }

    /// A view of `data` where it starts with a key pressure message of two
    /// words.
    pub fn from_data(data: &'a [u32]) -> (r: Result<Self, Error>)
        ensures
            r is Ok <==> (data@.len() >= 2 && header_of(data@).message_type == TYPE_CODE
                && header_of(data@).op_code == OP_CODE),
            r is Ok ==> r->Ok_0@ == data@,
            !(data@.len() >= 1 && header_of(data@).message_type == TYPE_CODE
                && header_of(data@).op_code == OP_CODE) ==> r == Err::<Self, Error>(
                Error::InvalidData(InvalidReason::IncorrectStatus),
            ),
            (data@.len() == 1 && header_of(data@).message_type == TYPE_CODE
                && header_of(data@).op_code == OP_CODE) ==> r == Err::<Self, Error>(
                Error::BufferOverflow,
            ),
    {
        match validate_packet(data, TYPE_CODE, OP_CODE) {
            Ok(()) => {},
            Err(e) => {
                return Err(e);
            },
        }
        match validate_buffer_size(data, 2) {
            Ok(()) => Ok(KeyPressureMessage(data)),
            Err(e) => Err(e),
        }
    }
}

/// Writes a key pressure message into a caller's buffer field by field; the
/// first error stays and makes later calls do nothing.
pub struct KeyPressureBuilder<'a>(Result<&'a mut [u32], Error>);

impl<'a> KeyPressureBuilder<'a> {
    /// The words written so far, or the error met.
    pub closed spec fn state(&self) -> Result<Seq<u32>, Error> {
        match self.0 {
            Ok(b) => Ok(b@),
            Err(e) => Err(e),
        }
    }

    /// A buffer still being written has room for the message.
    pub open spec fn wf(&self) -> bool {
        self.state() is Ok ==> self.state()->Ok_0.len() >= 2
    }

    fn new(buffer: &'a mut [u32]) -> (r: Self)
        ensures
            r.wf(),
            old(buffer)@.len() < 2 ==> r.state() == Err::<Seq<u32>, Error>(Error::BufferOverflow),
            old(buffer)@.len() >= 2 ==> r.state() is Ok && r.state()->Ok_0.len() == old(buffer)@.len()
                && header_of(r.state()->Ok_0) == fresh_header() && forall|i: int|
                1 <= i < old(buffer)@.len() ==> r.state()->Ok_0[i] == 0,
    {
        if buffer.len() < 2 {
            return KeyPressureBuilder(Err(Error::BufferOverflow));
        }
        clear_buffer(buffer);
        proof {
            lemma_zero_fields();
        }
        write_type_to_packet(TYPE_CODE, buffer);
        write_op_code_to_packet(OP_CODE, buffer);
        KeyPressureBuilder(Ok(buffer))
    }

    pub fn group(self, v: u8) -> (r: Self)
        requires
            self.wf(),
            v < 16,
        ensures
            r.wf(),
            self.state() is Err ==> r.state() == self.state(),
            self.state() is Ok ==> r.state() is Ok && same_tail(self.state()->Ok_0, r.state()->Ok_0)
                && header_of(r.state()->Ok_0) == (Header { group: v, ..header_of(self.state()->Ok_0) }),
    {
        match self.0 {
            Ok(buffer) => {
                write_group_to_packet(v, buffer);
                KeyPressureBuilder(Ok(buffer))
            },
            Err(e) => KeyPressureBuilder(Err(e)),
        }
    }

    pub fn channel(self, v: u8) -> (r: Self)
        requires
            self.wf(),
            v < 16,
        ensures
            r.wf(),
            self.state() is Err ==> r.state() == self.state(),
            self.state() is Ok ==> r.state() is Ok && same_tail(self.state()->Ok_0, r.state()->Ok_0)
                && header_of(r.state()->Ok_0) == (Header {
                channel: v,
                ..header_of(self.state()->Ok_0)
            }),
    {
        match self.0 {
            Ok(buffer) => {
                write_channel_to_packet(v, buffer);
                KeyPressureBuilder(Ok(buffer))
            },
            Err(e) => KeyPressureBuilder(Err(e)),
        }
    }

    pub fn note(self, v: u8) -> (r: Self)
        requires
            self.wf(),
            v < 128,
        ensures
            r.wf(),
            self.state() is Err ==> r.state() == self.state(),
            self.state() is Ok ==> r.state() is Ok && same_tail(self.state()->Ok_0, r.state()->Ok_0)
                && header_of(r.state()->Ok_0) == (Header {
                octet2: v,
                ..header_of(self.state()->Ok_0)
            }),
    {
        match self.0 {
            Ok(buffer) => {
                write_note_to_packet(v, buffer);
                KeyPressureBuilder(Ok(buffer))
            },
            Err(e) => KeyPressureBuilder(Err(e)),
        }
    }

    pub fn key_pressure_data(self, data: u32) -> (r: Self)
        requires
            self.wf(),
        ensures
            r.wf(),
            self.state() is Err ==> r.state() == self.state(),
            self.state() is Ok ==> r.state() is Ok && r.state()->Ok_0 == self.state()->Ok_0.update(
                1,
                data,
            ),
    {
        match self.0 {
            Ok(buffer) => {
                buffer[1] = data;
                KeyPressureBuilder(Ok(buffer))
            },
            Err(e) => KeyPressureBuilder(Err(e)),
        }
    }

    /// The message written, or the first error.
    pub fn build(self) -> (r: Result<KeyPressureMessage<'a>, Error>)
        ensures
            self.state() is Ok ==> r is Ok && r->Ok_0@ == self.state()->Ok_0,
            self.state() is Err ==> r == Err::<KeyPressureMessage<'a>, Error>(self.state()->Err_0),
    {
        match self.0 {
            Ok(buffer) => Ok(KeyPressureMessage(buffer)),
            Err(e) => Err(e),
        }
    }
}

} // verus!
