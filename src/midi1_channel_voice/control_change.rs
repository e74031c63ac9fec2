//! Control change: a controller number and its 7-bit value.
use crate::error::{Error, InvalidReason};
use crate::helpers::{
    channel_from_packet, group_from_packet, header_of, note_from_packet, same_tail,
    validate_buffer_size, validate_packet, velocity_from_packet, write_channel_to_packet,
    write_group_to_packet, write_note_to_packet, write_op_code_to_packet, write_type_to_packet,
    write_velocity_to_packet, Header,
};
use crate::midi1_channel_voice::TYPE_CODE;
use vstd::prelude::*;

verus! {

pub const OP_CODE: u8 = 0b1011;

#[derive(Debug, PartialEq, Eq)]
pub struct ControlChangeMessage<'a>(&'a [u32]);

impl<'a> View for ControlChangeMessage<'a> {
    type V = Seq<u32>;

    closed spec fn view(&self) -> Seq<u32> {
        self.0@
    }
}

impl<'a> ControlChangeMessage<'a> {
    pub fn builder(buffer: &'a mut [u32]) -> (r: ControlChangeBuilder<'a>)
        ensures
            r.wf(),
            old(buffer)@.len() == 0 ==> r.state() == Err::<Seq<u32>, Error>(Error::BufferOverflow),
            old(buffer)@.len() >= 1 ==> r.state() is Ok && same_tail(old(buffer)@, r.state()->Ok_0)
                && header_of(r.state()->Ok_0) == (Header {
                message_type: TYPE_CODE,
                op_code: OP_CODE,
                ..header_of(old(buffer)@)
            }),
    {
        ControlChangeBuilder::new(buffer)
    }

    pub fn group(&self) -> (r: u8)
        requires
            self@.len() >= 1,
        ensures
            r == header_of(self@).group,
    {
        group_from_packet(self.0)
    }

    pub fn channel(&self) -> (r: u8)
        requires
            self@.len() >= 1,
        ensures
            r == header_of(self@).channel,
    {
        channel_from_packet(self.0)
    }

    pub fn control(&self) -> (r: u8)
        requires
            self@.len() >= 1,
        ensures
            r == header_of(self@).octet2 % 128,
    {
        note_from_packet(self.0)
    }

    pub fn control_data(&self) -> (r: u8)
        requires
            self@.len() >= 1,
        ensures
            r == header_of(self@).octet3 % 128,
    {
        velocity_from_packet(self.0)
    }

    pub fn data(&self) -> (r: &[u32])
        ensures
            r@ == self@,
    {
        self.0
    }

    /// A view of `data` where its first word is a control change.
    pub fn from_data(data: &'a [u32]) -> (r: Result<Self, Error>)
        ensures
            r is Ok <==> (data@.len() >= 1 && header_of(data@).message_type == TYPE_CODE
                && header_of(data@).op_code == OP_CODE),
            r is Ok ==> r->Ok_0@ == data@,
            r is Err ==> r == Err::<Self, Error>(Error::InvalidData(InvalidReason::IncorrectStatus)),
    {
        match validate_packet(data, TYPE_CODE, OP_CODE) {
            Ok(()) => Ok(ControlChangeMessage(data)),
            Err(e) => Err(e),
        }
    }
}

/// Writes a control change into a caller's buffer field by field; the first
/// error stays and makes later calls do nothing.
pub struct ControlChangeBuilder<'a>(Result<&'a mut [u32], Error>);

impl<'a> ControlChangeBuilder<'a> {
    /// The words written so far, or the error met.
    pub closed spec fn state(&self) -> Result<Seq<u32>, Error> {
        match self.0 {
            Ok(b) => Ok(b@),
            Err(e) => Err(e),
        }
    }

    /// A buffer still being written has room for the message.
    pub open spec fn wf(&self) -> bool {
        self.state() is Ok ==> self.state()->Ok_0.len() >= 1
    }

    pub fn new(buffer: &'a mut [u32]) -> (r: Self)
        ensures
            r.wf(),
            old(buffer)@.len() == 0 ==> r.state() == Err::<Seq<u32>, Error>(Error::BufferOverflow),
            old(buffer)@.len() >= 1 ==> r.state() is Ok && same_tail(old(buffer)@, r.state()->Ok_0)
                && header_of(r.state()->Ok_0) == (Header {
                message_type: TYPE_CODE,
                op_code: OP_CODE,
                ..header_of(old(buffer)@)
            }),
    {
        match validate_buffer_size(buffer, 1) {
            Ok(()) => {
                write_op_code_to_packet(OP_CODE, buffer);
                write_type_to_packet(TYPE_CODE, buffer);
                ControlChangeBuilder(Ok(buffer))
            },
            Err(e) => ControlChangeBuilder(Err(e)),
        }
    }

    pub fn group(self, v: u8) -> (r: Self)
        requires
            self.wf(),
            v < 16,
        ensures
            r.wf(),
            self.state() is Err ==> r.state() == self.state(),
            self.state() is Ok ==> r.state() is Ok && same_tail(self.state()->Ok_0, r.state()->Ok_0)
                && header_of(r.state()->Ok_0) == (Header { group: v, ..header_of(self.state()->Ok_0) }),
    {
        match self.0 {
            Ok(buffer) => {
                write_group_to_packet(v, buffer);
                ControlChangeBuilder(Ok(buffer))
            },
            Err(e) => ControlChangeBuilder(Err(e)),
        }
    }

    pub fn channel(self, v: u8) -> (r: Self)
        requires
            self.wf(),
            v < 16,
        ensures
            r.wf(),
            self.state() is Err ==> r.state() == self.state(),
            self.state() is Ok ==> r.state() is Ok && same_tail(self.state()->Ok_0, r.state()->Ok_0)
                && header_of(r.state()->Ok_0) == (Header {
                channel: v,
                ..header_of(self.state()->Ok_0)
            }),
    {
        match self.0 {
            Ok(buffer) => {
                write_channel_to_packet(v, buffer);
                ControlChangeBuilder(Ok(buffer))
            },
            Err(e) => ControlChangeBuilder(Err(e)),
        }
    }

    pub fn control(self, v: u8) -> (r: Self)
        requires
            self.wf(),
            v < 128,
        ensures
            r.wf(),
            self.state() is Err ==> r.state() == self.state(),
            self.state() is Ok ==> r.state() is Ok && same_tail(self.state()->Ok_0, r.state()->Ok_0)
                && header_of(r.state()->Ok_0) == (Header {
                octet2: v,
                ..header_of(self.state()->Ok_0)
            }),
    {
        match self.0 {
            Ok(buffer) => {
                write_note_to_packet(v, buffer);
                ControlChangeBuilder(Ok(buffer))
            },
            Err(e) => ControlChangeBuilder(Err(e)),
        }
    }

    pub fn control_data(self, v: u8) -> (r: Self)
        requires
            self.wf(),
            v < 128,
        ensures
            r.wf(),
            self.state() is Err ==> r.state() == self.state(),
            self.state() is Ok ==> r.state() is Ok && same_tail(self.state()->Ok_0, r.state()->Ok_0)
                && header_of(r.state()->Ok_0) == (Header {
                octet3: v,
                ..header_of(self.state()->Ok_0)
            }),
    {
        match self.0 {
            Ok(buffer) => {
                write_velocity_to_packet(v, buffer);
                ControlChangeBuilder(Ok(buffer))
            },
            Err(e) => ControlChangeBuilder(Err(e)),
        }
    }

    /// The message written, or the first error.
    pub fn build(self) -> (r: Result<ControlChangeMessage<'a>, Error>)
        ensures
            self.state() is Ok ==> r is Ok && r->Ok_0@ == self.state()->Ok_0,
            self.state() is Err ==> r == Err::<ControlChangeMessage<'a>, Error>(self.state()->Err_0),
    {
        match self.0 {
            Ok(buffer) => Ok(ControlChangeMessage(buffer)),
            Err(e) => Err(e),
        }
    }
}

} // verus!
