//! Song position pointer: a 14-bit position, in two septets, least
//! significant first.
use crate::bit_ops::{
    get_field32, lemma_field32, lemma_masks, lemma_octet_nibbles, lemma_zero_fields, nibble32, octet32,
};
use crate::encode_7bit::{from_u7s, pack, to_u7s, unpack};
use crate::error::{Error, InvalidReason};
use crate::helpers::{
    clear_buffer, group_from_packet, header_of, same_tail, write_group_to_packet,
    write_note_to_packet, write_type_to_packet, write_velocity_to_packet, Header,
};
use crate::system_common::{validate_buffer_size, validate_packet, write_op_code_to_packet, TYPE_CODE};
use vstd::prelude::*;

verus! {

pub const OP_CODE: u8 = 0xF2;

/// The position that the two septets of the first word hold.
pub open spec fn position_of(s: Seq<u32>) -> nat {
    pack(seq![octet32(s[0], 2), octet32(s[0], 3)])
}

#[derive(Debug, PartialEq, Eq)]
pub struct SongPositionPointerMessage<'a>(&'a [u32]);

impl<'a> View for SongPositionPointerMessage<'a> {
    type V = Seq<u32>;

    closed spec fn view(&self) -> Seq<u32> {
        self.0@
    }
}

impl<'a> SongPositionPointerMessage<'a> {
    pub fn builder(buffer: &'a mut [u32]) -> (r: SongPositionPointerBuilder<'a>)
        ensures
            r.wf(),
            old(buffer)@.len() == 0 ==> r.state() == Err::<Seq<u32>, Error>(Error::BufferOverflow),
            old(buffer)@.len() >= 1 ==> r.state() is Ok && SongPositionPointerBuilder::fresh(
                old(buffer)@,
                r.state()->Ok_0,
            ),
    {
        SongPositionPointerBuilder::new(buffer)
    }

    pub fn group(&self) -> (r: u8)
        requires
            self@.len() >= 1,
        ensures
            r == header_of(self@).group,
    {
        group_from_packet(self.0)
    }

    pub fn position(&self) -> (r: u16)
        requires
            self@.len() >= 1,
        ensures
            r as nat == position_of(self@),
            r < 0x4000,
    {
        let w = self.0[0];
        let septets: [u8; 2] = [crate::bit_ops::BitOps::octet(&w, 2), crate::bit_ops::BitOps::octet(&w, 3)];
        let r = from_u7s(&septets);
        proof {
            reveal_with_fuel(crate::encode_7bit::septet_bound, 3);
            assert(septets@ =~= seq![octet32(self@[0], 2), octet32(self@[0], 3)]);
        }
        r as u16
    }

    pub fn data(&self) -> (r: &[u32])
        ensures
            r@ == self@,
    {
        self.0
    }

    /// A view of `data` where its first word is a song position pointer.
    pub fn from_data(data: &'a [u32]) -> (r: Result<Self, Error>)
        ensures
            data@.len() == 0 ==> r == Err::<Self, Error>(Error::BufferOverflow),
            data@.len() >= 1 ==> (r is Ok <==> (header_of(data@).message_type == TYPE_CODE
                && octet32(data@[0], 1) == OP_CODE)),
            data@.len() >= 1 && r is Err ==> r == Err::<Self, Error>(
                Error::InvalidData(InvalidReason::IncorrectStatus),
            ),
            r is Ok ==> r->Ok_0@ == data@,
    {
        match validate_packet(data, OP_CODE) {
            Ok(()) => Ok(SongPositionPointerMessage(data)),
            Err(e) => Err(e),
        }
    }
}

/// Writes a song position pointer into a caller's buffer field by field;
/// the first error stays and makes later calls do nothing.
pub struct SongPositionPointerBuilder<'a>(Result<&'a mut [u32], Error>);

impl<'a> SongPositionPointerBuilder<'a> {
    /// The words written so far, or the error met.
    pub closed spec fn state(&self) -> Result<Seq<u32>, Error> {
        match self.0 {
            Ok(b) => Ok(b@),
            Err(e) => Err(e),
        }
    }

    /// A buffer still being written has room for the message.
    pub open spec fn wf(&self) -> bool {
        self.state() is Ok ==> self.state()->Ok_0.len() >= 1
    }

    /// `s` is a fresh message over `old`: type, status byte, and zeros.
    pub open spec fn fresh(old: Seq<u32>, s: Seq<u32>) -> bool {
        &&& s.len() == old.len()
        &&& header_of(s).message_type == TYPE_CODE
        &&& header_of(s).group == 0
        &&& octet32(s[0], 1) == OP_CODE
        &&& header_of(s).octet2 == 0
        &&& header_of(s).octet3 == 0
        &&& forall|i: int| 1 <= i < s.len() ==> s[i] == 0
    }

    pub fn new(buffer: &'a mut [u32]) -> (r: Self)
        ensures
            r.wf(),
            old(buffer)@.len() == 0 ==> r.state() == Err::<Seq<u32>, Error>(Error::BufferOverflow),
            old(buffer)@.len() >= 1 ==> r.state() is Ok && Self::fresh(old(buffer)@, r.state()->Ok_0),
    {
        match validate_buffer_size(buffer) {
            Ok(()) => {
                clear_buffer(buffer);
                proof {
                    lemma_zero_fields();
                }
                write_op_code_to_packet(buffer, OP_CODE);
                let ghost w1 = buffer@[0];
                write_type_to_packet(TYPE_CODE, buffer);
                proof {
                    let w = buffer@[0];
                    lemma_octet_nibbles(w1);
                    lemma_octet_nibbles(w);
                    lemma_field32(w1, 0, 1, 0, 24, 8);
                    lemma_masks(0, 0);
                    assert(octet32(w1, 0) == octet32(0, 0));
                    assert(get_field32(w1, 24, 8) == 0);
                    assert(nibble32(w1, 1) == 0);
                    lemma_field32(w, 0, 1, 0, 16, 8);
                    lemma_field32(w, 0, 1, 0, 20, 4);
                    lemma_field32(w, 0, 1, 0, 16, 4);
                    lemma_field32(w1, 0, 1, 0, 16, 8);
                    lemma_field32(w1, 0, 1, 0, 20, 4);
                    lemma_field32(w1, 0, 1, 0, 16, 4);
                    assert(nibble32(w, 2) == nibble32(w1, 2));
                    assert(nibble32(w, 3) == nibble32(w1, 3));
                    assert(octet32(w, 1) == OP_CODE);
                    assert(octet32(w, 2) == 0);
                    assert(octet32(w, 3) == 0);
                }
                SongPositionPointerBuilder(Ok(buffer))
            },
            Err(e) => SongPositionPointerBuilder(Err(e)),
        }
    }

    pub fn group(self, v: u8) -> (r: Self)
        requires
            self.wf(),
            v < 16,
        ensures
            r.wf(),
            self.state() is Err ==> r.state() == self.state(),
            self.state() is Ok ==> r.state() is Ok && same_tail(self.state()->Ok_0, r.state()->Ok_0)
                && header_of(r.state()->Ok_0) == (Header { group: v, ..header_of(self.state()->Ok_0) }),
    {
        match self.0 {
            Ok(buffer) => {
                write_group_to_packet(v, buffer);
                SongPositionPointerBuilder(Ok(buffer))
            },
            Err(e) => SongPositionPointerBuilder(Err(e)),
        }
    }

    /// Sets the position, a 14-bit value.
    pub fn position(self, v: u16) -> (r: Self)
        requires
            self.wf(),
            v < 0x4000,
        ensures
            r.wf(),
            self.state() is Err ==> r.state() == self.state(),
            self.state() is Ok ==> r.state() is Ok && same_tail(self.state()->Ok_0, r.state()->Ok_0)
                && header_of(r.state()->Ok_0) == (Header {
                octet2: unpack(v as nat, 2)[0],
                octet3: unpack(v as nat, 2)[1],
                ..header_of(self.state()->Ok_0)
            }) && position_of(r.state()->Ok_0) == v,
    {
        match self.0 {
            Ok(buffer) => {
                let u7s = to_u7s(v as u32, 2);
                proof {
                    reveal_with_fuel(unpack, 3);
                }
                write_note_to_packet(u7s[0], buffer);
                write_velocity_to_packet(u7s[1], buffer);
                proof {
                    lemma_pack_unpack_14(v as nat);
                    let s = buffer@;
                    assert(seq![octet32(s[0], 2), octet32(s[0], 3)] =~= unpack(v as nat, 2));
                }
                SongPositionPointerBuilder(Ok(buffer))
            },
            Err(e) => SongPositionPointerBuilder(Err(e)),
        }
    }

    /// The message written, or the first error.
    pub fn build(self) -> (r: Result<SongPositionPointerMessage<'a>, Error>)
        ensures
            self.state() is Ok ==> r is Ok && r->Ok_0@ == self.state()->Ok_0,
            self.state() is Err ==> r == Err::<SongPositionPointerMessage<'a>, Error>(
                self.state()->Err_0,
            ),
    {
        match self.0 {
            Ok(buffer) => Ok(SongPositionPointerMessage(buffer)),
            Err(e) => Err(e),
        }
    }
}

/// A 14-bit value cut into two septets packs back to itself.
pub proof fn lemma_pack_unpack_14(v: nat)
    requires
        v < 0x4000,
    ensures
        pack(unpack(v, 2)) == v,
{
    reveal_with_fuel(unpack, 3);
    reveal_with_fuel(pack, 3);
    let s = unpack(v, 2);
    assert(s =~= seq![(v % 128) as u8, ((v / 128) % 128) as u8]);
    assert(s.drop_first().drop_first() =~= Seq::<u8>::empty());
    assert(v % 128 + 128 * ((v / 128) % 128) == v) by (nonlinear_arith)
        requires
            v < 0x4000,
    ;
}

} // verus!
