//! System-exclusive messages of 7-bit bytes.
//!
//! In word storage a payload is cut into packets of two words, each holding
//! up to six payload bytes. The first word of a packet holds the message
//! type (3), the group, the status (complete, start, continue or end) and
//! the number of payload bytes in the packet; the payload bytes follow in
//! octets 2 and 3 of the first word and the four octets of the second.
//!
//! In byte storage the payload stands between a start byte (0xF0) and an
//! end byte (0xF7).
use crate::bit_ops::{nibble32, octet32, BitOps};
use crate::buffer::{resized, Buffer, UnitKind, UnitSlice};
use crate::error::{BufferOverflow, Error, InvalidReason};
use crate::helpers::{
    chunk_count, chunk_nibble, groups_consistent, status_error,
    put_nibble, sysex_group_consistent_groups, validate_sysex_group_statuses, StatusCodes,
};
use crate::payload::PayloadIterator;
use crate::segment::{
    lay_out, laid_out, lemma_laid_out_valid,
    packets_for, put_laid_byte, tail_clear,
};
use vstd::prelude::*;

verus! {

pub const UMP_MESSAGE_TYPE: u8 = 0x3;

pub const STATUS_COMPLETE: u8 = 0x0;

pub const STATUS_START: u8 = 0x1;

pub const STATUS_CONTINUE: u8 = 0x2;

pub const STATUS_END: u8 = 0x3;

/// Payload bytes that one word packet can carry.
pub const PACKET_CAPACITY: usize = 6;

pub const START_BYTE: u8 = 0xF0;

pub const END_BYTE: u8 = 0xF7;

pub open spec fn sysex7_codes() -> StatusCodes {
    StatusCodes {
        complete: STATUS_COMPLETE,
        begin: STATUS_START,
        cont: STATUS_CONTINUE,
        end: STATUS_END,
    }
}

// ---------------------------------------------------------------------------
// Word packets
pub open spec fn packet_count(ws: Seq<u32>) -> nat {
    ws.len() / 2
}

pub open spec fn packet_type(ws: Seq<u32>, p: int) -> u8 {
    nibble32(ws[2 * p], 0)
}

pub open spec fn packet_group(ws: Seq<u32>, p: int) -> u8 {
    nibble32(ws[2 * p], 1)
}

pub open spec fn packet_status(ws: Seq<u32>, p: int) -> u8 {
    nibble32(ws[2 * p], 2)
}

pub open spec fn packet_size(ws: Seq<u32>, p: int) -> u8 {
    nibble32(ws[2 * p], 3)
}

/// The number of packets from `p` on that carry the system-exclusive type.
pub open spec fn run_from(ws: Seq<u32>, p: nat) -> nat
    decreases packet_count(ws) - p,
{
    if p < packet_count(ws) && packet_type(ws, p as int) == UMP_MESSAGE_TYPE {
        1 + run_from(ws, p + 1)
    } else {
        0
    }
}

/// The packets of the message: the leading packets of the buffer that carry
/// the system-exclusive type.
pub open spec fn run_len(ws: Seq<u32>) -> nat {
    run_from(ws, 0)
}

/// The words of the message's packets.
pub open spec fn run_words(ws: Seq<u32>) -> Seq<u32> {
    ws.subrange(0, 2 * run_len(ws) as int)
}

/// Which word of a packet holds payload byte `k`, and at which octet.
pub open spec fn byte_word(k: int) -> int {
    (k + 2) / 4
}

pub open spec fn byte_octet(k: int) -> int {
    (k + 2) % 4
}

/// Payload byte `k` of packet `p`.
pub open spec fn payload_byte(ws: Seq<u32>, p: int, k: int) -> u8 {
    octet32(ws[2 * p + byte_word(k)], byte_octet(k)) % 128
}

pub open spec fn packet_payload(ws: Seq<u32>, p: int) -> Seq<u8> {
    Seq::new(packet_size(ws, p) as nat, |k: int| payload_byte(ws, p, k))
}

/// The payload bytes of packets `p` up to `n`, in order.
pub open spec fn payload_from(ws: Seq<u32>, p: nat, n: nat) -> Seq<u8>
    decreases n - p,
{
    if p < n {
        packet_payload(ws, p as int) + payload_from(ws, p + 1, n)
    } else {
        Seq::empty()
    }
}

pub open spec fn ump_payload(ws: Seq<u32>) -> Seq<u8> {
    payload_from(ws, 0, run_len(ws))
}

/// Some packet of the run declares more payload than a packet holds.
pub open spec fn oversized_packet(ws: Seq<u32>) -> bool {
    exists|p: int| 0 <= p < run_len(ws) && #[trigger] packet_size(ws, p) > PACKET_CAPACITY
}

/// The first check that word storage fails, if any: length, message type,
/// consistent groups, status grammar, packet sizes.
pub open spec fn ump_error(ws: Seq<u32>) -> Option<Error> {
    if ws.len() < 2 {
        Some(Error::BufferOverflow)
    } else if packet_type(ws, 0) != UMP_MESSAGE_TYPE {
        Some(Error::InvalidData(InvalidReason::IncorrectMessageType))
    } else if !groups_consistent(run_words(ws), 2) {
        Some(Error::InvalidData(InvalidReason::InconsistentGroups))
    } else if status_error(run_words(ws), 2, sysex7_codes()) is Some {
        Some(Error::InvalidData(status_error(run_words(ws), 2, sysex7_codes())->Some_0))
    } else if oversized_packet(ws) {
        Some(Error::InvalidData(InvalidReason::InvalidPacketSize))
    } else {
        None
    }
}

// ---------------------------------------------------------------------------
// Byte stream
/// The position of the first end byte at or after `i`, or the length.
pub open spec fn end_from(bs: Seq<u8>, i: nat) -> nat
    decreases bs.len() - i,
{
    if i < bs.len() {
        if bs[i as int] == END_BYTE {
            i
        } else {
            end_from(bs, i + 1)
        }
    } else {
        bs.len()
    }
}

pub open spec fn end_index(bs: Seq<u8>) -> nat {
    end_from(bs, 0)
}

/// The first check that byte storage fails, if any: length, start byte,
/// end byte.
pub open spec fn bytes_error(bs: Seq<u8>) -> Option<Error> {
    if bs.len() < 2 {
        Some(Error::BufferOverflow)
    } else if bs[0] != START_BYTE {
        Some(Error::InvalidData(InvalidReason::NoBeginByte))
    } else if end_index(bs) == bs.len() {
        Some(Error::InvalidData(InvalidReason::NoEndByte))
    } else {
        None
    }
}

pub open spec fn bytes_payload(bs: Seq<u8>) -> Seq<u8> {
    bs.subrange(1, end_index(bs) as int).map_values(|b: u8| b % 128)
}

pub proof fn lemma_end_from(bs: Seq<u8>, i: nat)
    requires
        i <= bs.len(),
    ensures
        i <= end_from(bs, i) <= bs.len(),
        end_from(bs, i) < bs.len() ==> bs[end_from(bs, i) as int] == END_BYTE,
        forall|k: int| i <= k < end_from(bs, i) ==> bs[k] != END_BYTE,
    decreases bs.len() - i,
{
    if i < bs.len() && bs[i as int] != END_BYTE {
        lemma_end_from(bs, i + 1);
    }
}

pub proof fn lemma_run_from(ws: Seq<u32>, p: nat)
    requires
        p <= packet_count(ws),
    ensures
        p + run_from(ws, p) <= packet_count(ws),
        forall|q: int| p <= q < p + run_from(ws, p) ==> packet_type(ws, q) == UMP_MESSAGE_TYPE,
        p + run_from(ws, p) < packet_count(ws) ==> packet_type(ws, (p + run_from(ws, p)) as int)
            != UMP_MESSAGE_TYPE,
    decreases packet_count(ws) - p,
{
    if p < packet_count(ws) && packet_type(ws, p as int) == UMP_MESSAGE_TYPE {
        lemma_run_from(ws, p + 1);
    }
}

/// The position of the end byte, or the length where there is none.
fn find_end(bs: &[u8]) -> (r: usize)
    ensures
        r == end_index(bs@),
{
    let mut i: usize = 0;
    while i < bs.len()
        invariant
            i <= bs@.len(),
            end_from(bs@, i as nat) == end_from(bs@, 0),
        decreases bs@.len() - i,
    {
        if bs[i] == END_BYTE {
            return i;
        }
        i = i + 1;
    }
    i
}

/// The number of leading packets that carry the system-exclusive type.
fn find_run(ws: &[u32]) -> (r: usize)
    ensures
        r == run_len(ws@),
        r <= packet_count(ws@),
{
    let len = ws.len();
    let n = len / 2;
    let mut p: usize = 0;
    proof {
        lemma_run_from(ws@, 0);
    }
    while p < n
        invariant
            len == ws@.len(),
            p <= n,
            n == packet_count(ws@),
            p + run_from(ws@, p as nat) == run_len(ws@),
        decreases n - p,
    {
        assert(2 * p + 1 < ws@.len());
        if ws[2 * p].nibble(0) != UMP_MESSAGE_TYPE {
            return p;
        }
        p = p + 1;
    }
    p
}

/// The checks of word storage, in the order in which they are made.
pub fn validate_ump(ws: &[u32]) -> (r: Result<usize, Error>)
    ensures
        match ump_error(ws@) {
            None => r == Ok::<usize, Error>(run_len(ws@) as usize),
            Some(e) => r == Err::<usize, Error>(e),
        },
{
    if ws.len() < 2 {
        return Err(Error::BufferOverflow);
    }
    if ws[0].nibble(0) != UMP_MESSAGE_TYPE {
        return Err(Error::InvalidData(InvalidReason::IncorrectMessageType));
    }
    let n = find_run(ws);
    proof {
        lemma_run_from(ws@, 0);
        assert(packet_type(ws@, 0) == UMP_MESSAGE_TYPE);
        assert(n >= 1);
    }
    let run = ws.split_at(2 * n).0;
    assert(run@ == run_words(ws@));
    sysex_group_consistent_groups(run, 2)?;
    validate_sysex_group_statuses(
        run,
        &StatusCodes {
            complete: STATUS_COMPLETE,
            begin: STATUS_START,
            cont: STATUS_CONTINUE,
            end: STATUS_END,
        },
        2,
    )?;
    let len = ws.len();
    let mut p: usize = 0;
    while p < n
        invariant
            len == ws@.len(),
            groups_consistent(run_words(ws@), 2),
            status_error(run_words(ws@), 2, sysex7_codes()) is None,
            ws@.len() >= 2,
            packet_type(ws@, 0) == UMP_MESSAGE_TYPE,
            p <= n,
            n == run_len(ws@),
            2 * n <= ws@.len(),
            forall|q: int| 0 <= q < p ==> #[trigger] packet_size(ws@, q) <= PACKET_CAPACITY,
        decreases n - p,
    {
        assert(2 * p + 1 < ws@.len());
        if ws[2 * p].nibble(3) as usize > PACKET_CAPACITY {
            assert(packet_size(ws@, p as int) > PACKET_CAPACITY);
            assert(oversized_packet(ws@));
            assert(groups_consistent(run_words(ws@), 2));
            assert(status_error(run_words(ws@), 2, sysex7_codes()) is None);
            return Err(Error::InvalidData(InvalidReason::InvalidPacketSize));
        }
        p = p + 1;
    }
    Ok(n)
}

/// The checks of byte storage, in the order in which they are made; the
/// position of the end byte on success.
pub fn validate_bytes(bs: &[u8]) -> (r: Result<usize, Error>)
    ensures
        match bytes_error(bs@) {
            None => r == Ok::<usize, Error>(end_index(bs@) as usize),
            Some(e) => r == Err::<usize, Error>(e),
        },
{
    if bs.len() < 2 {
        return Err(Error::BufferOverflow);
    }
    if bs[0] != START_BYTE {
        return Err(Error::InvalidData(InvalidReason::NoBeginByte));
    }
    let end = find_end(bs);
    if end == bs.len() {
        return Err(Error::InvalidData(InvalidReason::NoEndByte));
    }
    Ok(end)
}

/// An end byte at `e`, none before it: the end index is `e`.
pub proof fn lemma_end_at(bs: Seq<u8>, i: nat, e: nat)
    requires
        i <= e < bs.len(),
        bs[e as int] == END_BYTE,
        forall|k: int| i <= k < e ==> bs[k] != END_BYTE,
    ensures
        end_from(bs, i) == e,
    decreases e - i,
{
    if i < e {
        lemma_end_from(bs, i);
        lemma_end_at(bs, i + 1, e);
    }
}

/// The storage units that a payload of `len` bytes takes.
pub open spec fn units_for(kind: UnitKind, len: nat) -> nat {
    match kind {
        UnitKind::Byte => len + 2,
        UnitKind::Word => 2 * packets_for(len),
    }
}

/// The payload bytes that `cap` units hold.
pub open spec fn room(kind: UnitKind, cap: nat) -> nat {
    match kind {
        UnitKind::Byte => (cap - 2) as nat,
        UnitKind::Word => 6 * (cap / 2),
    }
}

/// The words that a payload of `payload_size` bytes takes: one packet for
/// every six bytes or part of six, and one packet for an empty payload.
pub fn buffer_size_from_payload_size_ump(payload_size: usize) -> (r: usize)
    requires
        payload_size + 8 <= usize::MAX,
    ensures
        r == units_for(UnitKind::Word, payload_size as nat),
{
    if payload_size % 6 == 0 {
        if payload_size == 0 {
            2
        } else {
            payload_size / 3
        }
    } else {
        2 * (payload_size / 6 + 1)
    }
}

/// A system-exclusive message of 7-bit bytes, over storage that it owns.
#[derive(Debug)]
pub struct Sysex7 {
    buffer: Buffer,
}

impl Sysex7 {
    pub closed spec fn storage(&self) -> Buffer {
        self.buffer
    }

    pub open spec fn kind(&self) -> UnitKind {
        self.storage().kind()
    }

    /// The storage holds a well-formed message.
    pub open spec fn wf(&self) -> bool {
        &&& self.storage().wf()
        &&& (self.storage().limit() is Some ==> self.storage().limit()->Some_0 >= 2)
        &&& match self.kind() {
            UnitKind::Byte => bytes_error(self.storage().bytes()) is None,
            UnitKind::Word => {
                &&& ump_error(self.storage().words()) is None
                &&& 3 * self.storage().words().len() <= usize::MAX
            },
        }
    }

    /// The payload, in order.
    pub open spec fn spec_payload(&self) -> Seq<u8> {
        match self.kind() {
            UnitKind::Byte => bytes_payload(self.storage().bytes()),
            UnitKind::Word => ump_payload(self.storage().words()),
        }
    }

    /// The group of the first packet; byte streams carry none and read 0.
    pub open spec fn spec_group(&self) -> u8 {
        match self.kind() {
            UnitKind::Byte => 0,
            UnitKind::Word => packet_group(self.storage().words(), 0),
        }
    }

    /// The number of units the message takes in its storage.
    pub open spec fn spec_size(&self) -> nat {
        match self.kind() {
            UnitKind::Byte => end_index(self.storage().bytes()) + 1,
            UnitKind::Word => 2 * run_len(self.storage().words()),
        }
    }

    /// Word packets are full but for the last, in payload order, with
    /// cleared bytes past the payload.
    pub open spec fn canonical(&self) -> bool {
        let ws = self.storage().words();
        self.kind() == UnitKind::Word ==> {
            &&& laid_out(ws, packet_count(ws), self.spec_payload().len(), self.spec_group())
            &&& tail_clear(ws, packet_count(ws), self.spec_payload().len())
        }
    }

    /// An empty message in growable byte storage: the start and end byte.
    pub fn new_bytes() -> (r: Sysex7)
        ensures
            r.wf(),
            r.kind() == UnitKind::Byte,
            r.storage().bytes() == seq![START_BYTE, END_BYTE],
            r.storage().limit() is None,
            r.spec_payload().len() == 0,
    {
        let r = Sysex7 { buffer: Buffer::from_bytes(vec![START_BYTE, END_BYTE]) };
        proof {
            let bs = r.storage().bytes();
            lemma_end_at(bs, 0, 1);
        }
        r
    }

    /// An empty message in growable word storage: one complete packet of
    /// group 0 and size 0.
    pub fn new_words() -> (r: Sysex7)
        ensures
            r.wf(),
            r.kind() == UnitKind::Word,
            r.storage().limit() is None,
            r.spec_payload().len() == 0,
            r.spec_group() == 0,
            r.canonical(),
    {
        let mut buffer = Buffer::from_words(vec![0u32, 0u32]);
        lay_out(&mut buffer, 0, 0);
        proof {
            lemma_laid_out_valid(buffer.words(), 1, 0, 0);
        }
        Sysex7 { buffer }
    }

    /// Writes an empty message into `buffer`, which must have room for it.
    pub fn try_new(buffer: Buffer) -> (r: Result<Sysex7, BufferOverflow>)
        requires
            buffer.wf(),
        ensures
            r is Ok <==> buffer.granted(2) == 2,
            r is Ok ==> {
                let m = r->Ok_0;
                &&& m.wf()
                &&& m.kind() == buffer.kind()
                &&& m.storage().limit() == buffer.limit()
                &&& m.spec_payload().len() == 0
                &&& m.spec_group() == 0
                &&& m.canonical()
            },
    {
        let mut buffer = buffer;
        if buffer.try_resize(2).is_err() {
            return Err(BufferOverflow);
        }
        match buffer.unit_kind() {
            UnitKind::Byte => {
                buffer.set_byte(0, START_BYTE);
                buffer.set_byte(1, END_BYTE);
                proof {
                    lemma_end_at(buffer.bytes(), 0, 1);
                }
            },
            UnitKind::Word => {
                lay_out(&mut buffer, 0, 0);
                proof {
                    lemma_laid_out_valid(buffer.words(), 1, 0, 0);
                }
            },
        }
        Ok(Sysex7 { buffer })
    }

    /// Takes `buffer` as a message where it holds one; else the first check
    /// that fails. The bound on the length of word storage is met by every
    /// buffer that memory can hold, and keeps payload lengths in `usize`.
    pub fn try_from(buffer: Buffer) -> (r: Result<Sysex7, Error>)
        requires
            buffer.wf(),
            buffer.kind() == UnitKind::Word ==> 3 * buffer.words().len() <= usize::MAX,
        ensures
            match buffer.kind() {
                UnitKind::Byte => match bytes_error(buffer.bytes()) {
                    None => r is Ok,
                    Some(e) => r == Err::<Sysex7, Error>(e),
                },
                UnitKind::Word => match ump_error(buffer.words()) {
                    None => r is Ok,
                    Some(e) => r == Err::<Sysex7, Error>(e),
                },
            },
            r is Ok ==> r->Ok_0.wf() && r->Ok_0.storage() == buffer,
    {
        let checked = match buffer.specialise_u8() {
            Some(bs) => validate_bytes(bs),
            None => match buffer.specialise_u32() {
                Some(ws) => validate_ump(ws),
                None => Err(Error::BufferOverflow),
            },
        };
        match checked {
            Ok(_) => Ok(Sysex7 { buffer }),
            Err(e) => Err(e),
        }
    }

    /// The storage, given back.
    pub fn into_buffer(self) -> (r: Buffer)
        ensures
            r == self.storage(),
    {
        self.buffer
    }

    /// The units of the message: the bytes up to the end byte, or the words
    /// of its packets.
    pub fn data(&self) -> (r: UnitSlice<'_>)
        requires
            self.wf(),
        ensures
            r.kind() == self.kind(),
            match r {
                UnitSlice::Bytes(bs) => bs@ == self.storage().bytes().subrange(
                    0,
                    self.spec_size() as int,
                ),
                UnitSlice::Words(ws) => ws@ == run_words(self.storage().words()),
            },
    {
        let size = self.size();
        match self.buffer.specialise_u8() {
            Some(bs) => {
                proof {
                    lemma_end_from(bs@, 0);
                }
                UnitSlice::Bytes(bs.split_at(size).0)
            },
            None => {
                let ws = self.buffer.specialise_u32().unwrap();
                proof {
                    lemma_valid_sizes(ws@);
                }
                UnitSlice::Words(ws.split_at(size).0)
            },
        }
    }

    /// The number of units the message takes.
    pub fn size(&self) -> (r: usize)
        requires
            self.wf(),
        ensures
            r == self.spec_size(),
    {
        match self.buffer.specialise_u8() {
            Some(bs) => {
                proof {
                    lemma_end_from(bs@, 0);
                    assert(self.kind() == UnitKind::Byte);
                    assert(bytes_error(bs@) is None);
                }
                let len = bs.len();
                let end = find_end(bs);
                assert(end < len);
                end + 1
            },
            None => {
                let ws = self.buffer.specialise_u32().unwrap();
                proof {
                    lemma_valid_sizes(ws@);
                }
                2 * find_run(ws)
            },
        }
    }

    pub fn group(&self) -> (r: u8)
        requires
            self.wf(),
        ensures
            r == self.spec_group(),
            r < 16,
    {
        match self.buffer.specialise_u32() {
            Some(ws) => ws[0].nibble(1),
            None => 0,
        }
    }

    /// The payload bytes, read lazily.
    pub fn payload(&self) -> (r: PayloadIterator<'_>)
        requires
            self.wf(),
        ensures
            r.wf(),
            r.remaining() == self.spec_payload(),
    {
        match self.buffer.specialise_u8() {
            Some(bs) => {
                proof {
                    lemma_end_from(bs@, 0);
                }
                let end = find_end(bs);
                let body = bs.split_at(end).0.split_at(1).1;
                assert(body@ == bs@.subrange(1, end as int));
                PayloadIterator::from_bytes(body)
            },
            None => {
                let ws = self.buffer.specialise_u32().unwrap();
                let n = find_run(ws);
                let run = ws.split_at(2 * n).0;
                proof {
                    lemma_run_from(ws@, 0);
                    lemma_valid_sizes(ws@);
                    assert(run@ == run_words(ws@));
                    assert forall|p: int| 0 <= p < packet_count(run@) implies #[trigger] packet_size(
                        run@,
                        p,
                    ) <= PACKET_CAPACITY by {
                        assert(packet_size(run@, p) == packet_size(ws@, p));
                    }
                    lemma_payload_prefix(ws@, run@, 0, n as nat);
                }
                PayloadIterator::from_words(run)
            },
        }
    }

    /// The number of payload bytes.
    pub fn payload_size(&self) -> (r: usize)
        requires
            self.wf(),
        ensures
            r == self.spec_payload().len(),
    {
        let it = self.payload();
        it.len()
    }
}

impl Sysex7 {
    /// Sets the group of every packet of the message; a byte stream carries
    /// no group and is left as it is.
    pub fn set_group(&mut self, group: u8)
        requires
            old(self).wf(),
            group < 16,
        ensures
            final(self).wf(),
            final(self).kind() == old(self).kind(),
            final(self).storage().limit() == old(self).storage().limit(),
            final(self).spec_payload() == old(self).spec_payload(),
            final(self).kind() == UnitKind::Word ==> final(self).spec_group() == group,
            final(self).kind() == UnitKind::Byte ==> final(self).storage() == old(self).storage(),
            old(self).canonical() ==> final(self).canonical(),
    {
        if self.buffer.unit_kind() == UnitKind::Byte {
            return;
        }
        let ghost before = self.buffer.words();
        let n = {
            let ws = self.buffer.specialise_u32().unwrap();
            proof {
                lemma_valid_sizes(ws@);
            }
            find_run(ws)
        };
        let mut p: usize = 0;
        while p < n
            invariant
                self.buffer.kind() == UnitKind::Word,
                self.buffer.limit() == old(self).storage().limit(),
                self.buffer.wf(),
                self.buffer.words().len() == before.len(),
                n == run_len(before),
                2 * n <= before.len(),
                3 * before.len() <= usize::MAX,
                group < 16,
                p <= n,
                forall|i: int|
                    0 <= i < before.len() && (i % 2 == 1 || i >= 2 * p) ==> self.buffer.words()[i]
                        == before[i],
                forall|q: int|
                    0 <= q < p ==> #[trigger] nibble32(self.buffer.words()[2 * q], 1) == group,
                forall|q: int|
                    0 <= q < p ==> #[trigger] nibble32(self.buffer.words()[2 * q], 0) == nibble32(
                        before[2 * q],
                        0,
                    ),
                forall|q: int|
                    0 <= q < p ==> #[trigger] nibble32(self.buffer.words()[2 * q], 2) == nibble32(
                        before[2 * q],
                        2,
                    ),
                forall|q: int|
                    0 <= q < p ==> #[trigger] nibble32(self.buffer.words()[2 * q], 3) == nibble32(
                        before[2 * q],
                        3,
                    ),
                forall|q: int|
                    0 <= q < p ==> #[trigger] octet32(self.buffer.words()[2 * q], 2) == octet32(
                        before[2 * q],
                        2,
                    ),
                forall|q: int|
                    0 <= q < p ==> #[trigger] octet32(self.buffer.words()[2 * q], 3) == octet32(
                        before[2 * q],
                        3,
                    ),
            decreases n - p,
        {
            let ghost prev = self.buffer.words();
            let w = put_nibble(self.buffer.word(2 * p), 1, group);
            self.buffer.set_word(2 * p, w);
            proof {
                let ws = self.buffer.words();
                assert(prev[2 * p as int] == before[2 * p as int]);
                assert forall|q: int| 0 <= q < p + 1 implies #[trigger] nibble32(ws[2 * q], 1) == group by {
                    if q < p {
                        assert(ws[2 * q] == prev[2 * q]);
                    }
                }
            }
            p = p + 1;
        }
        proof {
            let ws = self.buffer.words();
            let count = packet_count(ws);
            assert forall|q: int| 0 <= q < count implies #[trigger] packet_type(ws, q) == packet_type(
                before,
                q,
            ) by {
                if q >= n {
                    assert(ws[2 * q] == before[2 * q]);
                } else {
                    assert(nibble32(ws[2 * q], 0) == nibble32(before[2 * q], 0));
                }
            }
            assert forall|q: int| 0 <= q < count implies #[trigger] packet_status(ws, q)
                == packet_status(before, q) by {
                if q >= n {
                    assert(ws[2 * q] == before[2 * q]);
                } else {
                    assert(nibble32(ws[2 * q], 0) == nibble32(before[2 * q], 0));
                }
            }
            assert forall|q: int| 0 <= q < count implies #[trigger] packet_size(ws, q) == packet_size(
                before,
                q,
            ) by {
                if q >= n {
                    assert(ws[2 * q] == before[2 * q]);
                } else {
                    assert(nibble32(ws[2 * q], 0) == nibble32(before[2 * q], 0));
                }
            }
            lemma_same_run(before, ws, 0);
            lemma_valid_sizes(before);
            assert forall|q: int| 0 <= q < n implies #[trigger] packet_payload(ws, q)
                =~= packet_payload(before, q) by {
                assert(packet_size(ws, q) == packet_size(before, q));
                assert(nibble32(ws[2 * q], 0) == nibble32(before[2 * q], 0));
                assert forall|k: int| 0 <= k < packet_size(ws, q) implies payload_byte(ws, q, k)
                    == payload_byte(before, q, k) by {
                    assert(byte_word(k) <= 1);
                    if byte_word(k) == 1 {
                        assert((2 * q + 1) % 2 == 1);
                    }
                }
            }
            lemma_same_payload(before, ws, 0, n as nat);
            let rw = run_words(ws);
            assert forall|c: int| 0 <= c < chunk_count(rw, 2) implies #[trigger] chunk_nibble(
                rw,
                2,
                c,
                1,
            ) == nibble32(rw[0], 1) by {
                assert(c * 2 == 2 * c);
                assert(packet_group(ws, c) == group);
            }
            let brw = run_words(before);
            assert forall|c: int| 0 <= c < chunk_count(rw, 2) implies #[trigger] chunk_nibble(
                rw,
                2,
                c,
                2,
            ) == chunk_nibble(brw, 2, c, 2) by {
                assert(c * 2 == 2 * c);
                assert(packet_status(ws, c) == packet_status(before, c));
            }
            assert(status_error(rw, 2, sysex7_codes()) == status_error(brw, 2, sysex7_codes()));
            assert(!oversized_packet(ws));
            if old(self).canonical() {
                let len = ump_payload(before).len();
                lemma_laid_out_valid(before, count, len, packet_group(before, 0));
                assert(n == count);
                assert forall|q: int| 0 <= q < count implies #[trigger] packet_group(ws, q) == group by {
                    assert(nibble32(ws[2 * q], 1) == group);
                }
                assert(nibble32(ws[2 * (count - 1)], 0) == nibble32(before[2 * (count - 1)], 0));
                assert forall|k: int| len - 6 * (count - 1) <= k < 6 implies #[trigger] octet32(
                    ws[2 * (count - 1) + byte_word(k)],
                    byte_octet(k),
                ) == 0 by {
                    assert(octet32(before[2 * (count - 1) + byte_word(k)], byte_octet(k)) == 0);
                    if byte_word(k) == 1 {
                        assert((2 * (count - 1) + 1) % 2 == 1);
                    }
                }
            }
        }
    }

    /// Resizes the storage to hold `payload_size` payload bytes where the
    /// storage allows it, else as many as it can hold, and lays the payload
    /// out afresh; bytes of the old payload that remain keep their place in
    /// a byte stream.
    pub fn try_resize(&mut self, payload_size: usize) -> (r: Result<(), BufferOverflow>)
        requires
            old(self).wf(),
            payload_size + 8 <= usize::MAX,
        ensures
            final(self).wf(),
            final(self).canonical(),
            final(self).kind() == old(self).kind(),
            final(self).storage().limit() == old(self).storage().limit(),
            final(self).spec_group() == old(self).spec_group(),
            r is Ok <==> old(self).storage().granted(units_for(old(self).kind(), payload_size as nat))
                == units_for(old(self).kind(), payload_size as nat),
            r is Ok ==> final(self).spec_payload().len() == payload_size,
            r is Err ==> final(self).spec_payload().len() == room(
                old(self).kind(),
                old(self).storage().limit()->Some_0 as nat,
            ) && final(self).spec_payload().len() < payload_size,
            final(self).kind() == UnitKind::Byte ==> final(self).spec_payload() == resized(
                old(self).spec_payload(),
                final(self).spec_payload().len(),
                0u8,
            ),
    {
        if self.buffer.unit_kind() == UnitKind::Word {
            let group = self.group();
            let units = buffer_size_from_payload_size_ump(payload_size);
            let r = self.buffer.try_resize(units);
            proof {
                let len = self.buffer.words().len();
                let count = len / 2;
                assert(len >= 2);
                if r is Ok {
                    assert(count == packets_for(payload_size as nat));
                } else {
                    assert(payload_size > 6 * count);
                }
            }
            let len = lay_out(&mut self.buffer, payload_size, group);
            proof {
                lemma_laid_out_valid(self.buffer.words(), packet_count(self.buffer.words()), len as nat, group);
            }
            r
        } else {
            let ghost old_payload = self.spec_payload();
            let old_end = {
                let bs = self.buffer.specialise_u8().unwrap();
                proof {
                    lemma_end_from(bs@, 0);
                }
                find_end(bs)
            };
            let ghost before = self.buffer.bytes();
            let r = self.buffer.try_resize(payload_size + 2);
            let new_end = self.buffer.len() - 1;
            let mut i: usize = if old_end < new_end {
                old_end
            } else {
                new_end
            };
            let ghost start = i;
            while i < new_end
                invariant
                    self.buffer.kind() == UnitKind::Byte,
                    self.buffer.limit() == old(self).storage().limit(),
                    self.buffer.wf(),
                    new_end + 1 == self.buffer.bytes().len(),
                    start <= i <= new_end,
                    start >= 1,
                    forall|k: int|
                        0 <= k < start ==> self.buffer.bytes()[k] == resized(
                            before,
                            (new_end + 1) as nat,
                            0u8,
                        )[k],
                    forall|k: int| start <= k < i ==> self.buffer.bytes()[k] == 0,
                decreases new_end - i,
            {
                self.buffer.set_byte(i, 0);
                i = i + 1;
            }
            self.buffer.set_byte(new_end, END_BYTE);
            proof {
                let bs = self.buffer.bytes();
                assert forall|k: int| 0 <= k < new_end implies bs[k] != END_BYTE by {
                    if k < start {
                        assert(bs[k] == before[k]);
                    }
                }
                lemma_end_at(bs, 0, new_end as nat);
                let len = (new_end - 1) as nat;
                assert(bytes_payload(bs) =~= resized(old_payload, len, 0u8));
            }
            r
        }
    }

    /// Resizes growable storage to hold `payload_size` payload bytes.
    pub fn resize(&mut self, payload_size: usize)
        requires
            old(self).wf(),
            old(self).storage().limit() is None,
            payload_size + 8 <= usize::MAX,
        ensures
            final(self).wf(),
            final(self).canonical(),
            final(self).kind() == old(self).kind(),
            final(self).storage().limit() is None,
            final(self).spec_group() == old(self).spec_group(),
            final(self).spec_payload().len() == payload_size,
            final(self).kind() == UnitKind::Byte ==> final(self).spec_payload() == resized(
                old(self).spec_payload(),
                payload_size as nat,
                0u8,
            ),
    {
        let _ = self.try_resize(payload_size);
    }

    /// Writes payload byte `index` in place.
    fn write_datum(&mut self, datum: u8, index: usize)
        requires
            old(self).wf(),
            old(self).canonical(),
            index < old(self).spec_payload().len(),
            datum < 128,
        ensures
            final(self).wf(),
            final(self).canonical(),
            final(self).kind() == old(self).kind(),
            final(self).storage().limit() == old(self).storage().limit(),
            final(self).spec_group() == old(self).spec_group(),
            final(self).spec_payload() == old(self).spec_payload().update(index as int, datum),
    {
        if self.buffer.unit_kind() == UnitKind::Word {
            let ghost ws = self.buffer.words();
            let ghost n = packet_count(ws);
            let ghost len = self.spec_payload().len();
            let ghost g = self.spec_group();
            proof {
                lemma_laid_out_valid(ws, n, len, g);
            }
            put_laid_byte(&mut self.buffer, index, datum, Ghost(n), Ghost(len), Ghost(g));
            proof {
                lemma_laid_out_valid(self.buffer.words(), n, len, g);
            }
        } else {
            let ghost before = self.buffer.bytes();
            proof {
                lemma_end_from(before, 0);
            }
            let len = self.buffer.len();
            assert(index + 1 < len);
            self.buffer.set_byte(index + 1, datum);
            proof {
                let bs = self.buffer.bytes();
                let e = end_index(before);
                assert forall|k: int| 0 <= k < e implies bs[k] != END_BYTE by {
                    if k != index + 1 {
                        assert(bs[k] == before[k]);
                    }
                }
                lemma_end_at(bs, 0, e);
                assert(bytes_payload(bs) =~= bytes_payload(before).update(index as int, datum));
            }
        }
    }

    /// Replaces the payload with `data`, growing or shrinking the storage.
    pub fn set_payload(&mut self, data: &[u8])
        requires
            old(self).wf(),
            old(self).storage().limit() is None,
            data@.len() + 8 <= usize::MAX,
            forall|i: int| 0 <= i < data@.len() ==> data@[i] < 128,
        ensures
            final(self).wf(),
            final(self).canonical(),
            final(self).kind() == old(self).kind(),
            final(self).storage().limit() is None,
            final(self).spec_group() == old(self).spec_group(),
            final(self).spec_payload() == data@,
    {
        self.resize(data.len());
        self.write_all(data, data.len());
    }

    /// Replaces the payload with `data` where the storage can hold it; else
    /// with as much of `data` as it holds, and reports the overflow.
    pub fn try_set_payload(&mut self, data: &[u8]) -> (r: Result<(), BufferOverflow>)
        requires
            old(self).wf(),
            data@.len() + 8 <= usize::MAX,
            forall|i: int| 0 <= i < data@.len() ==> data@[i] < 128,
        ensures
            final(self).wf(),
            final(self).canonical(),
            final(self).kind() == old(self).kind(),
            final(self).storage().limit() == old(self).storage().limit(),
            final(self).spec_group() == old(self).spec_group(),
            r is Ok <==> old(self).storage().granted(units_for(old(self).kind(), data@.len()))
                == units_for(old(self).kind(), data@.len()),
            r is Ok ==> final(self).spec_payload() == data@,
            r is Err ==> final(self).spec_payload() == data@.take(
                room(old(self).kind(), old(self).storage().limit()->Some_0 as nat) as int,
            ),
    {
        let r = self.try_resize(data.len());
        let n = self.payload_size();
        self.write_all(data, n);
        r
    }

    /// Writes `data[..n]` over a laid-out payload of `n` bytes.
    fn write_all(&mut self, data: &[u8], n: usize)
        requires
            old(self).wf(),
            old(self).canonical(),
            old(self).spec_payload().len() == n,
            n <= data@.len(),
            forall|i: int| 0 <= i < data@.len() ==> data@[i] < 128,
        ensures
            final(self).wf(),
            final(self).canonical(),
            final(self).kind() == old(self).kind(),
            final(self).storage().limit() == old(self).storage().limit(),
            final(self).spec_group() == old(self).spec_group(),
            final(self).spec_payload() == data@.take(n as int),
    {
        let mut i: usize = 0;
        while i < n
            invariant
                self.wf(),
                self.canonical(),
                self.kind() == old(self).kind(),
                self.storage().limit() == old(self).storage().limit(),
                self.spec_group() == old(self).spec_group(),
                self.spec_payload().len() == n,
                n <= data@.len(),
                i <= n,
                forall|k: int| 0 <= k < data@.len() ==> data@[k] < 128,
                forall|k: int| 0 <= k < i ==> self.spec_payload()[k] == data@[k],
            decreases n - i,
        {
            self.write_datum(data[i], i);
            i = i + 1;
        }
        assert(self.spec_payload() =~= data@.take(n as int));
    }
}

/// Two runs whose packets carry the same types from `p` on have equally
/// long runs from `p` on.
pub proof fn lemma_same_run(a: Seq<u32>, b: Seq<u32>, p: nat)
    requires
        a.len() == b.len(),
        forall|q: int| 0 <= q < packet_count(a) ==> #[trigger] packet_type(a, q) == packet_type(b, q),
    ensures
        run_from(a, p) == run_from(b, p),
    decreases packet_count(a) - p,
{
    if p < packet_count(a) {
        lemma_same_run(a, b, p + 1);
    }
}

/// Runs whose packets carry the same payload carry the same payload in all.
pub proof fn lemma_same_payload(a: Seq<u32>, b: Seq<u32>, p: nat, n: nat)
    requires
        forall|q: int| 0 <= q < n ==> #[trigger] packet_payload(b, q) == packet_payload(a, q),
    ensures
        payload_from(a, p, n) == payload_from(b, p, n),
    decreases n - p,
{
    if p < n {
        lemma_same_payload(a, b, p + 1, n);
        assert(packet_payload(b, p as int) == packet_payload(a, p as int));
    }
}

/// The payload of the first `n` packets depends on those packets alone.
pub proof fn lemma_payload_prefix(ws: Seq<u32>, run: Seq<u32>, p: nat, n: nat)
    requires
        p <= n,
        2 * n <= ws.len(),
        run == ws.subrange(0, 2 * n as int),
        forall|q: int| 0 <= q < n ==> #[trigger] packet_size(ws, q) <= PACKET_CAPACITY,
    ensures
        payload_from(run, p, n) == payload_from(ws, p, n),
    decreases n - p,
{
    if p < n {
        lemma_payload_prefix(ws, run, p + 1, n);
        assert(packet_size(run, p as int) == packet_size(ws, p as int));
        assert forall|k: int| 0 <= k < packet_size(ws, p as int) implies payload_byte(run, p as int, k)
            == payload_byte(ws, p as int, k) by {
            assert(byte_word(k) <= 1);
        }
        assert(packet_payload(run, p as int) =~= packet_payload(ws, p as int));
    }
}

/// A valid run declares no more than a packet's capacity in any packet.
pub proof fn lemma_valid_sizes(ws: Seq<u32>)
    requires
        ump_error(ws) is None,
    ensures
        forall|q: int| 0 <= q < run_len(ws) ==> #[trigger] packet_size(ws, q) <= PACKET_CAPACITY,
        1 <= run_len(ws),
        2 * run_len(ws) <= ws.len(),
{
    lemma_run_from(ws, 0);
    assert(run_from(ws, 0) >= 1) by {
        assert(packet_type(ws, 0) == UMP_MESSAGE_TYPE);
    }
}

/// A run in which two packets in a row start a payload, or a complete
/// packet is followed by a continue, or a single packet starts a payload
/// that never ends, is rejected as invalid data.
pub proof fn lemma_status_grammar_rejects(ws: Seq<u32>)
    requires
        ws.len() >= 2,
        packet_type(ws, 0) == UMP_MESSAGE_TYPE,
        (exists|p: int|
            0 <= p && p + 1 < run_len(ws) && #[trigger] packet_status(ws, p) == STATUS_START
                && packet_status(ws, p + 1) == STATUS_START) || (run_len(ws) >= 2 && packet_status(
            ws,
            0,
        ) == STATUS_COMPLETE && packet_status(ws, 1) == STATUS_CONTINUE) || (run_len(ws) == 1
            && packet_status(ws, 0) == STATUS_START),
    ensures
        ump_error(ws) matches Some(Error::InvalidData(_)),
{
    lemma_run_from(ws, 0);
    let n = run_len(ws);
    let rw = run_words(ws);
    assert(chunk_count(rw, 2) == n);
    assert forall|c: int| 0 <= c < n implies #[trigger] chunk_nibble(rw, 2, c, 2) == packet_status(
        ws,
        c,
    ) by {
        assert(c * 2 == 2 * c);
    }
    if groups_consistent(rw, 2) {
        assert(chunk_nibble(rw, 2, 0, 2) == packet_status(ws, 0));
        if n >= 2 {
            assert(chunk_nibble(rw, 2, 1, 2) == packet_status(ws, 1));
            assert(chunk_nibble(rw, 2, n - 1, 2) == packet_status(ws, n - 1));
            if exists|p: int|
                0 <= p && p + 1 < n && #[trigger] packet_status(ws, p) == STATUS_START
                    && packet_status(ws, p + 1) == STATUS_START {
                let p = choose|p: int|
                    0 <= p && p + 1 < n && #[trigger] packet_status(ws, p) == STATUS_START
                        && packet_status(ws, p + 1) == STATUS_START;
                assert(chunk_nibble(rw, 2, p + 1, 2) == STATUS_START);
                if p + 1 < n - 1 {
                    assert(1 <= p + 1 < n - 1 && chunk_nibble(rw, 2, p + 1, 2) != STATUS_CONTINUE);
                }
            }
        }
        assert(status_error(rw, 2, sysex7_codes()) is Some);
    }
}

/// A run in which some packet carries another group than the first is
/// rejected as inconsistent.
pub proof fn lemma_group_consistency_rejects(ws: Seq<u32>, p: int)
    requires
        ws.len() >= 2,
        packet_type(ws, 0) == UMP_MESSAGE_TYPE,
        0 <= p < run_len(ws),
        packet_group(ws, p) != packet_group(ws, 0),
    ensures
        ump_error(ws) == Some(Error::InvalidData(InvalidReason::InconsistentGroups)),
{
    lemma_run_from(ws, 0);
    let rw = run_words(ws);
    assert(chunk_count(rw, 2) == run_len(ws));
    assert(p * 2 == 2 * p);
    assert(chunk_nibble(rw, 2, p, 1) != nibble32(rw[0], 1));
}

} // verus!
